//! What a list of bit specifications does to the registers of all cores, and
//! the engine run against registers held in memory.

use crate::engine::{Action, FlipEngine, Outcome};
use crate::parse::BitSpec;
use crate::plan::{lemma_plan_within, lower, plan_of, rect_targets, Target};
use crate::register::{
    bit_of, lemma_toggle_commutes, lemma_toggle_inverts_bit, lemma_toggle_keeps_other_bits,
    lemma_toggle_twice, toggled, RegisterValue,
};
use vstd::prelude::*;

verus! {

/// The largest number of cores that a machine is taken to have.
pub const MAX_CORES: u16 = 65535;

/// The bytes of each register, the register of core `i` at index `i`.
pub open spec fn registers_view(registers: Seq<RegisterValue>) -> Seq<Seq<u8>> {
    Seq::new(registers.len(), |i: int| registers[i]@)
}

/// The registers after one read-modify-write cycle at `target`: that bit of
/// that core's register is inverted. A core that does not exist has no
/// register to change.
pub open spec fn flip_one(registers: Seq<Seq<u8>>, target: Target) -> Seq<Seq<u8>> {
    if target.core < registers.len() {
        registers.update(
            target.core as int,
            toggled(registers[target.core as int], target.bit as int),
        )
    } else {
        registers
    }
}

/// The registers after one cycle at each of `targets`, in order: each cycle
/// starts from what the one before it left.
pub open spec fn flip_all(registers: Seq<Seq<u8>>, targets: Seq<Target>) -> Seq<Seq<u8>>
    decreases targets.len(),
{
    if targets.len() == 0 {
        registers
    } else {
        flip_one(flip_all(registers, targets.drop_last()), targets.last())
    }
}

/// The number of cores of a machine with `count` registers.
pub open spec fn core_count(count: nat) -> nat {
    lower(count, MAX_CORES as nat)
}

/// Applies `bitspecs` to registers held in memory, `registers[i]` being the
/// register of core `i`: for each specification in order, for each of its
/// cores in ascending order, for each of its bits in ascending order, one
/// read-modify-write cycle that inverts that bit.
pub fn flip_bits(registers: &mut Vec<RegisterValue>, bitspecs: &Vec<BitSpec>)
    ensures
        registers_view(final(registers)@) == flip_all(
            registers_view(old(registers)@),
            plan_of(bitspecs@, core_count(old(registers)@.len())),
        ),
{
    let num_cores: u16 = if registers.len() < MAX_CORES as usize {
        registers.len() as u16
    } else {
        MAX_CORES
    };
    let mut engine = FlipEngine::new(bitspecs, num_cores);
    let ghost plan = engine@.plan;
    let ghost before = registers_view(registers@);
    proof {
        assert(plan.take(0) == Seq::<Target>::empty());
    }
    loop
        invariant
            num_cores <= registers.len(),
            registers.len() == before.len(),
            plan == plan_of(bitspecs@, num_cores as nat),
            engine@.plan == plan,
            engine@.position <= plan.len(),
            registers_view(registers@) == flip_all(before, plan.take(engine@.position as int)),
            engine@.staged matches Some(bytes) ==> !engine@.is_done() && bytes == toggled(
                registers[engine@.current().core as int]@,
                engine@.current().bit as int,
            ),
        ensures
            engine@.is_done(),
        decreases engine@.accesses_left(),
    {
        let ghost position = engine@.position as int;
        match engine.action() {
            Action::Done => {
                break ;
            },
            Action::Read { target } => {
                proof {
                    lemma_plan_within(bitspecs@, num_cores as nat, position);
                }
                let value = registers[target.core as usize];
                engine.step(Outcome::Read(value));
            },
            Action::Write { target, value } => {
                proof {
                    lemma_plan_within(bitspecs@, num_cores as nat, position);
                }
                let ghost held = registers_view(registers@);
                registers.set(target.core as usize, value);
                engine.step(Outcome::Written);
                proof {
                    assert(registers_view(registers@) == flip_one(held, target));
                    assert(plan.take(position + 1).drop_last() == plan.take(position));
                    assert(plan.take(position + 1).last() == target);
                }
            },
        }
    }
    proof {
        assert(plan.take(engine@.position as int) == plan);
    }
}

/// Whether every register holds eight bytes.
pub open spec fn eight_bytes_each(registers: Seq<Seq<u8>>) -> bool {
    forall|i: int| 0 <= i < registers.len() ==> (#[trigger] registers[i]).len() == 8
}

/// A cycle changes neither the number of registers nor their size.
pub proof fn lemma_flip_one_shape(registers: Seq<Seq<u8>>, target: Target)
    ensures
        flip_one(registers, target).len() == registers.len(),
        eight_bytes_each(registers) ==> eight_bytes_each(flip_one(registers, target)),
{
}

/// Cycles change neither the number of registers nor their size.
pub proof fn lemma_flip_all_shape(registers: Seq<Seq<u8>>, targets: Seq<Target>)
    ensures
        flip_all(registers, targets).len() == registers.len(),
        eight_bytes_each(registers) ==> eight_bytes_each(flip_all(registers, targets)),
    decreases targets.len(),
{
    if targets.len() > 0 {
        lemma_flip_all_shape(registers, targets.drop_last());
        lemma_flip_one_shape(flip_all(registers, targets.drop_last()), targets.last());
    }
}

/// Isolation: a cycle at `target` inverts that bit of that core's register
/// and changes no other bit of any register.
pub proof fn lemma_flip_one_isolated(
    registers: Seq<Seq<u8>>,
    target: Target,
    core: int,
    bit: int,
)
    requires
        eight_bytes_each(registers),
        target.core < registers.len(),
        target.bit < 64,
        0 <= core < registers.len(),
        0 <= bit < 64,
    ensures
        bit_of(flip_one(registers, target)[core], bit) == if core == target.core && bit
            == target.bit {
            !bit_of(registers[core], bit)
        } else {
            bit_of(registers[core], bit)
        },
{
    if core == target.core {
        if bit == target.bit {
            lemma_toggle_inverts_bit(registers[core], bit);
        } else {
            lemma_toggle_keeps_other_bits(registers[core], target.bit as int, bit);
        }
    }
}

/// Two cycles at the same position restore the registers.
pub proof fn lemma_flip_one_twice(registers: Seq<Seq<u8>>, target: Target)
    ensures
        flip_one(flip_one(registers, target), target) == registers,
{
    if target.core < registers.len() {
        lemma_toggle_twice(registers[target.core as int], target.bit as int);
        assert(flip_one(flip_one(registers, target), target) =~= registers);
    }
}

/// Two cycles leave the same registers in either order.
pub proof fn lemma_flip_one_commutes(registers: Seq<Seq<u8>>, first: Target, second: Target)
    ensures
        flip_one(flip_one(registers, first), second) == flip_one(
            flip_one(registers, second),
            first,
        ),
{
    if first.core < registers.len() && second.core < registers.len() && first.core
        == second.core {
        lemma_toggle_commutes(
            registers[first.core as int],
            first.bit as int,
            second.bit as int,
        );
    }
    assert(flip_one(flip_one(registers, first), second) =~= flip_one(
        flip_one(registers, second),
        first,
    ));
}

/// The cycles of two lists in a row are the cycles of the first list, then
/// those of the second.
pub proof fn lemma_flip_all_concat(
    registers: Seq<Seq<u8>>,
    first: Seq<Target>,
    second: Seq<Target>,
)
    ensures
        flip_all(registers, first + second) == flip_all(flip_all(registers, first), second),
    decreases second.len(),
{
    if second.len() == 0 {
        assert(first + second == first);
    } else {
        lemma_flip_all_concat(registers, first, second.drop_last());
        assert((first + second).drop_last() == first + second.drop_last());
        assert((first + second).last() == second.last());
    }
}

/// A cycle may be moved from before a list of cycles to behind it.
pub proof fn lemma_flip_one_moves_back(
    registers: Seq<Seq<u8>>,
    target: Target,
    targets: Seq<Target>,
)
    ensures
        flip_all(flip_one(registers, target), targets) == flip_one(
            flip_all(registers, targets),
            target,
        ),
    decreases targets.len(),
{
    if targets.len() > 0 {
        let head = targets.drop_last();
        lemma_flip_one_moves_back(registers, target, head);
        lemma_flip_one_commutes(flip_all(registers, head), target, targets.last());
    }
}

/// Idempotence: running a list of cycles twice restores every register.
pub proof fn lemma_flip_all_twice(registers: Seq<Seq<u8>>, targets: Seq<Target>)
    ensures
        flip_all(flip_all(registers, targets), targets) == registers,
    decreases targets.len(),
{
    if targets.len() > 0 {
        let head = targets.drop_last();
        let last = targets.last();
        let mid = flip_all(registers, head);
        // The second run starts with `last` already applied once; move that
        // cycle behind the head of the second run, where it meets its twin.
        lemma_flip_one_moves_back(mid, last, head);
        lemma_flip_all_twice(registers, head);
        lemma_flip_one_twice(registers, last);
    }
}

/// The plan of two lists of specifications in a row is the plan of the first,
/// then that of the second.
pub proof fn lemma_plan_concat(first: Seq<BitSpec>, second: Seq<BitSpec>, num_cores: nat)
    ensures
        plan_of(first + second, num_cores) == plan_of(first, num_cores) + plan_of(
            second,
            num_cores,
        ),
    decreases second.len(),
{
    if second.len() == 0 {
        assert(first + second == first);
    } else {
        lemma_plan_concat(first, second.drop_last(), num_cores);
        assert((first + second).drop_last() == first + second.drop_last());
        assert((first + second).last() == second.last());
    }
}

/// Idempotence: applying a list of specifications twice in a row restores
/// every register.
pub proof fn lemma_specs_twice_restore(
    registers: Seq<Seq<u8>>,
    specs: Seq<BitSpec>,
    num_cores: nat,
)
    ensures
        flip_all(registers, plan_of(specs + specs, num_cores)) == registers,
{
    let plan = plan_of(specs, num_cores);
    lemma_plan_concat(specs, specs, num_cores);
    lemma_flip_all_concat(registers, plan, plan);
    lemma_flip_all_twice(registers, plan);
}

/// Idempotence: two specifications that each select bit `bit` on core `core`
/// and nothing else, applied one after the other, restore every register.
pub proof fn lemma_same_bit_twice_restores(
    registers: Seq<Seq<u8>>,
    first: BitSpec,
    second: BitSpec,
    core: nat,
    bit: nat,
    num_cores: nat,
)
    requires
        first@.cores.start == core && first@.cores.end == core + 1,
        first@.bits.start == bit && first@.bits.end == bit + 1,
        second@ == first@,
    ensures
        flip_all(registers, plan_of(seq![first, second], num_cores)) == registers,
{
    let once = seq![first];
    let twin = seq![second];
    assert(seq![first, second] == once + twin);
    lemma_plan_concat(once, twin, num_cores);
    lemma_plan_single(first, num_cores);
    lemma_plan_single(second, num_cores);
    let plan = rect_targets(first@, num_cores);
    lemma_flip_all_concat(registers, plan, plan);
    lemma_flip_all_twice(registers, plan);
}

/// The plan of one specification is the positions that it selects.
pub proof fn lemma_plan_single(spec: BitSpec, num_cores: nat)
    ensures
        plan_of(seq![spec], num_cores) == rect_targets(spec@, num_cores),
{
    let one = seq![spec];
    assert(one.drop_last() == Seq::<BitSpec>::empty());
    assert(plan_of(one.drop_last(), num_cores) == Seq::<Target>::empty());
    assert(one.last() == spec);
}

} // verus!
