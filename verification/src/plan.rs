//! The order in which a list of bit specifications visits (core, bit)
//! positions.

use crate::parse::{BitSpec, Rect, Span};
use crate::register::REGISTER_BITS;
use vstd::prelude::*;

verus! {

/// One position to toggle: a bit of the register of one core.
#[derive(Clone, Copy, Debug, PartialEq, Eq, Structural)]
pub struct Target {
    pub core: u16,
    pub bit: u8,
}

/// The smaller of two numbers.
pub open spec fn lower(a: nat, b: nat) -> nat {
    if a < b {
        a
    } else {
        b
    }
}

/// How many indices lie in `[start, end)`; none if `end <= start`.
pub open spec fn span_len(start: nat, end: nat) -> nat {
    if start < end {
        (end - start) as nat
    } else {
        0
    }
}

/// The positions that `bits` selects on one core, in ascending order. Only
/// bits below [`REGISTER_BITS`] exist.
pub open spec fn row_targets(core: nat, bits: Span) -> Seq<Target> {
    Seq::new(
        span_len(bits.start, lower(bits.end, REGISTER_BITS as nat)),
        |j: int| Target { core: core as u16, bit: (bits.start + j) as u8 },
    )
}

/// The positions that `bits` selects on the cores of `[first, end)`, core by
/// core in ascending order.
pub open spec fn rows_targets(first: nat, end: nat, bits: Span) -> Seq<Target>
    decreases end,
{
    if end <= first {
        Seq::<Target>::empty()
    } else {
        rows_targets(first, (end - 1) as nat, bits) + row_targets((end - 1) as nat, bits)
    }
}

/// The positions that one specification selects on a machine of `num_cores`
/// cores: cores in ascending order, and on each core bits in ascending order.
/// Only cores below `num_cores` exist.
pub open spec fn rect_targets(rect: Rect, num_cores: nat) -> Seq<Target> {
    rows_targets(rect.cores.start, lower(rect.cores.end, num_cores), rect.bits)
}

/// The positions that a list of specifications selects, specification by
/// specification in the order of the list. A position occurs once for each
/// specification that selects it.
pub open spec fn plan_of(specs: Seq<BitSpec>, num_cores: nat) -> Seq<Target>
    decreases specs.len(),
{
    if specs.len() == 0 {
        Seq::<Target>::empty()
    } else {
        plan_of(specs.drop_last(), num_cores) + rect_targets(specs.last()@, num_cores)
    }
}

/// Lists the positions to toggle, in the order in which they are toggled.
pub fn flip_plan(bitspecs: &Vec<BitSpec>, num_cores: u16) -> (plan: Vec<Target>)
    ensures
        plan@ == plan_of(bitspecs@, num_cores as nat),
{
    let mut plan: Vec<Target> = Vec::new();
    let count = bitspecs.len();
    let mut i: usize = 0;
    while i < count
        invariant
            i <= count,
            count == bitspecs.len(),
            plan@ == plan_of(bitspecs@.take(i as int), num_cores as nat),
        decreases count - i,
    {
        let spec = &bitspecs[i];
        let ghost done = plan@;
        let ghost rect = spec@;
        let core_end: u32 = if spec.cores.end < num_cores as u32 {
            spec.cores.end
        } else {
            num_cores as u32
        };
        let bit_end: u32 = if spec.bits.end < REGISTER_BITS {
            spec.bits.end
        } else {
            REGISTER_BITS
        };
        let mut core: u32 = spec.cores.start;
        while core < core_end
            invariant
                core_end <= num_cores,
                core_end == lower(rect.cores.end, num_cores as nat),
                bit_end == lower(rect.bits.end, REGISTER_BITS as nat),
                rect == spec@,
                rect.cores.start <= core,
                core <= core_end || core == rect.cores.start,
                plan@ == done + rows_targets(rect.cores.start, core as nat, rect.bits),
            decreases core_end - core,
        {
            let ghost rows = plan@;
            let ghost row = row_targets(core as nat, rect.bits);
            let mut bit: u32 = spec.bits.start;
            while bit < bit_end
                invariant
                    core < core_end <= num_cores,
                    bit_end == lower(rect.bits.end, REGISTER_BITS as nat),
                    rect == spec@,
                    rect.bits.start <= bit,
                    bit <= bit_end || bit == rect.bits.start,
                    row == row_targets(core as nat, rect.bits),
                    plan@ == rows + row.take(bit - rect.bits.start),
                decreases bit_end - bit,
            {
                plan.push(Target { core: core as u16, bit: bit as u8 });
                proof {
                    let j = bit - rect.bits.start;
                    assert(row.take(j + 1) == row.take(j).push(row[j]));
                }
                bit += 1;
            }
            proof {
                assert(row.take(bit - rect.bits.start) == row);
                assert(plan@ == done + (rows_targets(rect.cores.start, core as nat, rect.bits)
                    + row));
            }
            core += 1;
        }
        proof {
            let next = bitspecs@.take(i + 1);
            assert(next.drop_last() == bitspecs@.take(i as int));
            assert(next.last() == bitspecs@[i as int]);
        }
        i += 1;
    }
    proof {
        assert(bitspecs@.take(count as int) == bitspecs@);
    }
    plan
}

/// Every position of a run of rows lies on a core of `[first, end)` and on a
/// bit that `bits` selects and that exists.
pub proof fn lemma_rows_targets_within(first: nat, end: nat, bits: Span, i: int)
    requires
        end <= 0x1_0000,
        0 <= i < rows_targets(first, end, bits).len(),
    ensures
        first <= rows_targets(first, end, bits)[i].core < end,
        bits.start <= rows_targets(first, end, bits)[i].bit < lower(
            bits.end,
            REGISTER_BITS as nat,
        ),
    decreases end,
{
    if end > first {
        let before = rows_targets(first, (end - 1) as nat, bits);
        if i < before.len() {
            lemma_rows_targets_within(first, (end - 1) as nat, bits, i);
        }
    }
}

/// Every position of a plan names a core and a bit that exist.
pub proof fn lemma_plan_within(specs: Seq<BitSpec>, num_cores: nat, i: int)
    requires
        num_cores <= 0x1_0000,
        0 <= i < plan_of(specs, num_cores).len(),
    ensures
        plan_of(specs, num_cores)[i].core < num_cores,
        plan_of(specs, num_cores)[i].bit < REGISTER_BITS,
    decreases specs.len(),
{
    if specs.len() > 0 {
        let before = plan_of(specs.drop_last(), num_cores);
        if i < before.len() {
            lemma_plan_within(specs.drop_last(), num_cores, i);
        } else {
            let rect = specs.last()@;
            lemma_rows_targets_within(
                rect.cores.start,
                lower(rect.cores.end, num_cores),
                rect.bits,
                i - before.len(),
            );
        }
    }
}

/// Whether a specification selects the position `target` on a machine of
/// `num_cores` cores: its core lies in the core range and exists, its bit lies
/// in the bit range and exists.
pub open spec fn selects(rect: Rect, num_cores: nat, target: Target) -> bool {
    &&& rect.cores.start <= target.core < lower(rect.cores.end, num_cores)
    &&& rect.bits.start <= target.bit < lower(rect.bits.end, REGISTER_BITS as nat)
}

/// Whether `a` is toggled before `b` within one specification: on a lower
/// core, or on the same core at a lower bit.
pub open spec fn comes_before(a: Target, b: Target) -> bool {
    a.core < b.core || (a.core == b.core && a.bit < b.bit)
}

/// A run of rows holds exactly the positions on its cores that `bits`
/// selects.
pub proof fn lemma_rows_targets_contains(first: nat, end: nat, bits: Span, target: Target)
    requires
        end <= 0x1_0000,
    ensures
        rows_targets(first, end, bits).contains(target) <==> {
            &&& first <= target.core < end
            &&& bits.start <= target.bit < lower(bits.end, REGISTER_BITS as nat)
        },
    decreases end,
{
    let rows = rows_targets(first, end, bits);
    if rows.contains(target) {
        let i = choose|i: int| 0 <= i < rows.len() && rows[i] == target;
        lemma_rows_targets_within(first, end, bits, i);
    }
    if first <= target.core < end && bits.start <= target.bit < lower(
        bits.end,
        REGISTER_BITS as nat,
    ) {
        let before = rows_targets(first, (end - 1) as nat, bits);
        let row = row_targets((end - 1) as nat, bits);
        if target.core == end - 1 {
            let j = target.bit - bits.start;
            assert(row[j] == target);
            assert(rows[before.len() + j] == target);
        } else {
            lemma_rows_targets_contains(first, (end - 1) as nat, bits, target);
            let i = choose|i: int| 0 <= i < before.len() && before[i] == target;
            assert(rows[i] == target);
        }
    }
}

/// The plan of one specification holds exactly the positions that it
/// selects.
pub proof fn lemma_rect_targets_contains(rect: Rect, num_cores: nat, target: Target)
    requires
        num_cores <= 0x1_0000,
    ensures
        rect_targets(rect, num_cores).contains(target) <==> selects(rect, num_cores, target),
{
    lemma_rows_targets_contains(
        rect.cores.start,
        lower(rect.cores.end, num_cores),
        rect.bits,
        target,
    );
}

/// Within a run of rows the positions come in ascending order, so none
/// comes twice.
pub proof fn lemma_rows_targets_ascending(first: nat, end: nat, bits: Span, i: int, j: int)
    requires
        end <= 0x1_0000,
        0 <= i < j < rows_targets(first, end, bits).len(),
    ensures
        comes_before(rows_targets(first, end, bits)[i], rows_targets(first, end, bits)[j]),
    decreases end,
{
    if end > first {
        let before = rows_targets(first, (end - 1) as nat, bits);
        if j < before.len() {
            lemma_rows_targets_ascending(first, (end - 1) as nat, bits, i, j);
        } else if i < before.len() {
            lemma_rows_targets_within(first, (end - 1) as nat, bits, i);
        }
    }
}

/// Within the plan of one specification the positions come in ascending
/// order: cores ascending, and on each core bits ascending.
pub proof fn lemma_rect_targets_ascending(rect: Rect, num_cores: nat, i: int, j: int)
    requires
        num_cores <= 0x1_0000,
        0 <= i < j < rect_targets(rect, num_cores).len(),
    ensures
        comes_before(rect_targets(rect, num_cores)[i], rect_targets(rect, num_cores)[j]),
{
    lemma_rows_targets_ascending(
        rect.cores.start,
        lower(rect.cores.end, num_cores),
        rect.bits,
        i,
        j,
    );
}

/// A plan holds exactly the positions that one of its specifications
/// selects.
pub proof fn lemma_plan_contains(specs: Seq<BitSpec>, num_cores: nat, target: Target)
    requires
        num_cores <= 0x1_0000,
    ensures
        plan_of(specs, num_cores).contains(target) <==> exists|k: int|
            0 <= k < specs.len() && selects(#[trigger] specs[k]@, num_cores, target),
    decreases specs.len(),
{
    let plan = plan_of(specs, num_cores);
    if specs.len() > 0 {
        let head = specs.drop_last();
        let before = plan_of(head, num_cores);
        let rect = specs.last()@;
        let here = rect_targets(rect, num_cores);
        lemma_plan_contains(head, num_cores, target);
        lemma_rect_targets_contains(rect, num_cores, target);
        if plan.contains(target) {
            let i = choose|i: int| 0 <= i < plan.len() && plan[i] == target;
            if i < before.len() {
                assert(before[i] == target);
                let k = choose|k: int|
                    0 <= k < head.len() && selects(#[trigger] head[k]@, num_cores, target);
                assert(specs[k] == head[k]);
            } else {
                assert(here[i - before.len()] == target);
                assert(selects(specs[specs.len() - 1]@, num_cores, target));
            }
        }
        if exists|k: int|
            0 <= k < specs.len() && selects(#[trigger] specs[k]@, num_cores, target) {
            let k = choose|k: int|
                0 <= k < specs.len() && selects(#[trigger] specs[k]@, num_cores, target);
            if k < head.len() {
                assert(head[k] == specs[k]);
                let i = choose|i: int| 0 <= i < before.len() && before[i] == target;
                assert(plan[i] == target);
            } else {
                let i = choose|i: int| 0 <= i < here.len() && here[i] == target;
                assert(plan[before.len() + i] == target);
            }
        }
    }
}

} // verus!
