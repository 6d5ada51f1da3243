//! The allocation core for one block: the aggregate time budget, the
//! infeasibility tags, and the placement of each slot inside the block.
//!
//! A block is a run of consecutive slot requests anchored between two
//! points in time. The slots are placed by cumulative proportional
//! scaling: the exact rational boundary after each slot is rounded to the
//! nearest whole second (ties round up), and each slot's length is the
//! difference of two consecutive rounded boundaries. Rounding boundaries
//! rather than lengths makes the lengths of a block sum exactly to its
//! span whenever the block has any demand at all.
use vstd::arithmetic::div_mod::lemma_div_is_ordered;
use vstd::arithmetic::div_mod::lemma_div_pos_is_pos;
use vstd::arithmetic::div_mod::lemma_fundamental_div_mod_converse_div;
use vstd::arithmetic::mul::lemma_mul_inequality;
use vstd::prelude::*;

use crate::slot::ScheduleError;
use crate::slot::Seconds;
use crate::slot::SlotDto;
use crate::slot::SlotResult;
use crate::slot::TimePoint;

verus! {

/// Sum of the requested lengths of the rigid slots in a sequence.
pub open spec fn fixed_demand(s: Seq<SlotDto>) -> int
    decreases s.len(),
{
    if s.len() == 0 {
        0
    } else {
        fixed_demand(s.drop_last()) + if s.last().config.fixed_length {
            s.last().config.length as int
        } else {
            0int
        }
    }
}

/// Sum of the requested lengths of the elastic slots in a sequence.
pub open spec fn elastic_demand(s: Seq<SlotDto>) -> int
    decreases s.len(),
{
    if s.len() == 0 {
        0
    } else {
        elastic_demand(s.drop_last()) + if !s.last().config.fixed_length {
            s.last().config.length as int
        } else {
            0int
        }
    }
}

pub proof fn lemma_demand_nonneg(s: Seq<SlotDto>)
    ensures
        fixed_demand(s) >= 0,
        elastic_demand(s) >= 0,
    decreases s.len(),
{
    if s.len() > 0 {
        lemma_demand_nonneg(s.drop_last());
    }
}

/// Demands add up over concatenation.
pub proof fn lemma_demand_concat(a: Seq<SlotDto>, b: Seq<SlotDto>)
    ensures
        fixed_demand(a + b) == fixed_demand(a) + fixed_demand(b),
        elastic_demand(a + b) == elastic_demand(a) + elastic_demand(b),
    decreases b.len(),
{
    if b.len() == 0 {
        assert(a + b =~= a);
    } else {
        assert((a + b).drop_last() =~= a + b.drop_last());
        assert((a + b).last() == b.last());
        lemma_demand_concat(a, b.drop_last());
    }
}

/// Extending a prefix by one element adds that element's contribution.
pub proof fn lemma_demand_take_step(s: Seq<SlotDto>, i: int)
    requires
        0 <= i < s.len(),
    ensures
        fixed_demand(s.take(i + 1)) == fixed_demand(s.take(i)) + if s[i].config.fixed_length {
            s[i].config.length as int
        } else {
            0int
        },
        elastic_demand(s.take(i + 1)) == elastic_demand(s.take(i)) + if !s[i].config.fixed_length {
            s[i].config.length as int
        } else {
            0int
        },
{
    assert(s.take(i + 1).drop_last() =~= s.take(i));
    assert(s.take(i + 1).last() == s[i]);
}

/// A prefix never demands more than the whole sequence.
pub proof fn lemma_demand_prefix_le(s: Seq<SlotDto>, i: int)
    requires
        0 <= i <= s.len(),
    ensures
        fixed_demand(s.take(i)) <= fixed_demand(s),
        elastic_demand(s.take(i)) <= elastic_demand(s),
{
    assert(s =~= s.take(i) + s.skip(i));
    lemma_demand_concat(s.take(i), s.skip(i));
    lemma_demand_nonneg(s.skip(i));
}

/// Division that rounds to the nearest whole unit, ties rounding up.
/// Meaningful for `x >= 0` and `d > 0`.
pub open spec fn round_div(x: int, d: int) -> int {
    (x + d / 2) / d
}

proof fn lemma_round_div_nonneg(x: int, d: int)
    requires
        0 <= x,
        0 < d,
    ensures
        0 <= round_div(x, d),
{
    lemma_div_pos_is_pos(x + d / 2, d);
}

proof fn lemma_round_div_mono(x: int, y: int, d: int)
    requires
        x <= y,
        0 < d,
    ensures
        round_div(x, d) <= round_div(y, d),
{
    lemma_div_is_ordered(x + d / 2, y + d / 2, d);
}

/// An exact multiple of the divisor rounds to the exact quotient.
proof fn lemma_round_div_exact(k: int, d: int)
    requires
        0 < d,
    ensures
        round_div(k * d, d) == k,
{
    lemma_fundamental_div_mod_converse_div(k * d + d / 2, d, k, d / 2);
}

/// A numerator bounded by `k * d` rounds to at most `k`.
proof fn lemma_round_div_le(x: int, k: int, d: int)
    requires
        0 <= x <= k * d,
        0 < d,
    ensures
        round_div(x, d) <= k,
{
    lemma_round_div_mono(x, k * d, d);
    lemma_round_div_exact(k, d);
}

/// The mathematical model of one block: a run of slot requests anchored
/// between two points in time.
pub ghost struct BlockModel {
    pub start: TimePoint,
    pub slots: Seq<SlotDto>,
    pub end: TimePoint,
}

/// Structural well-formedness of a block: it spans forward in time and is
/// never empty. A zero span is permitted; with demand present it is
/// flagged infeasible downstream, not rejected.
pub open spec fn block_wf(b: BlockModel) -> bool {
    b.start <= b.end && b.slots.len() > 0
}

/// The machine-width bound under which a block's sums can be computed.
pub open spec fn block_demands_fit(b: BlockModel) -> bool {
    fixed_demand(b.slots) <= u64::MAX && elastic_demand(b.slots) <= u64::MAX
}

/// Why, if at all, the slots of a block cannot be honored as requested:
/// either there is no elastic slack at all, or the fixed demand alone
/// exceeds the span. In both cases one uniform ratio `span / fixed_demand`
/// is applied to the fixed slots and the elastic slots collapse to zero.
pub open spec fn block_tag(slots: Seq<SlotDto>, span: int) -> Option<ScheduleError> {
    let f = fixed_demand(slots);
    let e = elastic_demand(slots);
    if f > 0 && (e == 0 || f > span) {
        if f > span {
            Some(ScheduleError::InsufficientFixedTime)
        } else {
            Some(ScheduleError::NoElasticSlots)
        }
    } else {
        None
    }
}

/// The rounded boundary offset after the first `i` slots of a block,
/// measured from the block's start.
///
/// When the block is tagged, every slot is scaled by `span / fixed_demand`
/// and elastic slots contribute nothing. Otherwise fixed slots keep their
/// exact requested length and the elastic slots share the remaining
/// budget in proportion to their requests.
pub open spec fn offset_at(slots: Seq<SlotDto>, span: int, i: int) -> int {
    let f = fixed_demand(slots);
    let e = elastic_demand(slots);
    if block_tag(slots, span).is_some() {
        round_div(fixed_demand(slots.take(i)) * span, f)
    } else {
        fixed_demand(slots.take(i)) + if e > 0 {
            round_div(elastic_demand(slots.take(i)) * (span - f), e)
        } else {
            0int
        }
    }
}

/// Boundary offsets stay between zero and the span.
proof fn lemma_offset_at_bounds(slots: Seq<SlotDto>, span: int, i: int)
    requires
        0 <= span,
        0 <= i <= slots.len(),
    ensures
        0 <= offset_at(slots, span, i) <= span,
{
    let f = fixed_demand(slots);
    let e = elastic_demand(slots);
    let fi = fixed_demand(slots.take(i));
    let ei = elastic_demand(slots.take(i));
    lemma_demand_nonneg(slots.take(i));
    lemma_demand_prefix_le(slots, i);
    if block_tag(slots, span).is_some() {
        lemma_mul_inequality(fi, f, span);
        assert(fi * span <= f * span);
        lemma_mul_nonneg_pair(fi, span);
        lemma_round_div_nonneg(fi * span, f);
        lemma_mul_commute(f, span);
        lemma_round_div_le(fi * span, span, f);
    } else {
        if e > 0 {
            if f > 0 {
                assert(f <= span);
            } else {
                lemma_demand_nonneg(slots);
                assert(f == 0);
            }
            lemma_mul_inequality(ei, e, span - f);
            lemma_mul_nonneg_pair(ei, span - f);
            lemma_round_div_nonneg(ei * (span - f), e);
            lemma_mul_commute(e, span - f);
            lemma_round_div_le(ei * (span - f), span - f, e);
        } else {
            lemma_demand_nonneg(slots);
            if f > 0 {
            } else {
                assert(f == 0);
                assert(0 <= fi <= f);
            }
        }
    }
}

proof fn lemma_mul_nonneg_pair(a: int, b: int)
    requires
        0 <= a,
        0 <= b,
    ensures
        0 <= a * b,
{
    assert(0 <= a * b) by (nonlinear_arith)
        requires
            0 <= a,
            0 <= b,
    ;
}

proof fn lemma_mul_commute(a: int, b: int)
    ensures
        a * b == b * a,
{
}

/// Bounded factors give a bounded product.
proof fn lemma_mul_le_bounds(a: int, b: int, ca: int, cb: int)
    requires
        0 <= a <= ca,
        0 <= b <= cb,
    ensures
        a * b <= ca * cb,
{
    assert(a * b <= ca * cb) by (nonlinear_arith)
        requires
            0 <= a <= ca,
            0 <= b <= cb,
    ;
}

/// Boundary offsets never decrease.
proof fn lemma_offset_at_mono(slots: Seq<SlotDto>, span: int, i: int, j: int)
    requires
        0 <= span,
        0 <= i <= j <= slots.len(),
    ensures
        offset_at(slots, span, i) <= offset_at(slots, span, j),
{
    let f = fixed_demand(slots);
    let e = elastic_demand(slots);
    lemma_demand_prefix_mono(slots, i, j);
    let fi = fixed_demand(slots.take(i));
    let fj = fixed_demand(slots.take(j));
    let ei = elastic_demand(slots.take(i));
    let ej = elastic_demand(slots.take(j));
    if block_tag(slots, span).is_some() {
        lemma_mul_inequality(fi, fj, span);
        lemma_round_div_mono(fi * span, fj * span, f);
    } else {
        if e > 0 {
            lemma_mul_inequality(ei, ej, span - f);
            if f > 0 {
                assert(f <= span);
            } else {
                lemma_demand_nonneg(slots);
            }
            lemma_round_div_mono(ei * (span - f), ej * (span - f), e);
        }
    }
}

/// Prefix demands never decrease.
proof fn lemma_demand_prefix_mono(s: Seq<SlotDto>, i: int, j: int)
    requires
        0 <= i <= j <= s.len(),
    ensures
        fixed_demand(s.take(i)) <= fixed_demand(s.take(j)),
        elastic_demand(s.take(i)) <= elastic_demand(s.take(j)),
{
    assert(s.take(j).take(i) =~= s.take(i));
    lemma_demand_prefix_le(s.take(j), i);
}

/// The boundary after all slots reaches the span exactly, as long as the
/// block demands anything at all; a block with no demand leaves its whole
/// span unused.
proof fn lemma_offset_at_full(slots: Seq<SlotDto>, span: int)
    requires
        0 <= span,
    ensures
        offset_at(slots, span, slots.len() as int) == if fixed_demand(slots) + elastic_demand(slots)
            > 0 {
            span
        } else {
            0int
        },
{
    let f = fixed_demand(slots);
    let e = elastic_demand(slots);
    assert(slots.take(slots.len() as int) =~= slots);
    lemma_demand_nonneg(slots);
    if block_tag(slots, span).is_some() {
        lemma_mul_commute(f, span);
        lemma_round_div_exact(span, f);
    } else {
        if e > 0 {
            lemma_mul_commute(e, span - f);
            lemma_round_div_exact(span - f, e);
            if f > 0 {
                assert(f <= span);
            }
        } else {
            if f > 0 {
                assert(block_tag(slots, span).is_some());
            }
        }
    }
}

/// The computed placement of the slot at position `i` of a block: lengths
/// are differences of consecutive rounded boundaries, rigid slots carry
/// the block's tag, elastic slots always report success.
pub open spec fn slot_result_at(b: BlockModel, i: int) -> SlotResult {
    let span = b.end - b.start;
    SlotResult {
        start: (b.start + offset_at(b.slots, span, i)) as u64,
        length: (offset_at(b.slots, span, i + 1) - offset_at(b.slots, span, i)) as u64,
        warning: if b.slots[i].config.fixed_length {
            match block_tag(b.slots, span) {
                Some(err) => Err(err),
                None => Ok(()),
            }
        } else {
            Ok(())
        },
        configured: b.slots[i],
    }
}

/// The placements of all slots of a block, in order.
pub open spec fn block_results(b: BlockModel) -> Seq<SlotResult> {
    Seq::new(b.slots.len(), |i: int| slot_result_at(b, i))
}

/// The aggregate time budget of one block.
pub struct SlotAllocTime {
    /// Total time allocated to the block; all its slots together fit this.
    pub tot_alloc: Seconds,
    /// The sum of the requested lengths of the rigid slots.
    pub tot_req_fixed: Seconds,
    /// The sum of the requested lengths of the elastic slots.
    pub tot_req_elastic: Seconds,
    /// The space left for elastic slots to expand or shrink into.
    pub elastic_alloc_time: Seconds,
}

impl SlotAllocTime {
    /// The infeasibility tag of a block with this budget, if any. Rigid
    /// slots are rescaled only when there is no elastic slack to absorb
    /// the difference or when they cannot fit at all.
    pub fn fixed_tag(&self) -> (w: Option<ScheduleError>)
        ensures
            w == (if self.tot_req_fixed > 0 && (self.tot_req_elastic == 0 || self.tot_req_fixed
                > self.tot_alloc) {
                if self.tot_req_fixed > self.tot_alloc {
                    Some(ScheduleError::InsufficientFixedTime)
                } else {
                    Some(ScheduleError::NoElasticSlots)
                }
            } else {
                None::<ScheduleError>
            }),
    {
        if self.tot_req_fixed == 0 {
            return None;
        }
        let no_elastic_slots = self.tot_req_elastic == 0;
        let too_little_time_alloc = self.tot_req_fixed > self.tot_alloc;
        if no_elastic_slots || too_little_time_alloc {
            if too_little_time_alloc {
                Some(ScheduleError::InsufficientFixedTime)
            } else {
                Some(ScheduleError::NoElasticSlots)
            }
        } else {
            None
        }
    }
}

/// A run of consecutive slots between two anchored points in time.
pub struct SlotBlock {
    pub start: TimePoint,
    /// The slots of the block, in their original order; never empty.
    pub slots: Vec<SlotDto>,
    pub end_time: TimePoint,
}

impl View for SlotBlock {
    type V = BlockModel;

    open spec fn view(&self) -> BlockModel {
        BlockModel { start: self.start, slots: self.slots@, end: self.end_time }
    }
}

impl SlotBlock {
    /// Anchors a non-empty run of slots between `start` and `end_time`.
    pub fn new(start: TimePoint, slots: Vec<SlotDto>, end_time: TimePoint) -> (b: Self)
        requires
            start <= end_time,
            slots@.len() > 0,
        ensures
            b@ == (BlockModel { start, slots: slots@, end: end_time }),
            block_wf(b@),
    {
        SlotBlock { start, slots, end_time }
    }

    /// Computes the block's aggregate time budget.
    pub fn get_allocated(&self) -> (a: SlotAllocTime)
        requires
            block_wf(self@),
            block_demands_fit(self@),
        ensures
            a.tot_alloc == self@.end - self@.start,
            a.tot_req_fixed == fixed_demand(self@.slots),
            a.tot_req_elastic == elastic_demand(self@.slots),
            a.elastic_alloc_time == (if fixed_demand(self@.slots) <= self@.end - self@.start {
                self@.end - self@.start - fixed_demand(self@.slots)
            } else {
                0int
            }),
    {
        let ghost s = self@.slots;
        let tot_alloc = self.end_time - self.start;
        let mut tot_req_fixed: u64 = 0;
        let mut tot_req_elastic: u64 = 0;
        let mut k: usize = 0;
        proof {
            assert(s.take(0) =~= Seq::<SlotDto>::empty());
        }
        while k < self.slots.len()
            invariant
                k <= s.len(),
                s == self@.slots,
                block_demands_fit(self@),
                tot_req_fixed == fixed_demand(s.take(k as int)),
                tot_req_elastic == elastic_demand(s.take(k as int)),
            decreases s.len() - k,
        {
            proof {
                lemma_demand_take_step(s, k as int);
                lemma_demand_prefix_le(s, k as int + 1);
                lemma_demand_nonneg(s.take(k as int));
                lemma_demand_nonneg(s.take(k as int + 1));
            }
            let d = &self.slots[k];
            if d.config.fixed_length {
                tot_req_fixed = tot_req_fixed + d.config.length;
            } else {
                tot_req_elastic = tot_req_elastic + d.config.length;
            }
            k += 1;
        }
        proof {
            assert(s.take(s.len() as int) =~= s);
        }
        let elastic_alloc_time = if tot_req_fixed <= tot_alloc {
            tot_alloc - tot_req_fixed
        } else {
            0
        };
        SlotAllocTime { tot_alloc, tot_req_fixed, tot_req_elastic, elastic_alloc_time }
    }

    /// Places every slot of the block: each length is the difference of
    /// two consecutive rounded boundaries, each start is the running
    /// cursor, and rigid slots carry the block's tag.
    pub fn get_slot_result(self) -> (r: Vec<SlotResult>)
        requires
            block_wf(self@),
            block_demands_fit(self@),
        ensures
            r@ == block_results(self@),
    {
        let ghost b = self@;
        let ghost span: int = b.end - b.start;
        let alloc = self.get_allocated();
        let tag = alloc.fixed_tag();
        proof {
            assert(tag == block_tag(b.slots, span));
        }
        let start0 = self.start;
        let end0 = self.end_time;
        let f = alloc.tot_req_fixed;
        let e = alloc.tot_req_elastic;
        let ealloc = alloc.elastic_alloc_time;
        let span_u: u64 = alloc.tot_alloc;

        let mut rest = self.slots;
        let mut out: Vec<SlotResult> = Vec::new();
        let mut fixed_pre: u64 = 0;
        let mut elastic_pre: u64 = 0;
        let mut cur_off: u64 = 0;
        let mut k: usize = 0;
        let ghost n = b.slots.len() as int;
        proof {
            assert(b.slots.skip(0) =~= b.slots);
            lemma_offset_at_zero(b.slots, span);
        }
        assert(rest.len() == b.slots.len());
        while rest.len() > 0
            invariant
                0 <= k <= n,
                n <= usize::MAX,
                n == b.slots.len(),
                out@.len() == k,
                rest@ == b.slots.skip(k as int),
                rest@.len() + out@.len() == n,
                block_wf(b),
                block_demands_fit(b),
                span == b.end - b.start,
                b.start == start0,
                b.end == end0,
                span_u == span,
                f == fixed_demand(b.slots),
                e == elastic_demand(b.slots),
                ealloc == (if fixed_demand(b.slots) <= span {
                    span - fixed_demand(b.slots)
                } else {
                    0int
                }),
                tag == block_tag(b.slots, span),
                fixed_pre == fixed_demand(b.slots.take(k as int)),
                elastic_pre == elastic_demand(b.slots.take(k as int)),
                cur_off == offset_at(b.slots, span, k as int),
                forall|j: int| 0 <= j < k ==> out@[j] == slot_result_at(b, j),
            decreases n - k,
        {
            proof {
                assert(rest@[0] == b.slots[k as int]);
                assert(rest@.drop_first() =~= b.slots.skip(k as int + 1));
                lemma_demand_take_step(b.slots, k as int);
                lemma_demand_prefix_le(b.slots, k as int + 1);
                lemma_demand_nonneg(b.slots.take(k as int));
                lemma_demand_nonneg(b.slots.take(k as int + 1));
                lemma_offset_at_bounds(b.slots, span, k as int);
                lemma_offset_at_bounds(b.slots, span, k as int + 1);
                lemma_offset_at_mono(b.slots, span, k as int, k as int + 1);
            }
            let d = rest.remove(0);
            if d.config.fixed_length {
                fixed_pre = fixed_pre + d.config.length;
            } else {
                elastic_pre = elastic_pre + d.config.length;
            }
            let next_off: u64 = if tag.is_some() {
                proof {
                    lemma_mul_inequality(fixed_pre as int, f as int, span);
                    lemma_mul_nonneg_pair(fixed_pre as int, span);
                    lemma_round_div_nonneg(fixed_pre as int * span, f as int);
                    lemma_mul_commute(f as int, span);
                    lemma_round_div_le(fixed_pre as int * span, span, f as int);
                }
                proof {
                    lemma_mul_le_bounds(fixed_pre as int, span, u64::MAX as int, u64::MAX as int);
                }
                let num: u128 = (fixed_pre as u128) * (span_u as u128);
                let den: u128 = f as u128;
                (((num + den / 2) / den) as u64)
            } else {
                if e > 0 {
                    proof {
                        lemma_demand_nonneg(b.slots);
                        if f > 0 {
                            assert(f <= span);
                        }
                        assert(ealloc == span - f);
                        lemma_mul_inequality(elastic_pre as int, e as int, ealloc as int);
                        lemma_mul_nonneg_pair(elastic_pre as int, ealloc as int);
                        lemma_round_div_nonneg(elastic_pre as int * (span - f), e as int);
                        lemma_mul_commute(e as int, ealloc as int);
                        lemma_round_div_le(elastic_pre as int * (span - f), ealloc as int, e as int);
                    }
                    proof {
                        lemma_mul_le_bounds(
                            elastic_pre as int,
                            ealloc as int,
                            u64::MAX as int,
                            u64::MAX as int,
                        );
                    }
                    let enum_: u128 = (elastic_pre as u128) * (ealloc as u128);
                    let eden: u128 = e as u128;
                    fixed_pre + (((enum_ + eden / 2) / eden) as u64)
                } else {
                    proof {
                        lemma_demand_nonneg(b.slots);
                        if f > 0 {
                            assert(e == 0);
                            assert(block_tag(b.slots, span).is_some());
                        }
                        assert(f == 0);
                        assert(fixed_demand(b.slots.take(k as int + 1)) <= 0);
                    }
                    fixed_pre
                }
            };
            proof {
                assert(next_off == offset_at(b.slots, span, k as int + 1));
            }
            let warning: Result<(), ScheduleError> = if d.config.fixed_length {
                match tag {
                    Some(err) => Err(err),
                    None => Ok(()),
                }
            } else {
                Ok(())
            };
            let placed = SlotResult {
                start: start0 + cur_off,
                length: next_off - cur_off,
                warning,
                configured: d,
            };
            proof {
                assert(placed == slot_result_at(b, k as int));
            }
            out.push(placed);
            cur_off = next_off;
            k += 1;
        }
        proof {
            assert(out@ =~= block_results(b));
        }
        out
    }
}

/// The total computed length over a sequence of placements.
pub open spec fn sum_lengths(rs: Seq<SlotResult>) -> int
    decreases rs.len(),
{
    if rs.len() == 0 {
        0
    } else {
        sum_lengths(rs.drop_last()) + rs.last().length as int
    }
}

proof fn lemma_sum_lengths_telescope(b: BlockModel, k: int)
    requires
        block_wf(b),
        0 <= k <= b.slots.len(),
    ensures
        sum_lengths(block_results(b).take(k)) == offset_at(b.slots, b.end - b.start, k),
    decreases k,
{
    let span = b.end - b.start;
    if k == 0 {
        assert(block_results(b).take(0) =~= Seq::<SlotResult>::empty());
        lemma_offset_at_zero(b.slots, span);
    } else {
        lemma_sum_lengths_telescope(b, k - 1);
        let rs = block_results(b).take(k);
        assert(rs.drop_last() =~= block_results(b).take(k - 1));
        assert(rs.last() == slot_result_at(b, k - 1));
        lemma_offset_at_bounds(b.slots, span, k - 1);
        lemma_offset_at_bounds(b.slots, span, k);
        lemma_offset_at_mono(b.slots, span, k - 1, k);
        assert(slot_result_at(b, k - 1).length as int == offset_at(b.slots, span, k) - offset_at(
            b.slots,
            span,
            k - 1,
        ));
    }
}

/// The very first boundary offset of a block is zero.
pub proof fn lemma_offset_at_zero(slots: Seq<SlotDto>, span: int)
    requires
        0 <= span,
    ensures
        offset_at(slots, span, 0) == 0,
{
    let f = fixed_demand(slots);
    let e = elastic_demand(slots);
    assert(slots.take(0) =~= Seq::<SlotDto>::empty());
    if block_tag(slots, span).is_some() {
        lemma_round_div_nonneg(0 * span, f);
        lemma_round_div_le(0 * span, 0, f);
    } else {
        if e > 0 {
            lemma_round_div_nonneg(0 * (span - f), e);
            lemma_round_div_le(0 * (span - f), 0, e);
        }
    }
}

/// The placements of one block exactly fill its span, for every
/// feasibility outcome, as long as the block demands any time at all.
/// (A block whose every slot requests zero time leaves the span unused.)
pub proof fn lemma_block_results_fill_span(b: BlockModel)
    requires
        block_wf(b),
        fixed_demand(b.slots) + elastic_demand(b.slots) > 0 || b.start == b.end,
    ensures
        sum_lengths(block_results(b)) == b.end - b.start,
{
    let span = b.end - b.start;
    lemma_sum_lengths_telescope(b, b.slots.len() as int);
    assert(block_results(b).take(b.slots.len() as int) =~= block_results(b));
    lemma_offset_at_full(b.slots, span);
    lemma_demand_nonneg(b.slots);
}

} // verus!
