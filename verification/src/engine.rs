//! The public entry point of the scheduler: partition the day's requests
//! into blocks, budget and place every block, and concatenate the results
//! in the original request order.
use vstd::prelude::*;

use crate::partition::abs_blocks;
use crate::partition::blocks_members;
use crate::partition::get_slotblocks;
use crate::partition::lemma_spec_blocks_props;
use crate::partition::spec_blocks;
use crate::partition::starts_in_window;
use crate::schedule::BlockModel;
use crate::schedule::block_results;
use crate::schedule::block_wf;
use crate::schedule::elastic_demand;
use crate::schedule::fixed_demand;
use crate::schedule::lemma_offset_at_zero;
use crate::slot::Seconds;
use crate::slot::SlotDto;
use crate::slot::SlotResult;
use crate::slot::TimePoint;
use crate::slot::TimeSlotConfig;
use crate::slot_list::fixed_starts_ordered;
use crate::slot_list::slots_ordered;

verus! {

/// The placements of a sequence of blocks, concatenated in order.
pub open spec fn blocks_results(bs: Seq<BlockModel>) -> Seq<SlotResult>
    decreases bs.len(),
{
    if bs.len() == 0 {
        Seq::empty()
    } else {
        block_results(bs.first()) + blocks_results(bs.drop_first())
    }
}

/// The whole schedule for requests `s` in the window anchored at
/// `start_time`: the concatenated placements of all blocks. An empty
/// request sequence yields an empty schedule.
pub open spec fn schedule_spec(start_time: TimePoint, total_time: Seconds, s: Seq<SlotDto>) -> Seq<
    SlotResult,
> {
    if s.len() == 0 {
        Seq::empty()
    } else {
        blocks_results(spec_blocks(start_time, (start_time + total_time) as u64, s))
    }
}

/// The anchor of the day: the first request's fixed start when it has
/// one, the given default otherwise.
pub open spec fn effective_start(start_time: TimePoint, s: Seq<SlotDto>) -> TimePoint {
    if s.len() > 0 && s[0].config.start.is_some() {
        s[0].config.start.unwrap()
    } else {
        start_time
    }
}

/// The whole schedule as the day-level entry point computes it, with the
/// first request's fixed start as the anchor when present.
pub open spec fn calculate_slots_spec(
    start_time: TimePoint,
    total_time: Seconds,
    s: Seq<SlotDto>,
) -> Seq<SlotResult> {
    schedule_spec(effective_start(start_time, s), total_time, s)
}

/// What the scheduler needs of its inputs, besides an empty sequence
/// which is always accepted: the window must fit the machine word, the
/// fixed starts must be ordered and lie inside the window, and the summed
/// demands must fit the machine word.
pub open spec fn schedule_pre(start_time: TimePoint, total_time: Seconds, s: Seq<SlotDto>) -> bool {
    s.len() == 0 || {
        &&& start_time + total_time <= u64::MAX
        &&& fixed_starts_ordered(s)
        &&& starts_in_window(start_time, (start_time + total_time) as u64, s)
        &&& fixed_demand(s) <= u64::MAX
        &&& elastic_demand(s) <= u64::MAX
    }
}

proof fn lemma_blocks_results_snoc(bs: Seq<BlockModel>, k: int)
    requires
        0 <= k < bs.len(),
    ensures
        blocks_results(bs.take(k + 1)) == blocks_results(bs.take(k)) + block_results(bs[k]),
    decreases k,
{
    if k == 0 {
        assert(bs.take(1).first() == bs[0]);
        assert(bs.take(1).drop_first() =~= Seq::<BlockModel>::empty());
        assert(bs.take(0) =~= Seq::<BlockModel>::empty());
        assert(blocks_results(bs.take(1)) == block_results(bs[0]) + blocks_results(
            Seq::<BlockModel>::empty(),
        ));
        assert(blocks_results(bs.take(1)) =~= blocks_results(bs.take(0)) + block_results(bs[0]));
    } else {
        lemma_blocks_results_snoc(bs.drop_first(), k - 1);
        assert(bs.take(k + 1).first() == bs[0]);
        assert(bs.take(k).first() == bs[0]);
        assert(bs.take(k + 1).drop_first() =~= bs.drop_first().take(k));
        assert(bs.take(k).drop_first() =~= bs.drop_first().take(k - 1));
        assert(bs.drop_first()[k - 1] == bs[k]);
        assert(blocks_results(bs.take(k + 1)) == block_results(bs[0]) + (blocks_results(
            bs.drop_first().take(k - 1),
        ) + block_results(bs[k])));
        assert(blocks_results(bs.take(k)) == block_results(bs[0]) + blocks_results(
            bs.drop_first().take(k - 1),
        ));
        assert(block_results(bs[0]) + (blocks_results(bs.drop_first().take(k - 1)) + block_results(
            bs[k],
        )) =~= (block_results(bs[0]) + blocks_results(bs.drop_first().take(k - 1)))
            + block_results(bs[k]));
    }
}

impl TimeSlotConfig {
    /// Computes the whole schedule for `configs` in the window that opens
    /// exactly at `start_time` and spans `total_time`.
    pub fn calculate_slots(
        start_time: TimePoint,
        total_time: Seconds,
        configs: Vec<SlotDto>,
    ) -> (r: Vec<SlotResult>)
        requires
            schedule_pre(start_time, total_time, configs@),
        ensures
            r@ == schedule_spec(start_time, total_time, configs@),
    {
        if configs.len() == 0 {
            let r: Vec<SlotResult> = Vec::new();
            return r;
        }
        let ghost s = configs@;
        let ghost day_end: u64 = (start_time + total_time) as u64;
        let ghost abs = spec_blocks(start_time, day_end, s);
        proof {
            lemma_spec_blocks_props(start_time, day_end, s);
        }
        let blocks = get_slotblocks(start_time, total_time, configs);
        let mut out: Vec<SlotResult> = Vec::new();
        let mut rest = blocks;
        proof {
            assert(abs_blocks(rest@) == abs);
            assert(rest@.len() == abs.len());
            assert(abs.take(0) =~= Seq::<BlockModel>::empty());
            assert(out@ =~= blocks_results(abs.take(0)));
            assert(abs.skip(0) =~= abs);
        }
        while rest.len() > 0
            invariant
                abs == spec_blocks(start_time, day_end, s),
                rest@.len() <= abs.len(),
                abs_blocks(rest@) == abs.skip(abs.len() - rest@.len()),
                out@ == blocks_results(abs.take(abs.len() - rest@.len())),
                forall|k: int|
                    0 <= k < abs.len() ==> block_wf(#[trigger] abs[k]) && fixed_demand(abs[k].slots)
                        <= u64::MAX && elastic_demand(abs[k].slots) <= u64::MAX,
            decreases rest@.len(),
        {
            let ghost k = abs.len() - rest@.len();
            proof {
                assert(abs_blocks(rest@)[0] == rest@[0]@);
                assert(abs.skip(k)[0] == abs[k]);
                assert(rest@[0]@ == abs[k]);
            }
            let blk = rest.remove(0);
            proof {
                assert(blk@ == abs[k]);
                assert(forall|j: int|
                    0 <= j < rest@.len() ==> #[trigger] abs_blocks(rest@)[j] == rest@[j]@);
                assert(abs_blocks(rest@) =~= abs.skip(k + 1)) by {
                    assert(forall|j: int|
                        0 <= j < rest@.len() ==> rest@[j]@ == abs.skip(k)[j + 1]
                            && abs.skip(k)[j + 1] == abs.skip(k + 1)[j]);
                }
            }
            let mut res = blk.get_slot_result();
            out.append(&mut res);
            proof {
                lemma_blocks_results_snoc(abs, k);
            }
        }
        proof {
            assert(abs.take(abs.len() as int) =~= abs);
        }
        out
    }
}

/// Computes the whole schedule for a day: the window is anchored at the
/// first request's fixed start when it has one, at `start_time`
/// otherwise, and spans `total_time`. Returns one placement per request,
/// in the same order.
pub fn calculate_slots(start_time: TimePoint, total_time: Seconds, configs: Vec<SlotDto>) -> (r:
    Vec<SlotResult>)
    requires
        schedule_pre(effective_start(start_time, configs@), total_time, configs@),
    ensures
        r@ == calculate_slots_spec(start_time, total_time, configs@),
{
    let st = if configs.len() > 0 {
        match configs[0].config.start {
            Some(x) => x,
            None => start_time,
        }
    } else {
        start_time
    };
    TimeSlotConfig::calculate_slots(st, total_time, configs)
}

/// Tests whether the scheduler accepts these inputs: this is exactly the
/// precondition of `calculate_slots`, so a caller holding untrusted data
/// can test first and call only on success.
pub fn schedule_inputs_ok(start_time: TimePoint, total_time: Seconds, configs: &Vec<SlotDto>) -> (b:
    bool)
    ensures
        b == schedule_pre(effective_start(start_time, configs@), total_time, configs@),
{
    if configs.len() == 0 {
        return true;
    }
    let eff = match configs[0].config.start {
        Some(x) => x,
        None => start_time,
    };
    let day_end = match eff.checked_add(total_time) {
        Some(x) => x,
        None => {
            return false;
        },
    };
    if !slots_ordered(configs) {
        return false;
    }
    let ghost s = configs@;
    let mut k: usize = 0;
    while k < configs.len()
        invariant
            s == configs@,
            s.len() > 0,
            k <= s.len(),
            eff == effective_start(start_time, s),
            eff + total_time <= u64::MAX,
            day_end == eff + total_time,
            forall|i: int|
                0 <= i < k && s[i].config.start.is_some() ==> eff <= s[i].config.start.unwrap()
                    <= day_end,
        decreases s.len() - k,
    {
        if let Some(st) = configs[k].config.start {
            if st < eff || st > day_end {
                proof {
                    assert(s[k as int].config.start.is_some() && !(eff
                        <= s[k as int].config.start.unwrap() <= day_end));
                    assert(!starts_in_window(eff, day_end, s));
                }
                return false;
            }
        }
        k += 1;
    }
    let mut acc_fixed: u64 = 0;
    let mut acc_elastic: u64 = 0;
    let mut k2: usize = 0;
    proof {
        assert(s.take(0) =~= Seq::<SlotDto>::empty());
    }
    while k2 < configs.len()
        invariant
            s == configs@,
            s.len() > 0,
            k2 <= s.len(),
            acc_fixed == crate::schedule::fixed_demand(s.take(k2 as int)),
            acc_elastic == crate::schedule::elastic_demand(s.take(k2 as int)),
        decreases s.len() - k2,
    {
        proof {
            crate::schedule::lemma_demand_take_step(s, k2 as int);
        }
        let d = &configs[k2];
        if d.config.fixed_length {
            acc_fixed = match acc_fixed.checked_add(d.config.length) {
                Some(x) => x,
                None => {
                    proof {
                        crate::schedule::lemma_demand_prefix_le(s, k2 as int + 1);
                    }
                    return false;
                },
            };
        } else {
            acc_elastic = match acc_elastic.checked_add(d.config.length) {
                Some(x) => x,
                None => {
                    proof {
                        crate::schedule::lemma_demand_prefix_le(s, k2 as int + 1);
                    }
                    return false;
                },
            };
        }
        k2 += 1;
    }
    proof {
        assert(s.take(s.len() as int) =~= s);
    }
    true
}

/// One placement per request, in the original order, each carrying the
/// request it was computed for. This holds of every schedule the day
/// entry point can return.
pub proof fn lemma_calculate_slots_len_and_order(
    start_time: TimePoint,
    total_time: Seconds,
    s: Seq<SlotDto>,
)
    requires
        schedule_pre(effective_start(start_time, s), total_time, s),
    ensures
        calculate_slots_spec(start_time, total_time, s).len() == s.len(),
        forall|i: int|
            0 <= i < s.len() ==> #[trigger] calculate_slots_spec(start_time, total_time, s)[i].configured
                == s[i],
{
    if s.len() > 0 {
        let eff = effective_start(start_time, s);
        let day_end: u64 = (eff + total_time) as u64;
        lemma_spec_blocks_props(eff, day_end, s);
        lemma_results_match_members(spec_blocks(eff, day_end, s));
    }
}

/// The placements of a block sequence line up one to one with its
/// members.
proof fn lemma_results_match_members(bs: Seq<BlockModel>)
    ensures
        blocks_results(bs).len() == blocks_members(bs).len(),
        forall|i: int|
            0 <= i < blocks_members(bs).len() ==> #[trigger] blocks_results(bs)[i].configured
                == blocks_members(bs)[i],
    decreases bs.len(),
{
    if bs.len() > 0 {
        lemma_results_match_members(bs.drop_first());
        let h = bs.first();
        let hr = block_results(h);
        let hn = h.slots.len() as int;
        assert(hr.len() == hn);
        assert(forall|i: int|
            0 <= i < hn ==> #[trigger] blocks_results(bs)[i] == hr[i]);
        assert(forall|i: int| 0 <= i < hn ==> #[trigger] hr[i].configured == h.slots[i]);
        assert(forall|i: int| 0 <= i < hn ==> #[trigger] blocks_members(bs)[i] == h.slots[i]);
        assert(forall|i: int|
            hn <= i < blocks_members(bs).len() ==> #[trigger] blocks_results(bs)[i]
                == blocks_results(bs.drop_first())[i - hn]);
        assert(forall|i: int|
            hn <= i < blocks_members(bs).len() ==> #[trigger] blocks_members(bs)[i]
                == blocks_members(bs.drop_first())[i - hn]);
    }
}

/// The schedule is a function of the inputs alone: two runs over the same
/// inputs produce identical results.
pub proof fn lemma_calculate_slots_deterministic(
    r1: Seq<SlotResult>,
    r2: Seq<SlotResult>,
    start_time: TimePoint,
    total_time: Seconds,
    s: Seq<SlotDto>,
)
    requires
        r1 == calculate_slots_spec(start_time, total_time, s),
        r2 == calculate_slots_spec(start_time, total_time, s),
    ensures
        r1 == r2,
{
}

proof fn lemma_blocks_fixed_start(
    start: TimePoint,
    day_end: TimePoint,
    s: Seq<SlotDto>,
    i: int,
)
    requires
        s.len() > 0,
        start <= day_end,
        fixed_starts_ordered(s),
        starts_in_window(start, day_end, s),
        0 <= i < s.len(),
        s[i].config.start.is_some(),
        i == 0 ==> s[0].config.start.unwrap() == start,
    ensures
        blocks_results(spec_blocks(start, day_end, s)).len() == s.len(),
        blocks_results(spec_blocks(start, day_end, s))[i].start == s[i].config.start.unwrap(),
    decreases s.len(),
{
    let bs = spec_blocks(start, day_end, s);
    lemma_spec_blocks_props(start, day_end, s);
    lemma_results_match_members(bs);
    let c = crate::partition::first_cut_from(s, 1);
    crate::partition::lemma_first_cut_from_props(s, 1);
    if c >= s.len() {
        let b = BlockModel { start, slots: s, end: day_end };
        assert(i == 0);
        assert(bs.first() == b);
        assert(bs.drop_first() =~= Seq::<BlockModel>::empty());
        assert(blocks_results(bs) == block_results(b) + blocks_results(Seq::<BlockModel>::empty()));
        assert(blocks_results(bs)[0] == block_results(b)[0]);
        lemma_offset_at_zero(b.slots, b.end - b.start);
        assert(block_results(b)[0].start == b.start);
    } else {
        let cut_start = s[c].config.start.unwrap();
        let head = BlockModel { start, slots: s.take(c), end: cut_start };
        let tail_s = s.skip(c);
        let rest = spec_blocks(cut_start, day_end, tail_s);
        assert(bs.first() == head);
        assert(bs.drop_first() =~= rest);
        assert(blocks_results(bs) == block_results(head) + blocks_results(rest));
        assert(block_results(head).len() == c);
        if i < c {
            assert(i == 0);
            assert(blocks_results(bs)[0] == block_results(head)[0]);
            lemma_offset_at_zero(head.slots, head.end - head.start);
            assert(block_results(head)[0].start == head.start);
        } else {
            assert(forall|j: int| 0 <= j < tail_s.len() ==> tail_s[j] == s[c + j]);
            assert(fixed_starts_ordered(tail_s));
            assert(starts_in_window(cut_start, day_end, tail_s)) by {
                assert(forall|j: int|
                    0 <= j < tail_s.len() && tail_s[j].config.start.is_some() ==> cut_start
                        <= tail_s[j].config.start.unwrap() <= day_end);
            }
            assert(tail_s[0] == s[c]);
            lemma_blocks_fixed_start(cut_start, day_end, tail_s, i - c);
            assert(blocks_results(bs)[i] == blocks_results(rest)[i - c]);
        }
    }
}

/// Every request that carries a fixed start is placed exactly at that
/// start by the day entry point: the first request anchors the day, and
/// every later one opens its own block there.
pub proof fn lemma_fixed_starts_honored(
    start_time: TimePoint,
    total_time: Seconds,
    s: Seq<SlotDto>,
    i: int,
)
    requires
        schedule_pre(effective_start(start_time, s), total_time, s),
        0 <= i < s.len(),
        s[i].config.start.is_some(),
    ensures
        calculate_slots_spec(start_time, total_time, s)[i].start == s[i].config.start.unwrap(),
{
    let eff = effective_start(start_time, s);
    let day_end: u64 = (eff + total_time) as u64;
    lemma_blocks_fixed_start(eff, day_end, s, i);
}

} // verus!
