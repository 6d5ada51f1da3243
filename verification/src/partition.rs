//! Splitting a day's ordered slot requests into contiguous blocks.
//!
//! Walking the requests in order, every request after the first that
//! carries a fixed start closes the block gathered so far: the block ends
//! exactly at that fixed start and the triggering request opens the next
//! block. The last block ends where the day's window ends. The blocks
//! cover the window with no gaps and no overlaps, and their members are
//! the input requests in their original order.
use vstd::prelude::*;

use crate::schedule::BlockModel;
use crate::schedule::SlotBlock;
use crate::schedule::block_wf;
use crate::schedule::elastic_demand;
use crate::schedule::fixed_demand;
use crate::schedule::lemma_demand_concat;
use crate::schedule::lemma_demand_nonneg;
use crate::schedule::lemma_demand_prefix_le;
use crate::slot::SlotDto;
use crate::slot::TimePoint;
use crate::slot_list::fixed_starts_ordered;

verus! {

/// Every fixed start in the sequence lies inside the day's window.
pub open spec fn starts_in_window(start: TimePoint, day_end: TimePoint, s: Seq<SlotDto>) -> bool {
    forall|i: int|
        0 <= i < s.len() && s[i].config.start.is_some() ==> start <= s[i].config.start.unwrap()
            <= day_end
}

/// The first position at or after `i` whose slot carries a fixed start;
/// the sequence length when there is none.
pub open spec fn first_cut_from(s: Seq<SlotDto>, i: int) -> int
    decreases s.len() - i,
{
    if i >= s.len() {
        s.len() as int
    } else if s[i].config.start.is_some() {
        i
    } else {
        first_cut_from(s, i + 1)
    }
}

pub proof fn lemma_first_cut_from_props(s: Seq<SlotDto>, i: int)
    requires
        0 <= i <= s.len(),
    ensures
        i <= first_cut_from(s, i) <= s.len(),
        first_cut_from(s, i) < s.len() ==> s[first_cut_from(s, i)].config.start.is_some(),
        forall|j: int| i <= j < first_cut_from(s, i) ==> s[j].config.start.is_none(),
    decreases s.len() - i,
{
    if i < s.len() && s[i].config.start.is_none() {
        lemma_first_cut_from_props(s, i + 1);
    }
}

/// The first cut is wherever the interior holds no fixed start and either
/// the sequence ends or a fixed start follows.
proof fn lemma_first_cut_from_char(s: Seq<SlotDto>, i: int, c: int)
    requires
        0 <= i <= c <= s.len(),
        forall|j: int| i <= j < c ==> s[j].config.start.is_none(),
        c < s.len() ==> s[c].config.start.is_some(),
    ensures
        first_cut_from(s, i) == c,
    decreases c - i,
{
    if i < c {
        lemma_first_cut_from_char(s, i + 1, c);
    }
}

/// The blocks of the window `[start, day_end]` for the requests `s`, in
/// order. Each fixed start after the first request closes a block there;
/// the final block ends at `day_end`.
pub open spec fn spec_blocks(start: TimePoint, day_end: TimePoint, s: Seq<SlotDto>) -> Seq<
    BlockModel,
>
    decreases s.len(),
{
    if s.len() == 0 {
        Seq::empty()
    } else {
        let c = first_cut_from(s, 1);
        if c >= s.len() {
            seq![BlockModel { start, slots: s, end: day_end }]
        } else if 1 <= c < s.len() {
            let cut_start = s[c].config.start.unwrap();
            seq![BlockModel { start, slots: s.take(c), end: cut_start }] + spec_blocks(
                cut_start,
                day_end,
                s.skip(c),
            )
        } else {
            Seq::empty()
        }
    }
}

/// The members of a sequence of blocks, concatenated in order.
pub open spec fn blocks_members(bs: Seq<BlockModel>) -> Seq<SlotDto>
    decreases bs.len(),
{
    if bs.len() == 0 {
        Seq::empty()
    } else {
        bs.first().slots + blocks_members(bs.drop_first())
    }
}

/// What the partition guarantees: at least one block; the members are the
/// input in order; the first block starts the window and the last ends
/// it; consecutive blocks meet exactly; every block is well-formed and
/// demands no more than the whole input; only a block's first member can
/// carry a fixed start, and for every block after the first it does, at
/// exactly the block's start boundary.
pub proof fn lemma_spec_blocks_props(start: TimePoint, day_end: TimePoint, s: Seq<SlotDto>)
    requires
        s.len() > 0,
        start <= day_end,
        fixed_starts_ordered(s),
        starts_in_window(start, day_end, s),
    ensures
        spec_blocks(start, day_end, s).len() > 0,
        blocks_members(spec_blocks(start, day_end, s)) == s,
        spec_blocks(start, day_end, s)[0].start == start,
        spec_blocks(start, day_end, s)[0].slots[0] == s[0],
        spec_blocks(start, day_end, s).last().end == day_end,
        forall|k: int|
            0 < k < spec_blocks(start, day_end, s).len() ==> spec_blocks(start, day_end, s)[k].start
                == spec_blocks(start, day_end, s)[k - 1].end,
        forall|k: int|
            0 <= k < spec_blocks(start, day_end, s).len() ==> block_wf(
                #[trigger] spec_blocks(start, day_end, s)[k],
            ),
        forall|k: int|
            0 <= k < spec_blocks(start, day_end, s).len() ==> fixed_demand(
                #[trigger] spec_blocks(start, day_end, s)[k].slots,
            ) <= fixed_demand(s) && elastic_demand(spec_blocks(start, day_end, s)[k].slots)
                <= elastic_demand(s),
        forall|k: int, j: int|
            0 <= k < spec_blocks(start, day_end, s).len() && 0 < j < spec_blocks(
                start,
                day_end,
                s,
            )[k].slots.len() ==> (#[trigger] spec_blocks(start, day_end, s)[k].slots[j]).config.start.is_none(),
        forall|k: int|
            0 < k < spec_blocks(start, day_end, s).len() ==> (#[trigger] spec_blocks(
                start,
                day_end,
                s,
            )[k]).slots[0].config.start == Some(spec_blocks(start, day_end, s)[k].start),
    decreases s.len(),
{
    lemma_first_cut_from_props(s, 1);
    let c = first_cut_from(s, 1);
    let bs = spec_blocks(start, day_end, s);
    if c >= s.len() {
        assert(bs == seq![BlockModel { start, slots: s, end: day_end }]);
        assert(bs.len() == 1);
        assert(bs.first() == BlockModel { start, slots: s, end: day_end });
        assert(bs.drop_first() =~= Seq::<BlockModel>::empty());
        assert(blocks_members(bs.drop_first()) == Seq::<SlotDto>::empty());
        assert(blocks_members(bs) == bs.first().slots + blocks_members(bs.drop_first()));
        assert(blocks_members(bs) =~= s);
        lemma_demand_nonneg(s);
    } else {
        let cut_start = s[c].config.start.unwrap();
        let head = BlockModel { start, slots: s.take(c), end: cut_start };
        let tail_s = s.skip(c);
        let rest = spec_blocks(cut_start, day_end, tail_s);
        assert(bs == seq![head] + rest);
        assert(forall|j: int| 0 <= j < tail_s.len() ==> tail_s[j] == s[c + j]);
        assert(fixed_starts_ordered(tail_s));
        assert(starts_in_window(cut_start, day_end, tail_s)) by {
            assert(forall|j: int|
                0 <= j < tail_s.len() && tail_s[j].config.start.is_some()
                    ==> cut_start <= tail_s[j].config.start.unwrap() <= day_end);
        }
        assert(cut_start <= day_end);
        lemma_spec_blocks_props(cut_start, day_end, tail_s);
        assert(rest.len() > 0);
        assert(bs.len() == 1 + rest.len());
        assert(forall|k: int| 0 <= k < rest.len() ==> bs[k + 1] == rest[k]);
        assert(blocks_members(bs) =~= s) by {
            assert(bs.first() == head);
            assert(bs.drop_first() =~= rest);
            assert(blocks_members(bs) == head.slots + blocks_members(rest));
            assert(blocks_members(rest) == tail_s);
            assert(s.take(c) + s.skip(c) =~= s);
        }
        assert(bs[0].slots[0] == s[0]);
        assert(bs.last() == rest.last());
        assert(bs.last().end == day_end);
        // boundaries chain across the seam and inside the tail
        assert(rest[0].start == cut_start);
        assert(forall|k: int| 0 < k < bs.len() ==> bs[k].start == bs[k - 1].end) by {
            assert(bs[1].start == cut_start == bs[0].end);
            assert(forall|k: int| 1 < k < bs.len() ==> bs[k].start == bs[k - 1].end);
        }
        // well-formedness
        assert(block_wf(head)) by {
            assert(start <= cut_start);
            assert(s.take(c).len() == c >= 1);
        }
        // demand bounds: head is a prefix, tail blocks are bounded by the tail
        lemma_demand_prefix_le(s, c);
        assert(s.take(c) + s.skip(c) =~= s);
        lemma_demand_concat(s.take(c), s.skip(c));
        lemma_demand_nonneg(s.take(c));
        assert(forall|k: int|
            0 <= k < bs.len() ==> fixed_demand(#[trigger] bs[k].slots) <= fixed_demand(s)
                && elastic_demand(bs[k].slots) <= elastic_demand(s));
        // interior members carry no fixed start
        assert(forall|k: int, j: int|
            0 <= k < bs.len() && 0 < j < bs[k].slots.len() ==> (#[trigger] bs[k].slots[j]).config.start.is_none())
            by {
            assert(forall|j: int| 0 < j < c ==> head.slots[j].config.start.is_none());
        }
        // each later block opens at its own first member's fixed start
        assert(forall|k: int|
            0 < k < bs.len() ==> (#[trigger] bs[k]).slots[0].config.start == Some(bs[k].start))
            by {
            assert(rest[0].slots[0] == tail_s[0]);
            assert(tail_s[0] == s[c]);
            assert(bs[1].slots[0].config.start == Some(cut_start));
        }
    }
}

/// The mathematical view of a vector of blocks.
pub open spec fn abs_blocks(bs: Seq<SlotBlock>) -> Seq<BlockModel> {
    bs.map_values(|b: SlotBlock| b@)
}

/// Splits the requests into anchored blocks, walking them in order and
/// closing the gathered run at every fixed start after the first request.
pub fn get_slotblocks(start_time: TimePoint, total_time: u64, configs: Vec<SlotDto>) -> (r: Vec<
    SlotBlock,
>)
    requires
        configs@.len() > 0,
        start_time + total_time <= u64::MAX,
        fixed_starts_ordered(configs@),
        starts_in_window(start_time, (start_time + total_time) as u64, configs@),
    ensures
        abs_blocks(r@) == spec_blocks(start_time, (start_time + total_time) as u64, configs@),
        r@.len() > 0,
{
    let day_end = start_time + total_time;
    let ghost orig = configs@;
    let n = configs.len();
    let mut rest = configs;
    let mut buf: Vec<SlotDto> = Vec::new();
    let first = rest.remove(0);
    buf.push(first);
    let mut out: Vec<SlotBlock> = Vec::new();
    let mut cur_start = start_time;
    let ghost mut seg: int = 0;
    proof {
        assert(rest@ =~= orig.skip(1));
        assert(buf@ =~= orig.subrange(0, 1));
        assert(orig.skip(0) =~= orig);
        assert(abs_blocks(out@) =~= Seq::<BlockModel>::empty());
        assert(Seq::<BlockModel>::empty() + spec_blocks(start_time, day_end, orig) =~= spec_blocks(
            start_time,
            day_end,
            orig,
        ));
    }
    while rest.len() > 0
        invariant
            orig.len() == n,
            1 <= orig.len() - rest@.len() <= orig.len(),
            rest@ == orig.skip(orig.len() - rest@.len()),
            0 <= seg <= orig.len() - rest@.len() - 1,
            buf@ == orig.subrange(seg, orig.len() - rest@.len()),
            forall|j: int|
                seg < j < orig.len() - rest@.len() ==> orig[j].config.start.is_none(),
            day_end == start_time + total_time,
            fixed_starts_ordered(orig),
            starts_in_window(start_time, day_end, orig),
            cur_start <= day_end,
            forall|j: int|
                orig.len() - rest@.len() <= j < orig.len() && orig[j].config.start.is_some()
                    ==> cur_start <= orig[j].config.start.unwrap(),
            spec_blocks(start_time, day_end, orig) == abs_blocks(out@) + spec_blocks(
                cur_start,
                day_end,
                orig.skip(seg),
            ),
        decreases rest@.len(),
    {
        let ghost done = orig.len() - rest@.len();
        proof {
            assert(rest@[0] == orig[done]);
            assert(rest@.drop_first() =~= orig.skip(done + 1));
        }
        let d = rest.remove(0);
        if let Some(st) = d.config.start {
            let members = buf;
            buf = Vec::new();
            proof {
                let sub = orig.skip(seg);
                assert(forall|j: int| 0 <= j < sub.len() ==> sub[j] == orig[seg + j]);
                lemma_first_cut_from_char(sub, 1, done - seg);
                assert(first_cut_from(sub, 1) == done - seg);
                assert(sub[done - seg].config.start == Some(st));
                assert(sub.take(done - seg) =~= orig.subrange(seg, done));
                assert(sub.skip(done - seg) =~= orig.skip(done));
                assert(spec_blocks(cur_start, day_end, sub) == seq![
                    BlockModel { start: cur_start, slots: members@, end: st },
                ] + spec_blocks(st, day_end, orig.skip(done)));
            }
            let blk = SlotBlock::new(cur_start, members, st);
            proof {
                assert(abs_blocks(out@.push(blk)) =~= abs_blocks(out@) + seq![blk@]);
                assert((abs_blocks(out@) + seq![blk@]) + spec_blocks(st, day_end, orig.skip(done))
                    =~= abs_blocks(out@) + (seq![blk@] + spec_blocks(st, day_end, orig.skip(done))));
                seg = done;
            }
            out.push(blk);
            cur_start = st;
        }
        buf.push(d);
        proof {
            assert(buf@ =~= orig.subrange(seg, done + 1));
        }
    }
    let ghost done: int = orig.len() as int;
    proof {
        let sub = orig.skip(seg);
        assert(forall|j: int| 0 <= j < sub.len() ==> sub[j] == orig[seg + j]);
        lemma_first_cut_from_char(sub, 1, sub.len() as int);
        assert(sub =~= orig.subrange(seg, done));
        assert(spec_blocks(cur_start, day_end, sub) == seq![
            BlockModel { start: cur_start, slots: buf@, end: day_end },
        ]);
    }
    let blk = SlotBlock::new(cur_start, buf, day_end);
    proof {
        assert(abs_blocks(out@.push(blk)) =~= abs_blocks(out@) + seq![blk@]);
        assert(abs_blocks(out@) + seq![blk@] =~= spec_blocks(start_time, day_end, orig));
    }
    out.push(blk);
    out
}

} // verus!
