//! The validated ordered collection of slot requests.
//!
//! A day's slot requests are kept in order, and the fixed start times that
//! are present must be non-decreasing along the list. Every mutation
//! builds a full candidate copy, validates the whole sequence, and commits
//! only when the invariant still holds; an invalid edit leaves the list
//! unchanged. Callers therefore never observe an invalid state and never
//! have to handle an error.
use vstd::prelude::*;

use crate::slot::SlotDto;
use crate::slot::TimePoint;
use crate::slot::TimeSlotConfig;

verus! {

/// The ordering invariant: reading the list in order, the fixed start
/// times that are present never decrease.
pub open spec fn fixed_starts_ordered(s: Seq<SlotDto>) -> bool {
    forall|i: int, j: int|
        0 <= i < j < s.len() && s[i].config.start.is_some() && s[j].config.start.is_some()
            ==> s[i].config.start.unwrap() <= s[j].config.start.unwrap()
}

/// The last fixed start present in the sequence, if any.
pub open spec fn last_fixed_start(s: Seq<SlotDto>) -> Option<TimePoint>
    decreases s.len(),
{
    if s.len() == 0 {
        None
    } else if s.last().config.start.is_some() {
        s.last().config.start
    } else {
        last_fixed_start(s.drop_last())
    }
}

proof fn lemma_last_fixed_start_none(s: Seq<SlotDto>)
    requires
        last_fixed_start(s).is_none(),
    ensures
        forall|i: int| 0 <= i < s.len() ==> s[i].config.start.is_none(),
    decreases s.len(),
{
    if s.len() > 0 {
        lemma_last_fixed_start_none(s.drop_last());
        assert(forall|i: int| 0 <= i < s.len() - 1 ==> s[i] == s.drop_last()[i]);
        assert(s[s.len() - 1] == s.last());
    }
}

proof fn lemma_last_fixed_start_some(s: Seq<SlotDto>)
    requires
        last_fixed_start(s).is_some(),
    ensures
        exists|k: int|
            0 <= k < s.len() && s[k].config.start == last_fixed_start(s) && (forall|j: int|
                k < j < s.len() ==> s[j].config.start.is_none()),
    decreases s.len(),
{
    if s.last().config.start.is_some() {
        assert(s[s.len() - 1].config.start == last_fixed_start(s));
    } else {
        lemma_last_fixed_start_some(s.drop_last());
        let k = choose|k: int|
            0 <= k < s.len() - 1 && s.drop_last()[k].config.start == last_fixed_start(
                s.drop_last(),
            ) && (forall|j: int| k < j < s.len() - 1 ==> s.drop_last()[j].config.start.is_none());
        assert(forall|i: int| 0 <= i < s.len() - 1 ==> s[i] == s.drop_last()[i]);
        assert(s[s.len() - 1] == s.last());
        assert(s[k].config.start == last_fixed_start(s));
        assert(forall|j: int| k < j < s.len() ==> s[j].config.start.is_none());
    }
}

/// In an ordered sequence, every fixed start is bounded by the last one.
proof fn lemma_last_fixed_start_bound(s: Seq<SlotDto>)
    requires
        fixed_starts_ordered(s),
        last_fixed_start(s).is_some(),
    ensures
        forall|i: int|
            0 <= i < s.len() && s[i].config.start.is_some() ==> s[i].config.start.unwrap()
                <= last_fixed_start(s).unwrap(),
{
    lemma_last_fixed_start_some(s);
}

/// Appending one element keeps the sequence ordered exactly when the
/// element either has no fixed start or its fixed start is at least the
/// last one already present.
proof fn lemma_ordered_push(s: Seq<SlotDto>, d: SlotDto)
    requires
        fixed_starts_ordered(s),
    ensures
        fixed_starts_ordered(s.push(d)) <==> (d.config.start.is_none() || last_fixed_start(
            s,
        ).is_none() || last_fixed_start(s).unwrap() <= d.config.start.unwrap()),
        last_fixed_start(s.push(d)) == (if d.config.start.is_some() {
            d.config.start
        } else {
            last_fixed_start(s)
        }),
{
    let t = s.push(d);
    assert(t.drop_last() =~= s);
    assert(forall|i: int| 0 <= i < s.len() ==> t[i] == s[i]);
    if d.config.start.is_some() {
        if last_fixed_start(s).is_some() {
            lemma_last_fixed_start_bound(s);
            if last_fixed_start(s).unwrap() <= d.config.start.unwrap() {
                assert(fixed_starts_ordered(t)) by {
                    assert(forall|i: int, j: int|
                        0 <= i < j < t.len() && t[i].config.start.is_some()
                            && t[j].config.start.is_some() ==> t[i].config.start.unwrap()
                            <= t[j].config.start.unwrap());
                }
            } else {
                let k = choose|k: int|
                    0 <= k < s.len() && s[k].config.start == last_fixed_start(s) && (forall|j: int|
                        k < j < s.len() ==> s[j].config.start.is_none());
                lemma_last_fixed_start_some(s);
                assert(!fixed_starts_ordered(t)) by {
                    let k2 = choose|k: int|
                        0 <= k < s.len() && s[k].config.start == last_fixed_start(s) && (forall|
                            j: int,
                        | k < j < s.len() ==> s[j].config.start.is_none());
                    assert(t[k2].config.start.unwrap() > t[s.len() as int].config.start.unwrap());
                }
            }
        } else {
            lemma_last_fixed_start_none(s);
            assert(fixed_starts_ordered(t));
        }
    } else {
        assert(fixed_starts_ordered(t));
    }
}

/// Checks the ordering invariant over a whole vector.
pub fn slots_ordered(v: &Vec<SlotDto>) -> (b: bool)
    ensures
        b == fixed_starts_ordered(v@),
{
    let ghost orig = v@;
    let mut last: Option<TimePoint> = None;
    let mut k: usize = 0;
    while k < v.len()
        invariant
            v@ == orig,
            k <= orig.len(),
            fixed_starts_ordered(orig.subrange(0, k as int)),
            last == last_fixed_start(orig.subrange(0, k as int)),
        decreases orig.len() - k,
    {
        let ghost prefix = orig.subrange(0, k as int);
        proof {
            assert(orig.subrange(0, k as int + 1) =~= prefix.push(orig[k as int]));
            lemma_ordered_push(prefix, orig[k as int]);
        }
        if let Some(start) = v[k].config.start {
            match last {
                Some(prev) => {
                    if start < prev {
                        proof {
                            lemma_last_fixed_start_some(prefix);
                            let i = choose|i: int|
                                0 <= i < prefix.len() && prefix[i].config.start == last_fixed_start(
                                    prefix,
                                ) && (forall|j: int|
                                    i < j < prefix.len() ==> prefix[j].config.start.is_none());
                            assert(orig[i].config.start.unwrap() > orig[k as int].config.start.unwrap());
                            assert(!fixed_starts_ordered(orig));
                        }
                        return false;
                    }
                    last = Some(start);
                },
                None => {
                    last = Some(start);
                },
            }
        }
        k += 1;
    }
    proof {
        assert(orig.subrange(0, orig.len() as int) =~= orig);
    }
    true
}

/// The same slot with its fixed start cleared.
pub open spec fn stripped(d: SlotDto) -> SlotDto {
    SlotDto {
        name: d.name,
        act: d.act,
        config: TimeSlotConfig {
            start: None,
            length: d.config.length,
            fixed_length: d.config.fixed_length,
        },
    }
}

/// One normalization pass, carrying the highest fixed start kept so far:
/// a fixed start earlier than that is cleared, every other field is kept.
pub open spec fn repair_from(s: Seq<SlotDto>, last: Option<TimePoint>) -> Seq<SlotDto>
    decreases s.len(),
{
    if s.len() == 0 {
        Seq::empty()
    } else {
        let d = s[0];
        if d.config.start.is_some() && (last.is_none() || last.unwrap()
            <= d.config.start.unwrap()) {
            seq![d] + repair_from(s.drop_first(), d.config.start)
        } else if d.config.start.is_some() {
            seq![stripped(d)] + repair_from(s.drop_first(), last)
        } else {
            seq![d] + repair_from(s.drop_first(), last)
        }
    }
}

/// What the load-time normalization produces: fixed starts that would
/// break the non-decreasing order are cleared, nothing else changes.
pub open spec fn repair(s: Seq<SlotDto>) -> Seq<SlotDto> {
    repair_from(s, None)
}

/// The normalization pass always yields an ordered sequence of the same
/// length, and every fixed start it keeps is at least the carried bound.
proof fn lemma_repair_from_ordered(s: Seq<SlotDto>, last: Option<TimePoint>)
    ensures
        repair_from(s, last).len() == s.len(),
        fixed_starts_ordered(repair_from(s, last)),
        last.is_some() ==> forall|i: int|
            0 <= i < s.len() && repair_from(s, last)[i].config.start.is_some()
                ==> last.unwrap() <= repair_from(s, last)[i].config.start.unwrap(),
    decreases s.len(),
{
    if s.len() > 0 {
        let d = s[0];
        let r = repair_from(s, last);
        if d.config.start.is_some() && (last.is_none() || last.unwrap()
            <= d.config.start.unwrap()) {
            lemma_repair_from_ordered(s.drop_first(), d.config.start);
            let rest = repair_from(s.drop_first(), d.config.start);
            assert(forall|i: int| 0 <= i < rest.len() ==> r[i + 1] == rest[i]);
            assert(fixed_starts_ordered(r)) by {
                assert(forall|i: int, j: int|
                    0 <= i < j < r.len() && r[i].config.start.is_some()
                        && r[j].config.start.is_some() ==> r[i].config.start.unwrap()
                        <= r[j].config.start.unwrap());
            }
        } else if d.config.start.is_some() {
            lemma_repair_from_ordered(s.drop_first(), last);
            let rest = repair_from(s.drop_first(), last);
            assert(forall|i: int| 0 <= i < rest.len() ==> r[i + 1] == rest[i]);
            assert(r[0] == stripped(d));
        } else {
            lemma_repair_from_ordered(s.drop_first(), last);
            let rest = repair_from(s.drop_first(), last);
            assert(forall|i: int| 0 <= i < rest.len() ==> r[i + 1] == rest[i]);
        }
    }
}

/// Normalizing never breaks order.
pub proof fn lemma_repair_ordered(s: Seq<SlotDto>)
    ensures
        repair(s).len() == s.len(),
        fixed_starts_ordered(repair(s)),
{
    lemma_repair_from_ordered(s, None);
}

/// The ordered list of a day's slot requests. The invariant that fixed
/// start times never decrease is re-established by `make_valid` at load
/// time and preserved by every mutator.
pub struct SlotDtos(Vec<SlotDto>);

impl View for SlotDtos {
    type V = Seq<SlotDto>;

    closed spec fn view(&self) -> Seq<SlotDto> {
        self.0@
    }
}

impl Clone for SlotDtos {
    fn clone(&self) -> (r: Self)
        ensures
            r@ == self@,
    {
        SlotDtos(clone_slots(&self.0))
    }
}

impl Default for SlotDtos {
    /// An empty list.
    fn default() -> (r: Self)
        ensures
            r@ == Seq::<SlotDto>::empty(),
    {
        SlotDtos(Vec::new())
    }
}

/// Copies a vector of slot requests element by element.
fn clone_slots(v: &Vec<SlotDto>) -> (r: Vec<SlotDto>)
    ensures
        r@ == v@,
{
    let mut r: Vec<SlotDto> = Vec::new();
    let mut k: usize = 0;
    while k < v.len()
        invariant
            k <= v@.len(),
            r@ == v@.subrange(0, k as int),
        decreases v@.len() - k,
    {
        r.push(v[k].clone());
        proof {
            assert(r@ =~= v@.subrange(0, k as int + 1));
        }
        k += 1;
    }
    proof {
        assert(v@.subrange(0, v@.len() as int) =~= v@);
    }
    r
}

/// What `insert` commits when the candidate stays ordered: the slot goes
/// in at the index, clamped to the current length.
pub open spec fn insert_outcome(s: Seq<SlotDto>, idx: int, d: SlotDto) -> Seq<SlotDto> {
    let p = if idx >= s.len() {
        s.len() as int
    } else {
        idx
    };
    let cand = s.insert(p, d);
    if fixed_starts_ordered(cand) {
        cand
    } else {
        s
    }
}

/// What `remove` commits: out-of-range indices are a no-op.
pub open spec fn remove_outcome(s: Seq<SlotDto>, idx: int) -> Seq<SlotDto> {
    if idx < 0 || idx >= s.len() {
        s
    } else {
        let cand = s.remove(idx);
        if fixed_starts_ordered(cand) {
            cand
        } else {
            s
        }
    }
}

/// What `set_start` commits: the one slot's fixed start is set, if the
/// index is in range and the result stays ordered.
pub open spec fn set_start_outcome(s: Seq<SlotDto>, idx: int, start: TimePoint) -> Seq<SlotDto> {
    if idx < 0 || idx >= s.len() {
        s
    } else {
        let d = s[idx];
        let cand = s.update(
            idx,
            SlotDto {
                name: d.name,
                act: d.act,
                config: TimeSlotConfig {
                    start: Some(start),
                    length: d.config.length,
                    fixed_length: d.config.fixed_length,
                },
            },
        );
        if fixed_starts_ordered(cand) {
            cand
        } else {
            s
        }
    }
}

/// What `unset_start` commits: the one slot's fixed start is cleared, if
/// the index is in range; clearing can never break the order.
pub open spec fn unset_start_outcome(s: Seq<SlotDto>, idx: int) -> Seq<SlotDto> {
    if idx < 0 || idx >= s.len() {
        s
    } else {
        let cand = s.update(idx, stripped(s[idx]));
        if fixed_starts_ordered(cand) {
            cand
        } else {
            s
        }
    }
}

/// What `swap` commits: the two slots change places, if both indices are
/// in range and the result stays ordered.
pub open spec fn swap_outcome(s: Seq<SlotDto>, i: int, j: int) -> Seq<SlotDto> {
    if i < 0 || i >= s.len() || j < 0 || j >= s.len() {
        s
    } else {
        let cand = s.update(i, s[j]).update(j, s[i]);
        if fixed_starts_ordered(cand) {
            cand
        } else {
            s
        }
    }
}

/// What `over_ride` commits: the one slot is replaced wholesale, if the
/// index is in range and the result stays ordered.
pub open spec fn replace_outcome(s: Seq<SlotDto>, idx: int, d: SlotDto) -> Seq<SlotDto> {
    if idx < 0 || idx >= s.len() {
        s
    } else {
        let cand = s.update(idx, d);
        if fixed_starts_ordered(cand) {
            cand
        } else {
            s
        }
    }
}

impl SlotDtos {
    /// An empty list.
    pub fn new() -> (r: Self)
        ensures
            r@ == Seq::<SlotDto>::empty(),
    {
        SlotDtos(Vec::new())
    }

    /// Wraps a plain vector, as loaded from storage. The ordering
    /// invariant is not assumed; run `make_valid` to establish it.
    pub fn from_vec(v: Vec<SlotDto>) -> (r: Self)
        ensures
            r@ == v@,
    {
        SlotDtos(v)
    }

    /// Read access to the slots in order.
    pub fn slots(&self) -> (r: &Vec<SlotDto>)
        ensures
            r@ == self@,
    {
        &self.0
    }

    pub fn len(&self) -> (n: usize)
        ensures
            n == self@.len(),
    {
        self.0.len()
    }

    pub fn is_empty(&self) -> (b: bool)
        ensures
            b == (self@.len() == 0),
    {
        self.0.is_empty()
    }

    /// Inserts at `index`, clamped to the current length; the edit is
    /// discarded when it would break the fixed-start order.
    pub fn insert(&mut self, index: usize, slot: SlotDto)
        ensures
            final(self)@ == insert_outcome(old(self)@, index as int, slot),
            fixed_starts_ordered(old(self)@) ==> fixed_starts_ordered(final(self)@),
    {
        let pos = if index >= self.0.len() {
            self.0.len()
        } else {
            index
        };
        let mut cand = clone_slots(&self.0);
        cand.insert(pos, slot);
        if slots_ordered(&cand) {
            self.0 = cand;
        }
    }

    /// Removes at `idx`; out-of-range indices are a no-op. Removal never
    /// breaks the order, so in-range removal always takes effect.
    pub fn remove(&mut self, idx: usize)
        ensures
            final(self)@ == remove_outcome(old(self)@, idx as int),
            fixed_starts_ordered(old(self)@) ==> fixed_starts_ordered(final(self)@),
    {
        if idx >= self.0.len() {
            return ;
        }
        let mut cand = clone_slots(&self.0);
        cand.remove(idx);
        if slots_ordered(&cand) {
            self.0 = cand;
        }
    }

    /// Clears the fixed start of the slot at `idx`, when in range.
    pub fn unset_start(&mut self, idx: usize)
        ensures
            final(self)@ == unset_start_outcome(old(self)@, idx as int),
            fixed_starts_ordered(old(self)@) ==> fixed_starts_ordered(final(self)@),
    {
        if idx >= self.0.len() {
            return ;
        }
        let mut cand = clone_slots(&self.0);
        let d = cand[idx].clone();
        cand.set(
            idx,
            SlotDto {
                name: d.name,
                act: d.act,
                config: TimeSlotConfig {
                    start: None,
                    length: d.config.length,
                    fixed_length: d.config.fixed_length,
                },
            },
        );
        if slots_ordered(&cand) {
            self.0 = cand;
        }
    }

    /// Gives the slot at `idx` the fixed start `start`; discarded when the
    /// result would be out of order or the index is out of range.
    pub fn set_start(&mut self, idx: usize, start: TimePoint)
        ensures
            final(self)@ == set_start_outcome(old(self)@, idx as int, start),
            fixed_starts_ordered(old(self)@) ==> fixed_starts_ordered(final(self)@),
    {
        if idx >= self.0.len() {
            return ;
        }
        let mut cand = clone_slots(&self.0);
        let d = cand[idx].clone();
        cand.set(
            idx,
            SlotDto {
                name: d.name,
                act: d.act,
                config: TimeSlotConfig {
                    start: Some(start),
                    length: d.config.length,
                    fixed_length: d.config.fixed_length,
                },
            },
        );
        if slots_ordered(&cand) {
            self.0 = cand;
        }
    }

    /// Exchanges the slots at `i` and `j`; discarded when the result would
    /// be out of order or either index is out of range.
    pub fn swap(&mut self, i: usize, j: usize)
        ensures
            final(self)@ == swap_outcome(old(self)@, i as int, j as int),
            fixed_starts_ordered(old(self)@) ==> fixed_starts_ordered(final(self)@),
    {
        if i >= self.0.len() || j >= self.0.len() {
            return ;
        }
        let mut cand = clone_slots(&self.0);
        let a = cand[i].clone();
        let b = cand[j].clone();
        cand.set(i, b);
        cand.set(j, a);
        if slots_ordered(&cand) {
            self.0 = cand;
        }
    }

    /// Replaces the slot at `index` wholesale; discarded when the result
    /// would be out of order or the index is out of range.
    pub fn over_ride(&mut self, index: usize, slot: SlotDto)
        ensures
            final(self)@ == replace_outcome(old(self)@, index as int, slot),
            fixed_starts_ordered(old(self)@) ==> fixed_starts_ordered(final(self)@),
    {
        if index >= self.0.len() {
            return ;
        }
        let mut cand = clone_slots(&self.0);
        cand.set(index, slot);
        if slots_ordered(&cand) {
            self.0 = cand;
        }
    }

    /// Whether the slot at `idx` may be swapped one place up: there must
    /// be a slot above it, and the very first slot must not be pulled off
    /// its place as the day's anchor when it carries a fixed start.
    pub fn can_upswap(&self, idx: usize) -> (b: bool)
        ensures
            b == (0 < idx < self@.len() && !(idx == 1 && self@[0].config.start.is_some())),
    {
        idx > 0 && idx < self.0.len() && !(idx == 1 && self.0[0].config.start.is_some())
    }

    /// One-shot normalization, run at load time: clears every fixed start
    /// that would violate the non-decreasing order relative to the highest
    /// fixed start kept so far. Afterwards the invariant holds.
    pub fn make_valid(&mut self)
        ensures
            final(self)@ == repair(old(self)@),
            fixed_starts_ordered(final(self)@),
    {
        let ghost orig = self@;
        let mut out: Vec<SlotDto> = Vec::new();
        let mut last: Option<TimePoint> = None;
        let mut k: usize = 0;
        proof {
            assert(orig.skip(0) =~= orig);
            assert(Seq::<SlotDto>::empty() + repair_from(orig, None) =~= repair_from(orig, None));
        }
        while k < self.0.len()
            invariant
                self@ == orig,
                k <= orig.len(),
                out@.len() == k,
                repair(orig) == out@ + repair_from(orig.skip(k as int), last),
            decreases orig.len() - k,
        {
            let ghost todo = orig.skip(k as int);
            proof {
                assert(todo[0] == orig[k as int]);
                assert(todo.drop_first() =~= orig.skip(k as int + 1));
            }
            let d = self.0[k].clone();
            let keep: bool = match (d.config.start, last) {
                (Some(s), Some(prev)) => prev <= s,
                (Some(_), None) => true,
                (None, _) => false,
            };
            if keep {
                last = d.config.start;
                out.push(d);
            } else if d.config.start.is_some() {
                out.push(
                    SlotDto {
                        name: d.name,
                        act: d.act,
                        config: TimeSlotConfig {
                            start: None,
                            length: d.config.length,
                            fixed_length: d.config.fixed_length,
                        },
                    },
                );
            } else {
                out.push(d);
            }
            proof {
                assert(repair(orig) =~= out@ + repair_from(orig.skip(k as int + 1), last));
            }
            k += 1;
        }
        proof {
            assert(orig.skip(orig.len() as int) =~= Seq::<SlotDto>::empty());
            assert(repair(orig) =~= out@);
            lemma_repair_ordered(orig);
        }
        self.0 = out;
    }
}

} // verus!
