//! Accumulator columns: one slot per group ordinal, with the memory they hold
//! counted as slots change.
use vstd::prelude::*;

use crate::acc_list::{vec_capacity, AccList};
use crate::acc_set::{dedup, set_merged, AccError, AccSet};
use crate::frame::{frame, le32_value, parse_frames, push_frame, read_le32, views};

verus! {

/// The sum of a sequence of sizes.
pub open spec fn sum_nat(s: Seq<nat>) -> nat
    decreases s.len(),
{
    if s.len() == 0 {
        0
    } else {
        sum_nat(s.drop_last()) + s.last()
    }
}

pub proof fn lemma_sum_update(s: Seq<nat>, i: int, v: nat)
    requires
        0 <= i < s.len(),
    ensures
        sum_nat(s.update(i, v)) + s[i] == sum_nat(s) + v,
    decreases s.len(),
{
    if i == s.len() - 1 {
        assert(s.update(i, v).drop_last() =~= s.drop_last());
    } else {
        lemma_sum_update(s.drop_last(), i, v);
        assert(s.update(i, v).drop_last() =~= s.drop_last().update(i, v));
    }
}

pub proof fn lemma_sum_bound(s: Seq<nat>, b: nat)
    requires
        forall|i: int| 0 <= i < s.len() ==> s[i] <= b,
    ensures
        sum_nat(s) <= s.len() * b,
    decreases s.len(),
{
    if s.len() > 0 {
        lemma_sum_bound(s.drop_last(), b);
        let n = s.len() as int;
        assert((n - 1) * b + b == n * b) by (nonlinear_arith);
    }
}

proof fn lemma_sum_push(s: Seq<nat>, v: nat)
    ensures
        sum_nat(s.push(v)) == sum_nat(s) + v,
{
    assert(s.push(v).drop_last() =~= s);
}

/// What the bytes at `pos` of `r` hold when a frame starts there: its payload and
/// the position after it.
#[verifier::opaque]
pub open spec fn frame_at(r: Seq<u8>, pos: int) -> Option<(Seq<u8>, int)> {
    if pos < 0 || pos + 4 > r.len() {
        None
    } else {
        let n = le32_value(r[pos], r[pos + 1], r[pos + 2], r[pos + 3]) as int;
        if pos + 4 + n > r.len() {
            None
        } else {
            Some((r.subrange(pos + 4, pos + 4 + n), pos + 4 + n))
        }
    }
}

pub proof fn lemma_frame_at_bounds(r: Seq<u8>, pos: int)
    requires
        frame_at(r, pos) is Some,
    ensures
        frame_at(r, pos).unwrap().0.len() <= u32::MAX,
        frame_at(r, pos).unwrap().1 == pos + 4 + frame_at(r, pos).unwrap().0.len(),
        frame_at(r, pos).unwrap().1 <= r.len(),
{
    reveal(frame_at);
}

/// Reads the frame at `pos` of `r`.
pub fn read_frame(r: &Vec<u8>, pos: usize) -> (res: Option<(Vec<u8>, usize)>)
    ensures
        match res {
            Some((b, end)) => frame_at(r@, pos as int) == Some((b@, end as int)),
            None => frame_at(r@, pos as int) is None,
        },
{
    reveal(frame_at);
    if pos > r.len() || r.len() - pos < 4 {
        return None;
    }
    let n = read_le32(r, pos);
    if ((r.len() - pos - 4) as u64) < n as u64 {
        return None;
    }
    let end = pos + 4 + n as usize;
    Some((crate::frame::copy_range(r, pos + 4, end), end))
}

/// The `collect_list` accumulators of a set of groups.
pub struct AccListColumn {
    list: Vec<AccList>,
    mem_used: u128,
    cap: usize,
}

impl AccListColumn {
    /// The values of each slot, in insertion order.
    pub closed spec fn slots(&self) -> Seq<Seq<Seq<u8>>> {
        self.list@.map_values(|l: AccList| l.items())
    }

    /// The memory each slot holds.
    pub closed spec fn slot_mems(&self) -> Seq<nat> {
        self.list@.map_values(|l: AccList| l.spec_mem_size())
    }

    /// The framed bytes of slot `i`.
    pub closed spec fn slot_raw(&self, i: int) -> Seq<u8> {
        self.list@[i].raw_bytes()
    }

    /// The memory of the slot vector itself.
    pub closed spec fn overhead(&self) -> nat {
        self.cap as nat * vstd::layout::size_of::<AccList>()
    }

    pub closed spec fn wf(&self) -> bool {
        &&& forall|i: int| 0 <= i < self.list@.len() ==> (#[trigger] self.list@[i]).wf()
        &&& forall|i: int| 0 <= i < self.list@.len() ==> #[trigger] self.slot_mems()[i] <= isize::MAX
        &&& self.mem_used == sum_nat(self.slot_mems())
        &&& self.list.len() <= self.cap
        &&& self.overhead() <= isize::MAX
    }

    pub proof fn lemma_slot_raw(&self, i: int)
        requires
            self.wf(),
            0 <= i < self.slots().len(),
        ensures
            parse_frames(self.slot_raw(i)) == Some(self.slots()[i]),
    {
        assert(self.list@[i].wf());
        self.list@[i].lemma_raw();
    }

    proof fn lemma_mem_bound(&self)
        requires
            self.wf(),
        ensures
            self.mem_used + isize::MAX <= u128::MAX,
    {
        lemma_sum_bound(self.slot_mems(), isize::MAX as nat);
        let n = self.list@.len() as int;
        assert(n * (isize::MAX as int) <= usize::MAX * (isize::MAX as int)) by (nonlinear_arith)
            requires n <= usize::MAX;
    }

    /// An empty column.
    pub fn empty() -> (r: Self)
        ensures
            r.wf(),
            r.slots() == Seq::<Seq<Seq<u8>>>::empty(),
    {
        let list: Vec<AccList> = Vec::new();
        let cap = vec_capacity(&list);
        let r = AccListColumn { list, mem_used: 0, cap };
        assert(r.slot_mems() =~= Seq::<nat>::empty());
        r
    }

    pub fn num_records(&self) -> (r: usize)
        ensures
            r == self.slots().len(),
    {
        self.list.len()
    }

    /// The memory that slot `idx` holds.
    pub fn slot_mem_size(&self, idx: usize) -> (r: usize)
        requires
            self.wf(),
            idx < self.slots().len(),
        ensures
            r == self.slot_mems()[idx as int],
    {
        self.list[idx].mem_size()
    }

    /// The memory of all slots and of the slot vector.
    pub fn mem_used(&self) -> (r: u128)
        requires
            self.wf(),
        ensures
            r == sum_nat(self.slot_mems()) + self.overhead(),
    {
        proof { self.lemma_mem_bound(); }
        let w = std::mem::size_of::<AccList>();
        let over = self.cap as u128 * w as u128;
        assert(over <= usize::MAX * usize::MAX) by (nonlinear_arith)
            requires over == self.cap as u128 * w as u128, w <= usize::MAX, self.cap <= usize::MAX;
        self.mem_used + over
    }

    /// Puts `slot` at `idx` and hands back what was there, keeping the count.
    fn replace_slot(&mut self, idx: usize, slot: AccList) -> (r: AccList)
        requires
            old(self).wf(),
            idx < old(self).slots().len(),
            slot.wf(),
        ensures
            final(self).wf(),
            final(self).list@ == old(self).list@.update(idx as int, slot),
            r == old(self).list@[idx as int],
            r.wf(),
            final(self).cap == old(self).cap,
    {
        let ghost mems = self.slot_mems();
        let old_mem = self.list[idx].mem_size();
        let new_mem = slot.mem_size();
        let mut slot = slot;
        proof {
            assert(self.list@[idx as int].wf());
            lemma_sum_update(mems, idx as int, 0);
            lemma_sum_update(mems, idx as int, new_mem as nat);
            slot.lemma_raw();
            self.lemma_mem_bound();
        }
        std::mem::swap(&mut slot, &mut self.list[idx]);
        self.mem_used = self.mem_used - old_mem as u128 + new_mem as u128;
        proof {
            assert(self.slot_mems() =~= mems.update(idx as int, new_mem as nat));
            assert forall|i: int| 0 <= i < self.list@.len() implies (#[trigger] self.list@[i]).wf() by {
                if i != idx {
                    assert(self.list@[i] == old(self).list@[i]);
                }
            }
        }
        slot
    }
}

} // verus!

verus! {

impl AccListColumn {
    /// Truncates to `len` slots or extends with empty ones.
    pub fn resize(&mut self, len: usize)
        requires
            old(self).wf(),
        ensures
            final(self).wf(),
            final(self).slots().len() == len,
            forall|i: int| 0 <= i < len && i < old(self).slots().len() ==> final(self).slots()[i] == old(self).slots()[i],
            forall|i: int| old(self).slots().len() <= i < len ==> final(self).slots()[i] == Seq::<Seq<u8>>::empty(),
            forall|i: int| 0 <= i < len && i < old(self).slots().len() ==> final(self).slot_mems()[i] == old(self).slot_mems()[i],
            forall|i: int| old(self).slots().len() <= i < len ==> final(self).slot_mems()[i] == 0,
    {
        while self.list.len() > len
            invariant
                forall|i: int| 0 <= i < self.list@.len() ==> (#[trigger] self.list@[i]).wf(),
                forall|i: int| 0 <= i < self.list@.len() ==> #[trigger] self.slot_mems()[i] <= isize::MAX,
                self.mem_used == sum_nat(self.slot_mems()),
                self.list@.len() <= old(self).list@.len(),
                len <= self.list@.len() || self.list@.len() == old(self).list@.len(),
                forall|i: int| 0 <= i < self.list@.len() ==> self.list@[i] == old(self).list@[i],
            decreases self.list.len(),
        {
            let ghost mems = self.slot_mems();
            match self.list.pop() {
                Some(last) => {
                    proof {
                        assert(self.slot_mems() =~= mems.drop_last());
                    }
                    self.mem_used = self.mem_used - last.mem_size() as u128;
                },
                None => {},
            }
        }
        let ghost kept = self.list@.len();
        while self.list.len() < len
            invariant
                forall|i: int| 0 <= i < self.list@.len() ==> (#[trigger] self.list@[i]).wf(),
                forall|i: int| 0 <= i < self.list@.len() ==> #[trigger] self.slot_mems()[i] <= isize::MAX,
                self.mem_used == sum_nat(self.slot_mems()),
                kept <= self.list@.len() <= len,
                kept == if len < old(self).list@.len() { len as int } else { old(self).list@.len() as int },
                forall|i: int| 0 <= i < kept ==> self.list@[i] == old(self).list@[i],
                forall|i: int| kept <= i < self.list@.len() ==> (#[trigger] self.list@[i]).items() == Seq::<Seq<u8>>::empty() && self.list@[i].spec_mem_size() == 0,
            decreases len - self.list.len(),
        {
            let slot = AccList::new();
            let m = slot.mem_size();
            proof { slot.lemma_raw(); }
            let ghost mems = self.slot_mems();
            self.list.push(slot);
            proof {
                assert(self.slot_mems() =~= mems.push(m as nat));
                lemma_sum_push(mems, m as nat);
                lemma_sum_bound(self.slot_mems(), isize::MAX as nat);
                let n = self.list@.len() as int;
                assert(n * (isize::MAX as int) <= usize::MAX * (isize::MAX as int)) by (nonlinear_arith)
                    requires n <= usize::MAX;
            }
            self.mem_used = self.mem_used + m as u128;
        }
        self.cap = vec_capacity(&self.list);
    }

    /// Appends `value` to slot `idx`.
    pub fn append_item(&mut self, idx: usize, value: &Vec<u8>)
        requires
            old(self).wf(),
            idx < old(self).slots().len(),
            value.len() <= u32::MAX,
        ensures
            final(self).wf(),
            final(self).slots() == old(self).slots().update(idx as int, old(self).slots()[idx as int].push(value@)),
    {
        let mut slot = self.replace_slot(idx, AccList::new());
        slot.append(value);
        self.replace_slot(idx, slot);
        assert(self.slots() =~= old(self).slots().update(idx as int, old(self).slots()[idx as int].push(value@)));
    }

    /// Moves the values of `other`'s slot `other_idx` to the end of slot `idx`.
    pub fn merge_items(&mut self, idx: usize, other: &mut Self, other_idx: usize)
        requires
            old(self).wf(),
            old(other).wf(),
            idx < old(self).slots().len(),
            other_idx < old(other).slots().len(),
        ensures
            final(self).wf(),
            final(other).wf(),
            final(self).slots() == old(self).slots().update(
                idx as int,
                old(self).slots()[idx as int] + old(other).slots()[other_idx as int],
            ),
            final(other).slots() == old(other).slots().update(other_idx as int, Seq::<Seq<u8>>::empty()),
    {
        let mut slot = self.replace_slot(idx, AccList::new());
        let mut oslot = other.replace_slot(other_idx, AccList::new());
        slot.merge(&mut oslot);
        self.replace_slot(idx, slot);
        other.replace_slot(other_idx, oslot);
        assert(self.slots() =~= old(self).slots().update(
            idx as int,
            old(self).slots()[idx as int] + old(other).slots()[other_idx as int],
        ));
        assert(other.slots() =~= old(other).slots().update(other_idx as int, Seq::<Seq<u8>>::empty()));
    }

    /// Empties slot `idx` and returns its values in insertion order.
    pub fn take_values(&mut self, idx: usize) -> (r: Vec<Vec<u8>>)
        requires
            old(self).wf(),
            idx < old(self).slots().len(),
        ensures
            final(self).wf(),
            views(r@) == old(self).slots()[idx as int],
            final(self).slots() == old(self).slots().update(idx as int, Seq::<Seq<u8>>::empty()),
            final(self).slot_mems() == old(self).slot_mems().update(idx as int, 0),
            final(self).overhead() == old(self).overhead(),
    {
        let fresh = AccList::new();
        let ghost g = fresh;
        let slot = self.replace_slot(idx, fresh);
        assert(self.slot_mems() =~= old(self).slot_mems().update(idx as int, 0));
        assert(self.slots() =~= old(self).slots().update(idx as int, Seq::<Seq<u8>>::empty()));
        slot.into_values()
    }

    /// Writes slot `idx` to `w` as one frame holding its framed bytes; refused, with
    /// `w` unchanged, when they pass 32-bit lengths.
    pub fn save_raw(&self, idx: usize, w: &mut Vec<u8>) -> (r: Result<(), AccError>)
        requires
            self.wf(),
            idx < self.slots().len(),
        ensures
            self.slot_raw(idx as int).len() <= u32::MAX ==> r is Ok && final(w)@ == old(w)@ + frame(self.slot_raw(idx as int)),
            self.slot_raw(idx as int).len() > u32::MAX ==> r == Err::<(), AccError>(AccError::TooLarge) && final(w)@ == old(w)@,
    {
        let raw = self.list[idx].raw();
        if raw.len() > u32::MAX as usize {
            return Err(AccError::TooLarge);
        }
        push_frame(w, raw);
        Ok(())
    }

    /// Replaces slot `idx` with the frame at `pos` of `r` and returns the position
    /// after it; refused, with nothing changed, when no well-formed frame is there.
    pub fn load_raw(&mut self, idx: usize, r: &Vec<u8>, pos: usize) -> (res: Result<usize, AccError>)
        requires
            old(self).wf(),
            idx < old(self).slots().len(),
        ensures
            final(self).wf(),
            match frame_at(r@, pos as int) {
                Some((b, end)) => match parse_frames(b) {
                    Some(items) => res == Ok::<usize, AccError>(end as usize)
                        && final(self).slots() == old(self).slots().update(idx as int, items)
                        && final(self).slot_raw(idx as int) == b,
                    None => res == Err::<usize, AccError>(AccError::Malformed) && *final(self) == *old(self),
                },
                None => res == Err::<usize, AccError>(AccError::Malformed) && *final(self) == *old(self),
            },
    {
        match read_frame(r, pos) {
            None => Err(AccError::Malformed),
            Some((b, end)) => {
                match crate::frame::decode_frames(&b) {
                    None => Err(AccError::Malformed),
                    Some(_) => {
                        self.replace_slot(idx, AccList::from_raw(b));
                        assert(self.slots() =~= old(self).slots().update(idx as int, parse_frames(b@).unwrap()));
                        Ok(end)
                    },
                }
            },
        }
    }
}

} // verus!

verus! {

/// The `collect_set` accumulators of a set of groups.
pub struct AccSetColumn {
    set: Vec<AccSet>,
    mem_used: u128,
    cap: usize,
}

impl AccSetColumn {
    /// The distinct values of each slot, in the order first seen.
    pub closed spec fn slots(&self) -> Seq<Seq<Seq<u8>>> {
        self.set@.map_values(|s: AccSet| s.items())
    }

    /// The memory each slot holds.
    pub closed spec fn slot_mems(&self) -> Seq<nat> {
        self.set@.map_values(|s: AccSet| s.spec_mem_size())
    }

    /// The framed bytes of slot `i`.
    pub closed spec fn slot_raw(&self, i: int) -> Seq<u8> {
        self.set@[i].raw_bytes()
    }

    /// The memory of the slot vector itself.
    pub closed spec fn overhead(&self) -> nat {
        self.cap as nat * vstd::layout::size_of::<AccSet>()
    }

    pub closed spec fn wf(&self) -> bool {
        &&& forall|i: int| 0 <= i < self.set@.len() ==> (#[trigger] self.set@[i]).wf()
        &&& forall|i: int| 0 <= i < self.set@.len() ==> #[trigger] self.slot_mems()[i] <= u64::MAX
        &&& self.mem_used == sum_nat(self.slot_mems())
        &&& self.set.len() <= self.cap
        &&& self.overhead() <= isize::MAX
    }

    pub proof fn lemma_slot(&self, i: int)
        requires
            self.wf(),
            0 <= i < self.slots().len(),
        ensures
            parse_frames(self.slot_raw(i)) == Some(self.slots()[i]),
            self.slots()[i].no_duplicates(),
            self.slot_raw(i).len() <= u32::MAX,
    {
        assert(self.set@[i].wf());
        self.set@[i].lemma_raw();
        self.set@[i].lemma_wf();
    }

    proof fn lemma_mem_bound(&self)
        requires
            self.wf(),
        ensures
            self.mem_used + u64::MAX + isize::MAX <= u128::MAX,
    {
        lemma_sum_bound(self.slot_mems(), u64::MAX as nat);
        let n = self.set@.len() as int;
        assert(n * (u64::MAX as int) <= (u64::MAX as int) * (u64::MAX as int)) by (nonlinear_arith)
            requires 0 <= n <= u64::MAX;
    }

    /// An empty column.
    pub fn empty() -> (r: Self)
        ensures
            r.wf(),
            r.slots() == Seq::<Seq<Seq<u8>>>::empty(),
    {
        let set: Vec<AccSet> = Vec::new();
        let cap = vec_capacity(&set);
        let r = AccSetColumn { set, mem_used: 0, cap };
        assert(r.slot_mems() =~= Seq::<nat>::empty());
        r
    }

    pub fn num_records(&self) -> (r: usize)
        ensures
            r == self.slots().len(),
    {
        self.set.len()
    }

    /// The memory that slot `idx` holds.
    pub fn slot_mem_size(&self, idx: usize) -> (r: u64)
        requires
            self.wf(),
            idx < self.slots().len(),
        ensures
            r == self.slot_mems()[idx as int],
    {
        assert(self.set@[idx as int].wf());
        self.set[idx].mem_size()
    }

    /// The memory of all slots and of the slot vector.
    pub fn mem_used(&self) -> (r: u128)
        requires
            self.wf(),
        ensures
            r == sum_nat(self.slot_mems()) + self.overhead(),
    {
        proof { self.lemma_mem_bound(); }
        let w = std::mem::size_of::<AccSet>();
        let over = self.cap as u128 * w as u128;
        self.mem_used + over
    }

    /// Puts `slot` at `idx` and hands back what was there, keeping the count.
    fn replace_slot(&mut self, idx: usize, slot: AccSet) -> (r: AccSet)
        requires
            old(self).wf(),
            idx < old(self).slots().len(),
            slot.wf(),
        ensures
            final(self).wf(),
            final(self).set@ == old(self).set@.update(idx as int, slot),
            r == old(self).set@[idx as int],
            r.wf(),
            final(self).cap == old(self).cap,
    {
        let ghost mems = self.slot_mems();
        assert(self.set@[idx as int].wf());
        let old_mem = self.set[idx].mem_size();
        let new_mem = slot.mem_size();
        let mut slot = slot;
        proof {
            lemma_sum_update(mems, idx as int, 0);
            lemma_sum_update(mems, idx as int, new_mem as nat);
            self.lemma_mem_bound();
        }
        std::mem::swap(&mut slot, &mut self.set[idx]);
        self.mem_used = self.mem_used - old_mem as u128 + new_mem as u128;
        proof {
            assert(self.slot_mems() =~= mems.update(idx as int, new_mem as nat));
            assert forall|i: int| 0 <= i < self.set@.len() implies (#[trigger] self.set@[i]).wf() by {
                if i != idx {
                    assert(self.set@[i] == old(self).set@[i]);
                }
            }
        }
        slot
    }

    /// Truncates to `len` slots or extends with empty ones.
    pub fn resize(&mut self, len: usize)
        requires
            old(self).wf(),
        ensures
            final(self).wf(),
            final(self).slots().len() == len,
            forall|i: int| 0 <= i < len && i < old(self).slots().len() ==> final(self).slots()[i] == old(self).slots()[i],
            forall|i: int| old(self).slots().len() <= i < len ==> final(self).slots()[i] == Seq::<Seq<u8>>::empty(),
            forall|i: int| 0 <= i < len && i < old(self).slots().len() ==> final(self).slot_mems()[i] == old(self).slot_mems()[i],
            forall|i: int| old(self).slots().len() <= i < len ==> final(self).slot_mems()[i] == 0,
    {
        while self.set.len() > len
            invariant
                forall|i: int| 0 <= i < self.set@.len() ==> (#[trigger] self.set@[i]).wf(),
                forall|i: int| 0 <= i < self.set@.len() ==> #[trigger] self.slot_mems()[i] <= u64::MAX,
                self.mem_used == sum_nat(self.slot_mems()),
                self.set@.len() <= old(self).set@.len(),
                len <= self.set@.len() || self.set@.len() == old(self).set@.len(),
                forall|i: int| 0 <= i < self.set@.len() ==> self.set@[i] == old(self).set@[i],
            decreases self.set.len(),
        {
            let ghost mems = self.slot_mems();
            match self.set.pop() {
                Some(last) => {
                    proof {
                        assert(self.slot_mems() =~= mems.drop_last());
                        assert(last.wf());
                    }
                    self.mem_used = self.mem_used - last.mem_size() as u128;
                },
                None => {},
            }
        }
        let ghost kept = self.set@.len();
        while self.set.len() < len
            invariant
                forall|i: int| 0 <= i < self.set@.len() ==> (#[trigger] self.set@[i]).wf(),
                forall|i: int| 0 <= i < self.set@.len() ==> #[trigger] self.slot_mems()[i] <= u64::MAX,
                self.mem_used == sum_nat(self.slot_mems()),
                kept <= self.set@.len() <= len,
                kept == if len < old(self).set@.len() { len as int } else { old(self).set@.len() as int },
                forall|i: int| 0 <= i < kept ==> self.set@[i] == old(self).set@[i],
                forall|i: int| kept <= i < self.set@.len() ==> (#[trigger] self.set@[i]).items() == Seq::<Seq<u8>>::empty() && self.set@[i].spec_mem_size() == 0,
            decreases len - self.set.len(),
        {
            let slot = AccSet::new();
            let m = slot.mem_size();
            let ghost mems = self.slot_mems();
            self.set.push(slot);
            proof {
                assert(self.slot_mems() =~= mems.push(m as nat));
                lemma_sum_push(mems, m as nat);
                lemma_sum_bound(self.slot_mems(), u64::MAX as nat);
                let n = self.set@.len() as int;
                assert(n * (u64::MAX as int) <= usize::MAX * (u64::MAX as int)) by (nonlinear_arith)
                    requires n <= usize::MAX;
            }
            self.mem_used = self.mem_used + m as u128;
        }
        self.cap = vec_capacity(&self.set);
    }

    /// Adds `value` to slot `idx` unless the slot holds it already; refused, with
    /// nothing changed, when a new value would take the slot past 32-bit offsets.
    pub fn append_item(&mut self, idx: usize, value: &Vec<u8>) -> (r: Result<(), AccError>)
        requires
            old(self).wf(),
            idx < old(self).slots().len(),
        ensures
            final(self).wf(),
            old(self).slots()[idx as int].contains(value@) ==> r is Ok && final(self).slots() == old(self).slots(),
            !old(self).slots()[idx as int].contains(value@) && old(self).slot_raw(idx as int).len() + 4 + value.len() <= u32::MAX
                ==> r is Ok && final(self).slots() == old(self).slots().update(idx as int, old(self).slots()[idx as int].push(value@)),
            !old(self).slots()[idx as int].contains(value@) && old(self).slot_raw(idx as int).len() + 4 + value.len() > u32::MAX
                ==> r == Err::<(), AccError>(AccError::TooLarge) && final(self).slots() == old(self).slots(),
            match crate::agg::set_step(old(self).slots()[idx as int], value@) {
                Some(items) => r is Ok && final(self).slots() == old(self).slots().update(idx as int, items),
                None => r == Err::<(), AccError>(AccError::TooLarge),
            },
    {
        proof {
            self.lemma_slot(idx as int);
            self.set@[idx as int].lemma_raw();
            crate::agg::lemma_frames_len(self.slot_raw(idx as int));
        }
        let mut slot = self.replace_slot(idx, AccSet::new());
        let r = slot.append(value);
        self.replace_slot(idx, slot);
        assert(self.slots() =~= old(self).slots().update(idx as int, slot.items()));
        proof {
            if slot.items() == old(self).slots()[idx as int] {
                assert(self.slots() =~= old(self).slots());
            }
        }
        r
    }

    /// Adds to slot `idx` the values of `other`'s slot `other_idx` and empties that
    /// slot; refused, with nothing changed, when the two slots' bytes together pass
    /// 32-bit offsets.
    pub fn merge_items(&mut self, idx: usize, other: &mut Self, other_idx: usize) -> (r: Result<(), AccError>)
        requires
            old(self).wf(),
            old(other).wf(),
            idx < old(self).slots().len(),
            other_idx < old(other).slots().len(),
        ensures
            final(self).wf(),
            final(other).wf(),
            final(self).slots().len() == old(self).slots().len(),
            final(other).slots().len() == old(other).slots().len(),
            old(self).slot_raw(idx as int).len() + old(other).slot_raw(other_idx as int).len() <= u32::MAX ==> r is Ok
                && final(self).slots()[idx as int] == set_merged(old(self).slots()[idx as int], old(other).slots()[other_idx as int])
                && final(self).slots()[idx as int].to_set() == old(self).slots()[idx as int].to_set().union(
                    old(other).slots()[other_idx as int].to_set(),
                )
                && (forall|i: int| 0 <= i < final(self).slots().len() && i != idx ==> final(self).slots()[i] == old(self).slots()[i])
                && final(other).slots() == old(other).slots().update(other_idx as int, Seq::<Seq<u8>>::empty()),
            old(self).slot_raw(idx as int).len() + old(other).slot_raw(other_idx as int).len() > u32::MAX
                ==> r == Err::<(), AccError>(AccError::TooLarge) && final(self).slots() == old(self).slots()
                && final(other).slots() == old(other).slots(),
    {
        proof {
            self.lemma_slot(idx as int);
            self.set@[idx as int].lemma_raw();
            other.lemma_slot(other_idx as int);
            other.set@[other_idx as int].lemma_raw();
        }
        let mut slot = self.replace_slot(idx, AccSet::new());
        let mut oslot = other.replace_slot(other_idx, AccSet::new());
        let r = slot.merge(&mut oslot);
        self.replace_slot(idx, slot);
        other.replace_slot(other_idx, oslot);
        assert(self.slots() =~= old(self).slots().update(idx as int, slot.items()));
        assert(other.slots() =~= old(other).slots().update(other_idx as int, oslot.items()));
        proof {
            if r is Err {
                assert(self.slots() =~= old(self).slots());
                assert(other.slots() =~= old(other).slots());
            }
        }
        r
    }

    /// Empties slot `idx` and returns its distinct values.
    pub fn take_values(&mut self, idx: usize) -> (r: Vec<Vec<u8>>)
        requires
            old(self).wf(),
            idx < old(self).slots().len(),
        ensures
            final(self).wf(),
            views(r@) == old(self).slots()[idx as int],
            views(r@).no_duplicates(),
            final(self).slots() == old(self).slots().update(idx as int, Seq::<Seq<u8>>::empty()),
            final(self).slot_mems() == old(self).slot_mems().update(idx as int, 0),
            final(self).overhead() == old(self).overhead(),
    {
        let fresh = AccSet::new();
        let ghost g = fresh;
        let slot = self.replace_slot(idx, fresh);
        assert(self.slot_mems() =~= old(self).slot_mems().update(idx as int, 0));
        assert(self.slots() =~= old(self).slots().update(idx as int, Seq::<Seq<u8>>::empty()));
        slot.into_values()
    }

    /// Writes slot `idx` to `w` as one frame holding its framed bytes; the index is
    /// not written.
    pub fn save_raw(&self, idx: usize, w: &mut Vec<u8>)
        requires
            self.wf(),
            idx < self.slots().len(),
        ensures
            final(w)@ == old(w)@ + frame(self.slot_raw(idx as int)),
    {
        proof { self.lemma_slot(idx as int); }
        push_frame(w, self.set[idx].raw());
    }

    /// Replaces slot `idx` with the values of the frame at `pos` of `r`, each kept
    /// once, and returns the position after it; refused, with nothing changed, when
    /// no well-formed frame is there.
    pub fn load_raw(&mut self, idx: usize, r: &Vec<u8>, pos: usize) -> (res: Result<usize, AccError>)
        requires
            old(self).wf(),
            idx < old(self).slots().len(),
        ensures
            final(self).wf(),
            match frame_at(r@, pos as int) {
                Some((b, end)) => match parse_frames(b) {
                    Some(items) => res == Ok::<usize, AccError>(end as usize)
                        && final(self).slots() == old(self).slots().update(idx as int, dedup(items)),
                    None => res == Err::<usize, AccError>(AccError::Malformed) && *final(self) == *old(self),
                },
                None => res == Err::<usize, AccError>(AccError::Malformed) && *final(self) == *old(self),
            },
    {
        match read_frame(r, pos) {
            None => Err(AccError::Malformed),
            Some((b, end)) => {
                proof { lemma_frame_at_bounds(r@, pos as int); }
                match AccSet::from_frames(&b) {
                    None => Err(AccError::Malformed),
                    Some(s) => {
                        self.replace_slot(idx, s);
                        assert(self.slots() =~= old(self).slots().update(idx as int, dedup(parse_frames(b@).unwrap())));
                        Ok(end)
                    },
                }
            },
        }
    }
}

} // verus!

verus! {

/// Merging lists is associative: merged contents are concatenations, in order.
pub proof fn lemma_list_merge_assoc(a: Seq<Seq<u8>>, b: Seq<Seq<u8>>, c: Seq<Seq<u8>>)
    ensures
        (a + b) + c == a + (b + c),
{
    assert((a + b) + c =~= a + (b + c));
}

/// The frame that `save_raw` appends to any byte stream is read back by
/// `load_raw` at the position where it starts, ending where the frame ends.
pub proof fn lemma_frame_round_trip(w: Seq<u8>, b: Seq<u8>)
    requires
        b.len() <= u32::MAX,
    ensures
        frame_at(w + frame(b), w.len() as int) == Some((b, (w.len() + 4 + b.len()) as int)),
{
    reveal(frame_at);
    let s = w + frame(b);
    let p = w.len() as int;
    crate::frame::lemma_le32_round_trip(b.len() as u32);
    let l = crate::frame::le32(b.len() as u32);
    assert(s[p] == l[0] && s[p + 1] == l[1] && s[p + 2] == l[2] && s[p + 3] == l[3]);
    assert(s.subrange(p + 4, p + 4 + b.len()) =~= b);
}

/// Saving a list slot and loading those bytes into any slot gives back the same
/// values in the same order.
pub proof fn lemma_list_save_load(w: Seq<u8>, raw: Seq<u8>, items: Seq<Seq<u8>>)
    requires
        parse_frames(raw) == Some(items),
        raw.len() <= u32::MAX,
    ensures
        frame_at(w + frame(raw), w.len() as int) == Some((raw, (w.len() + 4 + raw.len()) as int)),
        parse_frames(raw) == Some(items),
{
    lemma_frame_round_trip(w, raw);
}

/// Saving a set slot and loading those bytes into any slot gives back the same
/// values: reloading keeps each distinct value once, and a saved set has no repeats.
pub proof fn lemma_set_save_load(w: Seq<u8>, raw: Seq<u8>, items: Seq<Seq<u8>>)
    requires
        parse_frames(raw) == Some(items),
        items.no_duplicates(),
        raw.len() <= u32::MAX,
    ensures
        frame_at(w + frame(raw), w.len() as int) == Some((raw, (w.len() + 4 + raw.len()) as int)),
        dedup(items) == items,
{
    lemma_frame_round_trip(w, raw);
    crate::acc_set::lemma_dedup_unique(items);
}

} // verus!

verus! {

/// The frames of `raws`, one after another.
pub open spec fn frames_of(raws: Seq<Seq<u8>>) -> Seq<u8>
    decreases raws.len(),
{
    if raws.len() == 0 {
        Seq::empty()
    } else {
        frames_of(raws.drop_last()) + frame(raws.last())
    }
}

/// Reads `k` frames from `pos` of `r`, each holding a well-formed framed buffer:
/// their payloads and the position after the last; `None` when one is missing or
/// malformed.
pub open spec fn read_slots(r: Seq<u8>, pos: int, k: nat) -> Option<(Seq<Seq<u8>>, int)>
    decreases k,
{
    if k == 0 {
        Some((Seq::empty(), pos))
    } else {
        match read_slots(r, pos, (k - 1) as nat) {
            None => None,
            Some((raws, p)) => match frame_at(r, p) {
                None => None,
                Some((b, e)) => if parse_frames(b) is Some {
                    Some((raws.push(b), e))
                } else {
                    None
                },
            },
        }
    }
}

/// A frame found in a stream is still found when more bytes follow.
pub proof fn lemma_frame_at_extend(s: Seq<u8>, t: Seq<u8>, p: int)
    requires
        frame_at(s, p) is Some,
    ensures
        frame_at(s + t, p) == frame_at(s, p),
{
    reveal(frame_at);
    let n = le32_value(s[p], s[p + 1], s[p + 2], s[p + 3]) as int;
    assert((s + t)[p] == s[p] && (s + t)[p + 1] == s[p + 1] && (s + t)[p + 2] == s[p + 2] && (s + t)[p + 3] == s[p + 3]);
    assert((s + t).subrange(p + 4, p + 4 + n) =~= s.subrange(p + 4, p + 4 + n));
}

/// Slots read from a stream are still read when more bytes follow.
pub proof fn lemma_read_slots_extend(s: Seq<u8>, t: Seq<u8>, p: int, k: nat)
    requires
        read_slots(s, p, k) is Some,
    ensures
        read_slots(s + t, p, k) == read_slots(s, p, k),
    decreases k,
{
    if k > 0 {
        lemma_read_slots_extend(s, t, p, (k - 1) as nat);
        let q = read_slots(s, p, (k - 1) as nat).unwrap().1;
        lemma_frame_at_extend(s, t, q);
    }
}

/// What `spill` writes after any stream, `unspill` reads back from where it starts:
/// the same framed buffers, in order, ending where the writing ended.
pub proof fn lemma_spill_unspill(w: Seq<u8>, raws: Seq<Seq<u8>>)
    requires
        forall|k: int| 0 <= k < raws.len() ==> (#[trigger] raws[k]).len() <= u32::MAX && parse_frames(raws[k]) is Some,
    ensures
        read_slots(w + frames_of(raws), w.len() as int, raws.len()) == Some((raws, (w.len() + frames_of(raws).len()) as int)),
    decreases raws.len(),
{
    if raws.len() == 0 {
        assert(raws =~= Seq::<Seq<u8>>::empty());
    } else {
        let p = raws.drop_last();
        let b = raws.last();
        let s = w + frames_of(p);
        assert(p.push(b) =~= raws);
        assert(read_slots(s, w.len() as int, p.len()) == Some((p, s.len() as int))) by {
            assert forall|k: int| 0 <= k < p.len() implies (#[trigger] p[k]).len() <= u32::MAX && parse_frames(p[k]) is Some by {
                assert(p[k] == raws[k]);
            }
            lemma_spill_unspill(w, p);
        }
        lemma_step_read(s, b, w.len() as int, p);
        assert(w + frames_of(raws) =~= s + frame(b));
    }
}

/// One more frame after the slots read so far is read as one more slot.
proof fn lemma_step_read(s: Seq<u8>, b: Seq<u8>, pos: int, p: Seq<Seq<u8>>)
    requires
        read_slots(s, pos, p.len()) == Some((p, s.len() as int)),
        b.len() <= u32::MAX,
        parse_frames(b) is Some,
    ensures
        read_slots(s + frame(b), pos, p.len() + 1) == Some((p.push(b), (s.len() + 4 + b.len()) as int)),
{
    lemma_read_slots_extend(s, frame(b), pos, p.len());
    lemma_frame_round_trip(s, b);
    lemma_read_slots_step(s + frame(b), pos, p, s.len() as int, b, (s.len() + 4 + b.len()) as int);
}

proof fn lemma_read_slots_step(t: Seq<u8>, pos: int, p: Seq<Seq<u8>>, q: int, b: Seq<u8>, e: int)
    requires
        read_slots(t, pos, p.len()) == Some((p, q)),
        frame_at(t, q) == Some((b, e)),
        parse_frames(b) is Some,
    ensures
        read_slots(t, pos, p.len() + 1) == Some((p.push(b), e)),
{
    assert(((p.len() + 1) as nat - 1) as nat == p.len());
}

impl AccListColumn {
    /// Writes the slots `idx` selects to `w`, each as `save_raw` does; refused when
    /// a selected slot's bytes pass 32-bit lengths.
    pub fn spill(&self, idx: &Vec<usize>, w: &mut Vec<u8>) -> (r: Result<(), AccError>)
        requires
            self.wf(),
            forall|k: int| 0 <= k < idx.len() ==> idx[k] < self.slots().len(),
        ensures
            (forall|k: int| 0 <= k < idx.len() ==> #[trigger] self.slot_raw(idx[k] as int).len() <= u32::MAX) ==> r is Ok
                && final(w)@ == old(w)@ + frames_of(Seq::new(idx.len() as nat, |k: int| self.slot_raw(idx[k] as int))),
            !(forall|k: int| 0 <= k < idx.len() ==> #[trigger] self.slot_raw(idx[k] as int).len() <= u32::MAX)
                ==> r == Err::<(), AccError>(AccError::TooLarge),
    {
        let ghost raws = Seq::new(idx.len() as nat, |k: int| self.slot_raw(idx[k] as int));
        let mut i: usize = 0;
        while i < idx.len()
            invariant
                self.wf(),
                forall|k: int| 0 <= k < idx.len() ==> idx[k] < self.slots().len(),
                raws == Seq::new(idx.len() as nat, |k: int| self.slot_raw(idx[k] as int)),
                i <= idx.len(),
                forall|k: int| 0 <= k < i ==> #[trigger] self.slot_raw(idx[k] as int).len() <= u32::MAX,
                w@ == old(w)@ + frames_of(raws.subrange(0, i as int)),
            decreases idx.len() - i,
        {
            match self.save_raw(idx[i], w) {
                Err(e) => return Err(e),
                Ok(()) => {},
            }
            proof {
                let q = raws.subrange(0, i + 1);
                assert(q.drop_last() =~= raws.subrange(0, i as int));
                assert(q.last() == raws[i as int]);
                assert(old(w)@ + frames_of(raws.subrange(0, i as int)) + frame(raws[i as int]) =~= old(w)@ + frames_of(q));
            }
            i += 1;
        }
        assert(raws.subrange(0, idx.len() as int) =~= raws);
        Ok(())
    }

    /// Adds `num_rows` slots and loads them from the frames that follow `pos` in
    /// `r`; returns the position after the last.
    pub fn unspill(&mut self, num_rows: usize, r: &Vec<u8>, pos: usize) -> (res: Result<usize, AccError>)
        requires
            old(self).wf(),
            old(self).slots().len() + num_rows <= usize::MAX,
        ensures
            final(self).wf(),
            final(self).slots().len() == old(self).slots().len() + num_rows,
            forall|i: int| 0 <= i < old(self).slots().len() ==> final(self).slots()[i] == old(self).slots()[i],
            match read_slots(r@, pos as int, num_rows as nat) {
                Some((raws, end)) => res == Ok::<usize, AccError>(end as usize) && forall|k: int| 0 <= k < num_rows
                    ==> Some(#[trigger] final(self).slots()[old(self).slots().len() + k]) == parse_frames(raws[k]),
                None => res == Err::<usize, AccError>(AccError::Malformed),
            },
    {
        let base = self.num_records();
        self.resize(base + num_rows);
        let mut p: usize = pos;
        let mut i: usize = 0;
        let ghost mut raws: Seq<Seq<u8>> = Seq::empty();
        while i < num_rows
            invariant
                self.wf(),
                base == old(self).slots().len(),
                self.slots().len() == base + num_rows,
                forall|t: int| 0 <= t < base ==> self.slots()[t] == old(self).slots()[t],
                i <= num_rows,
                raws.len() == i,
                read_slots(r@, pos as int, i as nat) == Some((raws, p as int)),
                forall|k: int| 0 <= k < i ==> Some(#[trigger] self.slots()[base + k]) == parse_frames(raws[k]),
            decreases num_rows - i,
        {
            let ghost before = self.slots();
            let res = self.load_raw(base + i, r, p);
            match res {
                Err(e) => {
                    proof {
                        assert(read_slots(r@, pos as int, (i + 1) as nat) is None);
                        lemma_read_slots_none(r@, pos as int, (i + 1) as nat, num_rows as nat);
                    }
                    return Err(e);
                },
                Ok(end) => {
                    proof {
                        let (b, e2) = frame_at(r@, p as int).unwrap();
                        assert(read_slots(r@, pos as int, (i + 1) as nat) == Some((raws.push(b), e2)));
                        assert forall|k: int| 0 <= k < i + 1 implies Some(#[trigger] self.slots()[base + k]) == parse_frames(raws.push(b)[k]) by {
                            if k < i {
                                assert(self.slots()[base + k] == before[base + k]);
                            }
                        }
                        raws = raws.push(b);
                    }
                    proof {
                        let (b, e2) = frame_at(r@, p as int).unwrap();
                        lemma_frame_at_bounds(r@, p as int);
                        assert(e2 <= r@.len());
                        assert(frame_at(r@, p as int) is Some);
                        assert(parse_frames(b) is Some);
                        assert(res == Ok::<usize, AccError>(e2 as usize));
                        assert(r@.len() == r.len());
                        assert(e2 == p + 4 + b.len());
                        assert(0 <= e2 <= usize::MAX);
                        assert(end == e2 as usize);
                        assert(end as int == e2);
                    }
                    p = end;
                },
            }
            i += 1;
        }
        Ok(p)
    }
}

/// Once reading some number of slots fails, reading more fails too.
pub proof fn lemma_read_slots_none(r: Seq<u8>, pos: int, k: nat, m: nat)
    requires
        read_slots(r, pos, k) is None,
        k <= m,
    ensures
        read_slots(r, pos, m) is None,
    decreases m - k,
{
    if k < m {
        lemma_read_slots_none(r, pos, k + 1, m);
    }
}

} // verus!

verus! {

/// At `o` in `a` stands a frame whose payload is a well-formed framed buffer.
pub open spec fn row_ok(a: Seq<u8>, o: int) -> bool {
    frame_at(a, o) is Some && parse_frames(frame_at(a, o).unwrap().0) is Some
}

impl AccListColumn {
    /// Appends the slots `idx` selects to the rows of `array`, one slot per row, each
    /// as `save_raw` does; refused when a selected slot's bytes pass 32-bit lengths.
    pub fn freeze_to_rows(&self, idx: &Vec<usize>, array: &mut Vec<Vec<u8>>) -> (r: Result<(), AccError>)
        requires
            self.wf(),
            idx.len() <= old(array).len(),
            forall|k: int| 0 <= k < idx.len() ==> idx[k] < self.slots().len(),
        ensures
            final(array).len() == old(array).len(),
            (forall|k: int| 0 <= k < idx.len() ==> #[trigger] self.slot_raw(idx[k] as int).len() <= u32::MAX) ==> r is Ok
                && (forall|k: int| 0 <= k < idx.len() ==> #[trigger] final(array)[k]@ == old(array)[k]@ + frame(self.slot_raw(idx[k] as int)))
                && (forall|k: int| idx.len() <= k < old(array).len() ==> #[trigger] final(array)[k] == old(array)[k]),
            !(forall|k: int| 0 <= k < idx.len() ==> #[trigger] self.slot_raw(idx[k] as int).len() <= u32::MAX)
                ==> r == Err::<(), AccError>(AccError::TooLarge),
    {
        let mut i: usize = 0;
        while i < idx.len()
            invariant
                self.wf(),
                idx.len() <= array.len(),
                array.len() == old(array).len(),
                forall|k: int| 0 <= k < idx.len() ==> idx[k] < self.slots().len(),
                i <= idx.len(),
                forall|k: int| 0 <= k < i ==> #[trigger] self.slot_raw(idx[k] as int).len() <= u32::MAX,
                forall|k: int| 0 <= k < i ==> #[trigger] array[k]@ == old(array)[k]@ + frame(self.slot_raw(idx[k] as int)),
                forall|k: int| i <= k < array.len() ==> #[trigger] array[k] == old(array)[k],
            decreases idx.len() - i,
        {
            let mut row: Vec<u8> = Vec::new();
            std::mem::swap(&mut row, &mut array[i]);
            let res = self.save_raw(idx[i], &mut row);
            array[i] = row;
            match res {
                Err(e) => return Err(e),
                Ok(()) => {},
            }
            i += 1;
        }
        Ok(())
    }

    /// Adds one slot per row of `array` and loads it from the frame at that row's
    /// offset, moving each offset past its frame.
    pub fn unfreeze_from_rows(&mut self, array: &Vec<Vec<u8>>, offsets: &mut Vec<usize>) -> (r: Result<(), AccError>)
        requires
            old(self).wf(),
            old(offsets).len() == array.len(),
            old(self).slots().len() + array.len() <= usize::MAX,
        ensures
            final(self).wf(),
            final(offsets).len() == array.len(),
            final(self).slots().len() == old(self).slots().len() + array.len(),
            forall|i: int| 0 <= i < old(self).slots().len() ==> final(self).slots()[i] == old(self).slots()[i],
            (forall|k: int| 0 <= k < array.len() ==> row_ok(#[trigger] array[k]@, old(offsets)[k] as int)) ==> r is Ok
                && forall|k: int| 0 <= k < array.len() ==> {
                    &&& Some(#[trigger] final(self).slots()[old(self).slots().len() + k]) == parse_frames(frame_at(array[k]@, old(offsets)[k] as int).unwrap().0)
                    &&& final(offsets)[k] as int == frame_at(array[k]@, old(offsets)[k] as int).unwrap().1
                },
            !(forall|k: int| 0 <= k < array.len() ==> row_ok(#[trigger] array[k]@, old(offsets)[k] as int))
                ==> r == Err::<(), AccError>(AccError::Malformed),
    {
        let base = self.num_records();
        self.resize(base + array.len());
        let mut i: usize = 0;
        while i < array.len()
            invariant
                self.wf(),
                base == old(self).slots().len(),
                self.slots().len() == base + array.len(),
                forall|t: int| 0 <= t < base ==> self.slots()[t] == old(self).slots()[t],
                offsets.len() == array.len(),
                i <= array.len(),
                forall|k: int| 0 <= k < i ==> row_ok(#[trigger] array[k]@, old(offsets)[k] as int),
                forall|k: int| 0 <= k < i ==> {
                    &&& Some(#[trigger] self.slots()[base + k]) == parse_frames(frame_at(array[k]@, old(offsets)[k] as int).unwrap().0)
                    &&& offsets[k] as int == frame_at(array[k]@, old(offsets)[k] as int).unwrap().1
                },
                forall|k: int| i <= k < array.len() ==> #[trigger] offsets[k] == old(offsets)[k],
            decreases array.len() - i,
        {
            let ghost before = self.slots();
            let res = self.load_raw(base + i, &array[i], offsets[i]);
            match res {
                Err(e) => {
                    assert(!row_ok(array[i as int]@, old(offsets)[i as int] as int));
                    return Err(e);
                },
                Ok(end) => {
                    proof {
                        lemma_frame_at_bounds(array[i as int]@, offsets[i as int] as int);
                        assert forall|k: int| 0 <= k < i implies Some(#[trigger] self.slots()[base + k]) == parse_frames(
                            frame_at(array[k]@, old(offsets)[k] as int).unwrap().0,
                        ) by {
                            assert(self.slots()[base + k] == before[base + k]);
                        }
                    }
                    let ghost offs = offsets@;
                    offsets.set(i, end);
                    proof {
                        let (b, e2) = frame_at(array[i as int]@, old(offsets)[i as int] as int).unwrap();
                        assert(array[i as int]@.len() == array[i as int].len());
                        assert(res == Ok::<usize, AccError>(e2 as usize));
                        assert(end as int == e2);
                        assert forall|k: int| 0 <= k < i + 1 implies {
                            &&& Some(#[trigger] self.slots()[base + k]) == parse_frames(frame_at(array[k]@, old(offsets)[k] as int).unwrap().0)
                            &&& offsets[k] as int == frame_at(array[k]@, old(offsets)[k] as int).unwrap().1
                        } by {
                            if k < i {
                                assert(offsets[k] == offs[k]);
                            }
                        }
                    }
                },
            }
            i += 1;
        }
        Ok(())
    }
}

} // verus!

verus! {

impl AccSetColumn {
    /// Writes the slots `idx` selects to `w`, each as `save_raw` does.
    pub fn spill(&self, idx: &Vec<usize>, w: &mut Vec<u8>)
        requires
            self.wf(),
            forall|k: int| 0 <= k < idx.len() ==> idx[k] < self.slots().len(),
        ensures
            final(w)@ == old(w)@ + frames_of(Seq::new(idx.len() as nat, |k: int| self.slot_raw(idx[k] as int))),
    {
        let ghost raws = Seq::new(idx.len() as nat, |k: int| self.slot_raw(idx[k] as int));
        let mut i: usize = 0;
        while i < idx.len()
            invariant
                self.wf(),
                forall|k: int| 0 <= k < idx.len() ==> idx[k] < self.slots().len(),
                raws == Seq::new(idx.len() as nat, |k: int| self.slot_raw(idx[k] as int)),
                i <= idx.len(),
                w@ == old(w)@ + frames_of(raws.subrange(0, i as int)),
            decreases idx.len() - i,
        {
            self.save_raw(idx[i], w);
            proof {
                let q = raws.subrange(0, i + 1);
                assert(q.drop_last() =~= raws.subrange(0, i as int));
                assert(q.last() == raws[i as int]);
                assert(old(w)@ + frames_of(raws.subrange(0, i as int)) + frame(raws[i as int]) =~= old(w)@ + frames_of(q));
            }
            i += 1;
        }
        assert(raws.subrange(0, idx.len() as int) =~= raws);
    }

    /// Adds `num_rows` slots and loads them from the frames that follow `pos` in
    /// `r`; returns the position after the last.
    pub fn unspill(&mut self, num_rows: usize, r: &Vec<u8>, pos: usize) -> (res: Result<usize, AccError>)
        requires
            old(self).wf(),
            old(self).slots().len() + num_rows <= usize::MAX,
        ensures
            final(self).wf(),
            final(self).slots().len() == old(self).slots().len() + num_rows,
            forall|i: int| 0 <= i < old(self).slots().len() ==> final(self).slots()[i] == old(self).slots()[i],
            match read_slots(r@, pos as int, num_rows as nat) {
                Some((raws, end)) => res == Ok::<usize, AccError>(end as usize) && forall|k: int| 0 <= k < num_rows
                    ==> #[trigger] final(self).slots()[old(self).slots().len() + k] == dedup(parse_frames(raws[k]).unwrap()),
                None => res == Err::<usize, AccError>(AccError::Malformed),
            },
    {
        let base = self.num_records();
        self.resize(base + num_rows);
        let mut p: usize = pos;
        let mut i: usize = 0;
        let ghost mut raws: Seq<Seq<u8>> = Seq::empty();
        while i < num_rows
            invariant
                self.wf(),
                base == old(self).slots().len(),
                self.slots().len() == base + num_rows,
                forall|t: int| 0 <= t < base ==> self.slots()[t] == old(self).slots()[t],
                i <= num_rows,
                raws.len() == i,
                read_slots(r@, pos as int, i as nat) == Some((raws, p as int)),
                forall|k: int| 0 <= k < i ==> #[trigger] self.slots()[base + k] == dedup(parse_frames(raws[k]).unwrap()),
            decreases num_rows - i,
        {
            let ghost before = self.slots();
            let res = self.load_raw(base + i, r, p);
            match res {
                Err(e) => {
                    proof {
                        assert(read_slots(r@, pos as int, (i + 1) as nat) is None);
                        lemma_read_slots_none(r@, pos as int, (i + 1) as nat, num_rows as nat);
                    }
                    return Err(e);
                },
                Ok(end) => {
                    proof {
                        let (b, e2) = frame_at(r@, p as int).unwrap();
                        assert(read_slots(r@, pos as int, (i + 1) as nat) == Some((raws.push(b), e2)));
                        assert forall|k: int| 0 <= k < i + 1 implies #[trigger] self.slots()[base + k] == dedup(parse_frames(raws.push(b)[k]).unwrap()) by {
                            if k < i {
                                assert(self.slots()[base + k] == before[base + k]);
                            }
                        }
                        raws = raws.push(b);
                    }
                    proof {
                        let (b, e2) = frame_at(r@, p as int).unwrap();
                        lemma_frame_at_bounds(r@, p as int);
                        assert(e2 <= r@.len());
                        assert(frame_at(r@, p as int) is Some);
                        assert(parse_frames(b) is Some);
                        assert(res == Ok::<usize, AccError>(e2 as usize));
                        assert(r@.len() == r.len());
                        assert(e2 == p + 4 + b.len());
                        assert(0 <= e2 <= usize::MAX);
                        assert(end == e2 as usize);
                        assert(end as int == e2);
                    }
                    p = end;
                },
            }
            i += 1;
        }
        Ok(p)
    }
}

} // verus!

verus! {

impl AccSetColumn {
    /// Appends the slots `idx` selects to the rows of `array`, one slot per row, each
    /// as `save_raw` does.
    pub fn freeze_to_rows(&self, idx: &Vec<usize>, array: &mut Vec<Vec<u8>>)
        requires
            self.wf(),
            idx.len() <= old(array).len(),
            forall|k: int| 0 <= k < idx.len() ==> idx[k] < self.slots().len(),
        ensures
            final(array).len() == old(array).len(),
            forall|k: int| 0 <= k < idx.len() ==> #[trigger] final(array)[k]@ == old(array)[k]@ + frame(self.slot_raw(idx[k] as int)),
            forall|k: int| idx.len() <= k < old(array).len() ==> #[trigger] final(array)[k] == old(array)[k],
    {
        let mut i: usize = 0;
        while i < idx.len()
            invariant
                self.wf(),
                idx.len() <= array.len(),
                array.len() == old(array).len(),
                forall|k: int| 0 <= k < idx.len() ==> idx[k] < self.slots().len(),
                i <= idx.len(),
                forall|k: int| 0 <= k < i ==> #[trigger] array[k]@ == old(array)[k]@ + frame(self.slot_raw(idx[k] as int)),
                forall|k: int| i <= k < array.len() ==> #[trigger] array[k] == old(array)[k],
            decreases idx.len() - i,
        {
            let mut row: Vec<u8> = Vec::new();
            std::mem::swap(&mut row, &mut array[i]);
            self.save_raw(idx[i], &mut row);
            array[i] = row;
            i += 1;
        }
    }

    /// Adds one slot per row of `array` and loads it from the frame at that row's
    /// offset, moving each offset past its frame.
    pub fn unfreeze_from_rows(&mut self, array: &Vec<Vec<u8>>, offsets: &mut Vec<usize>) -> (r: Result<(), AccError>)
        requires
            old(self).wf(),
            old(offsets).len() == array.len(),
            old(self).slots().len() + array.len() <= usize::MAX,
        ensures
            final(self).wf(),
            final(offsets).len() == array.len(),
            final(self).slots().len() == old(self).slots().len() + array.len(),
            forall|i: int| 0 <= i < old(self).slots().len() ==> final(self).slots()[i] == old(self).slots()[i],
            (forall|k: int| 0 <= k < array.len() ==> row_ok(#[trigger] array[k]@, old(offsets)[k] as int)) ==> r is Ok
                && forall|k: int| 0 <= k < array.len() ==> {
                    &&& #[trigger] final(self).slots()[old(self).slots().len() + k] == dedup(parse_frames(frame_at(array[k]@, old(offsets)[k] as int).unwrap().0).unwrap())
                    &&& final(offsets)[k] as int == frame_at(array[k]@, old(offsets)[k] as int).unwrap().1
                },
            !(forall|k: int| 0 <= k < array.len() ==> row_ok(#[trigger] array[k]@, old(offsets)[k] as int))
                ==> r == Err::<(), AccError>(AccError::Malformed),
    {
        let base = self.num_records();
        self.resize(base + array.len());
        let mut i: usize = 0;
        while i < array.len()
            invariant
                self.wf(),
                base == old(self).slots().len(),
                self.slots().len() == base + array.len(),
                forall|t: int| 0 <= t < base ==> self.slots()[t] == old(self).slots()[t],
                offsets.len() == array.len(),
                i <= array.len(),
                forall|k: int| 0 <= k < i ==> row_ok(#[trigger] array[k]@, old(offsets)[k] as int),
                forall|k: int| 0 <= k < i ==> {
                    &&& #[trigger] self.slots()[base + k] == dedup(parse_frames(frame_at(array[k]@, old(offsets)[k] as int).unwrap().0).unwrap())
                    &&& offsets[k] as int == frame_at(array[k]@, old(offsets)[k] as int).unwrap().1
                },
                forall|k: int| i <= k < array.len() ==> #[trigger] offsets[k] == old(offsets)[k],
            decreases array.len() - i,
        {
            let ghost before = self.slots();
            let res = self.load_raw(base + i, &array[i], offsets[i]);
            match res {
                Err(e) => {
                    assert(!row_ok(array[i as int]@, old(offsets)[i as int] as int));
                    return Err(e);
                },
                Ok(end) => {
                    proof {
                        lemma_frame_at_bounds(array[i as int]@, offsets[i as int] as int);
                        assert forall|k: int| 0 <= k < i implies #[trigger] self.slots()[base + k] == dedup(parse_frames(
                            frame_at(array[k]@, old(offsets)[k] as int).unwrap().0,
                        ).unwrap()) by {
                            assert(self.slots()[base + k] == before[base + k]);
                        }
                    }
                    let ghost offs = offsets@;
                    offsets.set(i, end);
                    proof {
                        let (b, e2) = frame_at(array[i as int]@, old(offsets)[i as int] as int).unwrap();
                        assert(array[i as int]@.len() == array[i as int].len());
                        assert(res == Ok::<usize, AccError>(e2 as usize));
                        assert(end as int == e2);
                        assert(offs[i as int] == old(offsets)[i as int]);
                        assert(parse_frames(b) is Some);
                        assert(self.slots()[base + i] == dedup(parse_frames(b).unwrap()));
                        assert forall|k: int| 0 <= k < i + 1 implies {
                            &&& #[trigger] self.slots()[base + k] == dedup(parse_frames(frame_at(array[k]@, old(offsets)[k] as int).unwrap().0).unwrap())
                            &&& offsets[k] as int == frame_at(array[k]@, old(offsets)[k] as int).unwrap().1
                        } by {
                            if k < i {
                                assert(offsets[k] == offs[k]);
                                assert(self.slots()[base + k] == before[base + k]);
                                assert(before[base + k] == dedup(parse_frames(frame_at(array[k]@, old(offsets)[k] as int).unwrap().0).unwrap()));
                            }
                        }
                    }
                },
            }
            i += 1;
        }
        Ok(())
    }
}

} // verus!
