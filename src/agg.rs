//! The aggregate protocol of `collect_list` and `collect_set` over accumulator
//! columns: update from argument values, merge partial columns, and finish.
use vstd::prelude::*;

use crate::acc_set::{dedup, set_merged, AccError};
use crate::column::{AccListColumn, AccSetColumn};
use crate::frame::{le32_value, parse_frames, views};

verus! {

/// The views of a column of nullable values.
pub open spec fn opt_views(v: Seq<Option<Vec<u8>>>) -> Seq<Option<Seq<u8>>> {
    v.map_values(|x: Option<Vec<u8>>| match x {
        Some(b) => Some(b@),
        None => None,
    })
}

/// The list slots after the first `k` updates of `partial_update`: update `t` adds
/// value `args[t]` of `vals` to slot `acc[t]`, and a null adds nothing.
pub open spec fn list_updates(
    slots: Seq<Seq<Seq<u8>>>,
    acc: Seq<usize>,
    vals: Seq<Option<Seq<u8>>>,
    args: Seq<usize>,
    k: nat,
) -> Seq<Seq<Seq<u8>>>
    decreases k,
{
    if k == 0 {
        slots
    } else {
        let s = list_updates(slots, acc, vals, args, (k - 1) as nat);
        let t = k - 1;
        match vals[args[t] as int] {
            Some(x) => s.update(acc[t] as int, s[acc[t] as int].push(x)),
            None => s,
        }
    }
}

/// The total length of the frames of `items`.
pub open spec fn frames_len(items: Seq<Seq<u8>>) -> nat
    decreases items.len(),
{
    if items.len() == 0 {
        0
    } else {
        frames_len(items.drop_last()) + 4 + items.last().len()
    }
}

/// A set slot after offering it `x`: unchanged when it holds `x`, `None` when `x`
/// would take its bytes past 32-bit offsets, else with `x` at the end.
pub open spec fn set_step(items: Seq<Seq<u8>>, x: Seq<u8>) -> Option<Seq<Seq<u8>>> {
    if items.contains(x) {
        Some(items)
    } else if frames_len(items) + 4 + x.len() > u32::MAX {
        None
    } else {
        Some(items.push(x))
    }
}

/// The set slots after the first `k` updates of `partial_update`, or `None` once
/// one of them is refused.
pub open spec fn set_updates(
    slots: Seq<Seq<Seq<u8>>>,
    acc: Seq<usize>,
    vals: Seq<Option<Seq<u8>>>,
    args: Seq<usize>,
    k: nat,
) -> Option<Seq<Seq<Seq<u8>>>>
    decreases k,
{
    if k == 0 {
        Some(slots)
    } else {
        match set_updates(slots, acc, vals, args, (k - 1) as nat) {
            None => None,
            Some(s) => {
                let t = k - 1;
                match vals[args[t] as int] {
                    None => Some(s),
                    Some(x) => match set_step(s[acc[t] as int], x) {
                        None => None,
                        Some(items) => Some(s.update(acc[t] as int, items)),
                    },
                }
            },
        }
    }
}

/// A framed buffer is as long as the frames of its values.
pub proof fn lemma_frames_len(b: Seq<u8>)
    requires
        parse_frames(b) is Some,
    ensures
        b.len() == frames_len(parse_frames(b).unwrap()),
    decreases b.len(),
{
    if b.len() > 0 {
        let n = le32_value(b[0], b[1], b[2], b[3]) as int;
        let rest = b.subrange(4 + n, b.len() as int);
        lemma_frames_len(rest);
        let x = b.subrange(4, 4 + n);
        lemma_frames_len_cons(x, parse_frames(rest).unwrap());
    }
}

proof fn lemma_frames_len_cons(x: Seq<u8>, s: Seq<Seq<u8>>)
    ensures
        frames_len(seq![x] + s) == 4 + x.len() + frames_len(s),
    decreases s.len(),
{
    if s.len() == 0 {
        assert(seq![x] + s =~= seq![x]);
        assert(seq![x].drop_last() =~= Seq::<Seq<u8>>::empty());
        assert(seq![x].last() == x);
        assert(frames_len(Seq::<Seq<u8>>::empty()) == 0);
        assert(frames_len(s) == 0);
        assert(frames_len(seq![x]) == frames_len(seq![x].drop_last()) + 4 + x.len());
    } else {
        lemma_frames_len_cons(x, s.drop_last());
        assert((seq![x] + s).drop_last() =~= seq![x] + s.drop_last());
        assert((seq![x] + s).last() == s.last());
    }
}

impl AccListColumn {
    /// Adds, for each `t`, value `arg_idx[t]` of `values` to slot `acc_idx[t]`;
    /// nulls are dropped.
    pub fn partial_update(&mut self, acc_idx: &Vec<usize>, values: &Vec<Option<Vec<u8>>>, arg_idx: &Vec<usize>)
        requires
            old(self).wf(),
            acc_idx.len() == arg_idx.len(),
            forall|t: int| 0 <= t < acc_idx.len() ==> acc_idx[t] < old(self).slots().len() && arg_idx[t] < values.len(),
            forall|t: int| 0 <= t < values.len() && (#[trigger] values[t]) is Some ==> values[t]->Some_0.len() <= u32::MAX,
        ensures
            final(self).wf(),
            final(self).slots() == list_updates(old(self).slots(), acc_idx@, opt_views(values@), arg_idx@, acc_idx.len() as nat),
    {
        let mut t: usize = 0;
        while t < acc_idx.len()
            invariant
                self.wf(),
                acc_idx.len() == arg_idx.len(),
                self.slots().len() == old(self).slots().len(),
                forall|q: int| 0 <= q < acc_idx.len() ==> acc_idx[q] < old(self).slots().len() && arg_idx[q] < values.len(),
                forall|q: int| 0 <= q < values.len() && (#[trigger] values[q]) is Some ==> values[q]->Some_0.len() <= u32::MAX,
                t <= acc_idx.len(),
                self.slots() == list_updates(old(self).slots(), acc_idx@, opt_views(values@), arg_idx@, t as nat),
            decreases acc_idx.len() - t,
        {
            let a = acc_idx[t];
            let v = arg_idx[t];
            let ghost vs = opt_views(values@);
            assert(vs[v as int] == match values@[v as int] { Some(b) => Some(b@), None => None });
            match &values[v] {
                Some(x) => {
                    self.append_item(a, x);
                },
                None => {},
            }
            assert(((t + 1) as nat - 1) as nat == t as nat);
            t += 1;
        }
    }

    /// Adds, for each `t`, the values of `other`'s slot `other_idx[t]` to slot
    /// `acc_idx[t]`, emptying the former.
    pub fn partial_merge(&mut self, acc_idx: &Vec<usize>, other: &mut Self, other_idx: &Vec<usize>)
        requires
            old(self).wf(),
            old(other).wf(),
            acc_idx.len() == other_idx.len(),
            forall|t: int| 0 <= t < acc_idx.len() ==> acc_idx[t] < old(self).slots().len() && other_idx[t] < old(other).slots().len(),
        ensures
            final(self).wf(),
            final(other).wf(),
            (final(self).slots(), final(other).slots()) == list_merges(old(self).slots(), old(other).slots(), acc_idx@, other_idx@, acc_idx.len() as nat),
    {
        let mut t: usize = 0;
        while t < acc_idx.len()
            invariant
                self.wf(),
                other.wf(),
                acc_idx.len() == other_idx.len(),
                self.slots().len() == old(self).slots().len(),
                other.slots().len() == old(other).slots().len(),
                forall|q: int| 0 <= q < acc_idx.len() ==> acc_idx[q] < old(self).slots().len() && other_idx[q] < old(other).slots().len(),
                t <= acc_idx.len(),
                (self.slots(), other.slots()) == list_merges(old(self).slots(), old(other).slots(), acc_idx@, other_idx@, t as nat),
            decreases acc_idx.len() - t,
        {
            self.merge_items(acc_idx[t], other, other_idx[t]);
            assert(((t + 1) as nat - 1) as nat == t as nat);
            t += 1;
        }
    }

    /// Empties the slots `acc_idx` selects, in turn, and returns their values.
    pub fn final_merge(&mut self, acc_idx: &Vec<usize>) -> (r: Vec<Vec<Vec<u8>>>)
        requires
            old(self).wf(),
            forall|t: int| 0 <= t < acc_idx.len() ==> acc_idx[t] < old(self).slots().len(),
        ensures
            final(self).wf(),
            r.len() == acc_idx.len(),
            forall|t: int| 0 <= t < acc_idx.len() ==> views((#[trigger] r[t])@) == taken_before(old(self).slots(), acc_idx@, t),
            final(self).slots() == taken(old(self).slots(), acc_idx@, acc_idx.len() as nat),
    {
        let mut r: Vec<Vec<Vec<u8>>> = Vec::new();
        let mut t: usize = 0;
        while t < acc_idx.len()
            invariant
                self.wf(),
                self.slots().len() == old(self).slots().len(),
                forall|q: int| 0 <= q < acc_idx.len() ==> acc_idx[q] < old(self).slots().len(),
                t <= acc_idx.len(),
                r.len() == t,
                self.slots() == taken(old(self).slots(), acc_idx@, t as nat),
                forall|q: int| 0 <= q < t ==> views((#[trigger] r[q])@) == taken_before(old(self).slots(), acc_idx@, q),
            decreases acc_idx.len() - t,
        {
            let vals = self.take_values(acc_idx[t]);
            r.push(vals);
            assert(((t + 1) as nat - 1) as nat == t as nat);
            t += 1;
        }
        r
    }
}

/// The slots of both columns after the first `k` merges of `partial_merge`.
pub open spec fn list_merges(
    s: Seq<Seq<Seq<u8>>>,
    o: Seq<Seq<Seq<u8>>>,
    acc: Seq<usize>,
    oth: Seq<usize>,
    k: nat,
) -> (Seq<Seq<Seq<u8>>>, Seq<Seq<Seq<u8>>>)
    decreases k,
{
    if k == 0 {
        (s, o)
    } else {
        let (s1, o1) = list_merges(s, o, acc, oth, (k - 1) as nat);
        let t = k - 1;
        (
            s1.update(acc[t] as int, s1[acc[t] as int] + o1[oth[t] as int]),
            o1.update(oth[t] as int, Seq::empty()),
        )
    }
}

/// The slots after the first `k` of the selected slots were taken.
pub open spec fn taken<T>(s: Seq<Seq<T>>, acc: Seq<usize>, k: nat) -> Seq<Seq<T>>
    decreases k,
{
    if k == 0 {
        s
    } else {
        taken(s, acc, (k - 1) as nat).update(acc[k - 1] as int, Seq::empty())
    }
}

/// What the `t`-th take returns: the selected slot as the earlier takes left it.
pub open spec fn taken_before<T>(s: Seq<Seq<T>>, acc: Seq<usize>, t: int) -> Seq<T> {
    taken(s, acc, t as nat)[acc[t] as int]
}

} // verus!

verus! {

/// Once an update is refused, so is every longer run of updates.
proof fn lemma_set_updates_none(
    slots: Seq<Seq<Seq<u8>>>,
    acc: Seq<usize>,
    vals: Seq<Option<Seq<u8>>>,
    args: Seq<usize>,
    k: nat,
    m: nat,
)
    requires
        set_updates(slots, acc, vals, args, k) is None,
        k <= m,
    ensures
        set_updates(slots, acc, vals, args, m) is None,
    decreases m - k,
{
    if k < m {
        lemma_set_updates_none(slots, acc, vals, args, k + 1, m);
    }
}

/// The slots of both set columns after the first `k` merges of `partial_merge`, or
/// `None` once one of them is refused: merge `t` is refused when the two slots'
/// bytes, as the earlier merges left them, together pass 32-bit offsets.
pub open spec fn set_merge_steps(
    s: Seq<Seq<Seq<u8>>>,
    o: Seq<Seq<Seq<u8>>>,
    acc: Seq<usize>,
    oth: Seq<usize>,
    k: nat,
) -> Option<(Seq<Seq<Seq<u8>>>, Seq<Seq<Seq<u8>>>)>
    decreases k,
{
    if k == 0 {
        Some((s, o))
    } else {
        match set_merge_steps(s, o, acc, oth, (k - 1) as nat) {
            None => None,
            Some((s1, o1)) => {
                let a = acc[k - 1] as int;
                let b = oth[k - 1] as int;
                if frames_len(s1[a]) + frames_len(o1[b]) > u32::MAX {
                    None
                } else {
                    Some((s1.update(a, set_merged(s1[a], o1[b])), o1.update(b, Seq::empty())))
                }
            },
        }
    }
}

/// Once a merge is refused, so is every longer run of merges.
proof fn lemma_set_merge_steps_none(
    s: Seq<Seq<Seq<u8>>>,
    o: Seq<Seq<Seq<u8>>>,
    acc: Seq<usize>,
    oth: Seq<usize>,
    k: nat,
    m: nat,
)
    requires
        set_merge_steps(s, o, acc, oth, k) is None,
        k <= m,
    ensures
        set_merge_steps(s, o, acc, oth, m) is None,
    decreases m - k,
{
    if k < m {
        lemma_set_merge_steps_none(s, o, acc, oth, k + 1, m);
    }
}

impl AccSetColumn {
    /// Adds, for each `t`, value `arg_idx[t]` of `values` to slot `acc_idx[t]` unless
    /// the slot holds it; nulls are dropped. Stops at the first value refused.
    pub fn partial_update(&mut self, acc_idx: &Vec<usize>, values: &Vec<Option<Vec<u8>>>, arg_idx: &Vec<usize>) -> (r: Result<(), AccError>)
        requires
            old(self).wf(),
            acc_idx.len() == arg_idx.len(),
            forall|t: int| 0 <= t < acc_idx.len() ==> acc_idx[t] < old(self).slots().len() && arg_idx[t] < values.len(),
        ensures
            final(self).wf(),
            match set_updates(old(self).slots(), acc_idx@, opt_views(values@), arg_idx@, acc_idx.len() as nat) {
                Some(s) => r is Ok && final(self).slots() == s,
                None => r == Err::<(), AccError>(AccError::TooLarge),
            },
    {
        let mut t: usize = 0;
        while t < acc_idx.len()
            invariant
                self.wf(),
                acc_idx.len() == arg_idx.len(),
                self.slots().len() == old(self).slots().len(),
                forall|q: int| 0 <= q < acc_idx.len() ==> acc_idx[q] < old(self).slots().len() && arg_idx[q] < values.len(),
                t <= acc_idx.len(),
                set_updates(old(self).slots(), acc_idx@, opt_views(values@), arg_idx@, t as nat) == Some(self.slots()),
            decreases acc_idx.len() - t,
        {
            let a = acc_idx[t];
            let v = arg_idx[t];
            let ghost vs = opt_views(values@);
            assert(vs[v as int] == match values@[v as int] { Some(b) => Some(b@), None => None });
            assert(((t + 1) as nat - 1) as nat == t as nat);
            match &values[v] {
                Some(x) => {
                    proof {
                        self.lemma_slot(a as int);
                        lemma_frames_len(self.slot_raw(a as int));
                    }
                    let res = self.append_item(a, x);
                    match res {
                        Err(e) => {
                            proof {
                                lemma_set_updates_none(old(self).slots(), acc_idx@, vs, arg_idx@, (t + 1) as nat, acc_idx.len() as nat);
                            }
                            return Err(e);
                        },
                        Ok(()) => {},
                    }
                },
                None => {},
            }
            t += 1;
        }
        Ok(())
    }

    /// Adds, for each `t`, the values of `other`'s slot `other_idx[t]` to slot
    /// `acc_idx[t]`, emptying the former. Stops at the first merge refused.
    pub fn partial_merge(&mut self, acc_idx: &Vec<usize>, other: &mut Self, other_idx: &Vec<usize>) -> (r: Result<(), AccError>)
        requires
            old(self).wf(),
            old(other).wf(),
            acc_idx.len() == other_idx.len(),
            forall|t: int| 0 <= t < acc_idx.len() ==> acc_idx[t] < old(self).slots().len() && other_idx[t] < old(other).slots().len(),
        ensures
            final(self).wf(),
            final(other).wf(),
            match set_merge_steps(old(self).slots(), old(other).slots(), acc_idx@, other_idx@, acc_idx.len() as nat) {
                Some((s, o)) => r is Ok && final(self).slots() == s && final(other).slots() == o,
                None => r == Err::<(), AccError>(AccError::TooLarge),
            },
    {
        let mut t: usize = 0;
        while t < acc_idx.len()
            invariant
                self.wf(),
                other.wf(),
                acc_idx.len() == other_idx.len(),
                self.slots().len() == old(self).slots().len(),
                other.slots().len() == old(other).slots().len(),
                forall|q: int| 0 <= q < acc_idx.len() ==> acc_idx[q] < old(self).slots().len() && other_idx[q] < old(other).slots().len(),
                t <= acc_idx.len(),
                set_merge_steps(old(self).slots(), old(other).slots(), acc_idx@, other_idx@, t as nat) == Some((self.slots(), other.slots())),
            decreases acc_idx.len() - t,
        {
            let ghost s0 = self.slots();
            let ghost o0 = other.slots();
            let a = acc_idx[t];
            let b = other_idx[t];
            proof {
                assert(((t + 1) as nat - 1) as nat == t as nat);
                self.lemma_slot(a as int);
                lemma_frames_len(self.slot_raw(a as int));
                other.lemma_slot(b as int);
                lemma_frames_len(other.slot_raw(b as int));
            }
            let res = self.merge_items(a, other, b);
            match res {
                Err(e) => {
                    proof {
                        lemma_set_merge_steps_none(old(self).slots(), old(other).slots(), acc_idx@, other_idx@, (t + 1) as nat, acc_idx.len() as nat);
                    }
                    return Err(e);
                },
                Ok(()) => {},
            }
            proof {
                assert(self.slots() =~= s0.update(a as int, set_merged(s0[a as int], o0[b as int])));
            }
            t += 1;
        }
        Ok(())
    }

    /// Empties the slots `acc_idx` selects, in turn, and returns their values.
    pub fn final_merge(&mut self, acc_idx: &Vec<usize>) -> (r: Vec<Vec<Vec<u8>>>)
        requires
            old(self).wf(),
            forall|t: int| 0 <= t < acc_idx.len() ==> acc_idx[t] < old(self).slots().len(),
        ensures
            final(self).wf(),
            r.len() == acc_idx.len(),
            forall|t: int| 0 <= t < acc_idx.len() ==> views((#[trigger] r[t])@) == taken_before(old(self).slots(), acc_idx@, t),
            final(self).slots() == taken(old(self).slots(), acc_idx@, acc_idx.len() as nat),
    {
        let mut r: Vec<Vec<Vec<u8>>> = Vec::new();
        let mut t: usize = 0;
        while t < acc_idx.len()
            invariant
                self.wf(),
                self.slots().len() == old(self).slots().len(),
                forall|q: int| 0 <= q < acc_idx.len() ==> acc_idx[q] < old(self).slots().len(),
                t <= acc_idx.len(),
                r.len() == t,
                self.slots() == taken(old(self).slots(), acc_idx@, t as nat),
                forall|q: int| 0 <= q < t ==> views((#[trigger] r[q])@) == taken_before(old(self).slots(), acc_idx@, q),
            decreases acc_idx.len() - t,
        {
            let vals = self.take_values(acc_idx[t]);
            r.push(vals);
            assert(((t + 1) as nat - 1) as nat == t as nat);
            t += 1;
        }
        r
    }
}

} // verus!

verus! {

/// The non-null values among the first `k` updates, in order.
pub open spec fn present_values(vals: Seq<Option<Seq<u8>>>, args: Seq<usize>, k: nat) -> Seq<Seq<u8>>
    decreases k,
{
    if k == 0 {
        Seq::empty()
    } else {
        let p = present_values(vals, args, (k - 1) as nat);
        match vals[args[k - 1] as int] {
            Some(x) => p.push(x),
            None => p,
        }
    }
}

/// Updating an empty list slot with a run of values leaves it holding the non-null
/// ones, in order and with their repeats.
pub proof fn lemma_collect_list(
    slots: Seq<Seq<Seq<u8>>>,
    i: int,
    acc: Seq<usize>,
    vals: Seq<Option<Seq<u8>>>,
    args: Seq<usize>,
    k: nat,
)
    requires
        0 <= i < slots.len(),
        slots[i] == Seq::<Seq<u8>>::empty(),
        k <= acc.len(),
        forall|t: int| 0 <= t < k ==> acc[t] == i,
    ensures
        list_updates(slots, acc, vals, args, k).len() == slots.len(),
        list_updates(slots, acc, vals, args, k)[i] == present_values(vals, args, k),
    decreases k,
{
    if k > 0 {
        lemma_collect_list(slots, i, acc, vals, args, (k - 1) as nat);
    }
}

/// Updating an empty set slot with a run of values, when no update is refused,
/// leaves it holding each distinct non-null value once: no value twice, every value
/// given present, as many as there are distinct ones.
pub proof fn lemma_collect_set(
    slots: Seq<Seq<Seq<u8>>>,
    i: int,
    acc: Seq<usize>,
    vals: Seq<Option<Seq<u8>>>,
    args: Seq<usize>,
    k: nat,
)
    requires
        0 <= i < slots.len(),
        slots[i] == Seq::<Seq<u8>>::empty(),
        k <= acc.len(),
        forall|t: int| 0 <= t < k ==> acc[t] == i,
        set_updates(slots, acc, vals, args, k) is Some,
    ensures
        set_updates(slots, acc, vals, args, k).unwrap().len() == slots.len(),
        set_updates(slots, acc, vals, args, k).unwrap()[i] == dedup(present_values(vals, args, k)),
        dedup(present_values(vals, args, k)).no_duplicates(),
        dedup(present_values(vals, args, k)).to_set() == present_values(vals, args, k).to_set(),
        dedup(present_values(vals, args, k)).len() == present_values(vals, args, k).to_set().len(),
    decreases k,
{
    if k > 0 {
        lemma_collect_set(slots, i, acc, vals, args, (k - 1) as nat);
        let p = present_values(vals, args, (k - 1) as nat);
        match vals[args[k - 1] as int] {
            Some(x) => {
                assert(p.push(x).drop_last() =~= p);
            },
            None => {},
        }
    }
    crate::acc_set::lemma_dedup_is_set(present_values(vals, args, k));
}

} // verus!

verus! {

/// A set slot after offering it the values `xs` one at a time, as `append_item`
/// does, from empty; `None` once one is refused.
pub open spec fn set_appends(xs: Seq<Seq<u8>>) -> Option<Seq<Seq<u8>>>
    decreases xs.len(),
{
    if xs.len() == 0 {
        Some(Seq::empty())
    } else {
        match set_appends(xs.drop_last()) {
            None => None,
            Some(items) => set_step(items, xs.last()),
        }
    }
}

/// Appending a run of values to an empty set slot, when none is refused, leaves
/// each distinct value once: no value twice, every value given present, as many as
/// there are distinct ones.
pub proof fn lemma_set_appends(xs: Seq<Seq<u8>>)
    requires
        set_appends(xs) is Some,
    ensures
        set_appends(xs).unwrap() == dedup(xs),
        dedup(xs).no_duplicates(),
        dedup(xs).to_set() == xs.to_set(),
        dedup(xs).len() == xs.to_set().len(),
    decreases xs.len(),
{
    if xs.len() > 0 {
        lemma_set_appends(xs.drop_last());
    }
    crate::acc_set::lemma_dedup_is_set(xs);
}

} // verus!
