//! One group's de-duplicated set of values: a buffer of frames plus an index of
//! `(offset, length)` pairs into it, a short inline list up to `SMALL_CAP` values
//! and a hash table above.
use std::hash::BuildHasher;

use vstd::prelude::*;

use crate::acc_list::AccList;
use crate::frame::{frame, parse_frames, prepend, read_le32, views};

verus! {

/// The most values the inline list holds before the set switches to a hash table.
pub const SMALL_CAP: usize = 4;

/// The bytes one `(offset, length)` entry of the index is counted as.
pub const PAIR_SIZE: u64 = 8;

/// The seed of the value hash; fixed, so that every process agrees on it.
pub const ACC_HASH_SEED: u64 = 0x7BCB48DA;

/// Why an accumulator operation was refused.
#[derive(PartialEq, Eq, Structural, Clone, Copy, Debug)]
pub enum AccError {
    /// The group's buffer would pass the reach of 32-bit offsets.
    TooLarge,
    /// Stored bytes are not a valid encoding.
    Malformed,
}

/// The values of `s`, each kept at its first occurrence.
pub open spec fn dedup(s: Seq<Seq<u8>>) -> Seq<Seq<u8>>
    decreases s.len(),
{
    if s.len() == 0 {
        s
    } else {
        let d = dedup(s.drop_last());
        if d.contains(s.last()) {
            d
        } else {
            d.push(s.last())
        }
    }
}

/// The values of two sets after merging them: the larger one's values in order,
/// then the other's values that it lacks.
pub open spec fn set_merged(a: Seq<Seq<u8>>, b: Seq<Seq<u8>>) -> Seq<Seq<u8>> {
    if a.len() < b.len() {
        dedup(b + a)
    } else {
        dedup(a + b)
    }
}

/// The bytes at `p = (offset, length)` of `raw`.
pub open spec fn slice_at(raw: Seq<u8>, p: (u32, u32)) -> Seq<u8> {
    raw.subrange(p.0 as int, p.0 + p.1)
}

pub open spec fn in_bounds(raw: Seq<u8>, p: (u32, u32)) -> bool {
    p.0 + p.1 <= raw.len()
}

/// What foldhash's fixed-seed hasher gives for a byte string.
pub uninterp spec fn fold_hash_of(seed: u64, b: Seq<u8>) -> u64;

/// Relies on `foldhash::fast::FixedState::with_seed(seed).hash_one(&[u8])`: a
/// function of the seed and the bytes alone (the shared seed is the fixed global one).
#[verifier::external_body]
fn acc_hash(seed: u64, raw: &Vec<u8>, start: usize, end: usize) -> (r: u64)
    requires
        start <= end <= raw.len(),
    ensures
        r == fold_hash_of(seed, raw@.subrange(start as int, end as int)),
{
    foldhash::fast::FixedState::with_seed(seed).hash_one(&raw[start..end])
}

/// Whether `p` lies in `raw` and its bytes are `x`.
fn pair_matches(raw: &Vec<u8>, p: (u32, u32), x: &Vec<u8>) -> (r: bool)
    ensures
        r == (in_bounds(raw@, p) && slice_at(raw@, p) == x@),
{
    let off = p.0 as usize;
    let len = p.1 as usize;
    if off > raw.len() || len > raw.len() - off || len != x.len() {
        return false;
    }
    let mut i: usize = 0;
    while i < len
        invariant
            off == p.0,
            len == p.1,
            off + len <= raw.len(),
            len == x.len(),
            i <= len,
            forall|j: int| 0 <= j < i ==> raw@[off + j] == x@[j],
        decreases len - i,
    {
        if raw[off + i] != x[i] {
            assert(slice_at(raw@, p)[i as int] != x@[i as int]);
            return false;
        }
        i += 1;
    }
    assert(slice_at(raw@, p) =~= x@);
    true
}

/// The hash of the bytes at `p`; 0 for a pair outside `raw`.
fn pair_hash(raw: &Vec<u8>, p: (u32, u32)) -> (r: u64)
    ensures
        in_bounds(raw@, p) ==> r == fold_hash_of(ACC_HASH_SEED, slice_at(raw@, p)),
{
    let off = p.0 as usize;
    let len = p.1 as usize;
    if off > raw.len() || len > raw.len() - off {
        return 0;
    }
    acc_hash(ACC_HASH_SEED, raw, off, off + len)
}

/// An inline list of pairs (smallvec's `SmallVec`). Held in a struct of its own:
/// Verus refuses a declaration of `SmallVec`, whose parameter is bounded by
/// smallvec's `Array` trait.
#[verifier::external_body]
pub struct SmallPairs {
    v: smallvec::SmallVec<[(u32, u32); 4]>,
}

/// The pairs an inline list holds, in order.
pub uninterp spec fn small_pairs(s: SmallPairs) -> Seq<(u32, u32)>;

/// Relies on `SmallVec::new`: an empty list.
#[verifier::external_body]
fn small_new() -> (r: SmallPairs)
    ensures
        small_pairs(r) == Seq::<(u32, u32)>::empty(),
{
    SmallPairs { v: smallvec::SmallVec::new() }
}

/// Relies on `SmallVec::len`.
#[verifier::external_body]
fn small_len(s: &SmallPairs) -> (r: usize)
    ensures
        r == small_pairs(*s).len(),
{
    s.v.len()
}

/// Relies on `SmallVec`'s indexing.
#[verifier::external_body]
fn small_get(s: &SmallPairs, i: usize) -> (r: (u32, u32))
    requires
        i < small_pairs(*s).len(),
    ensures
        r == small_pairs(*s)[i as int],
{
    s.v[i]
}

/// Relies on `SmallVec::push`: the pair goes at the end.
#[verifier::external_body]
fn small_push(s: &mut SmallPairs, p: (u32, u32))
    ensures
        small_pairs(*final(s)) == small_pairs(*old(s)).push(p),
{
    s.v.push(p)
}

/// A hash table of pairs (hashbrown's `RawTable`). Held in a struct of its own:
/// `RawTable` has an allocator parameter, which Verus refuses to declare.
#[verifier::external_body]
pub struct HugePairs {
    t: hashbrown::raw::RawTable<(u32, u32)>,
}

/// The entries of a table: each pair with the hash it was inserted under.
pub uninterp spec fn huge_entries(t: HugePairs) -> Set<(u64, (u32, u32))>;

/// Relies on `RawTable::new`: an empty table.
#[verifier::external_body]
fn huge_new() -> (r: HugePairs)
    ensures
        huge_entries(r) == Set::<(u64, (u32, u32))>::empty(),
{
    HugePairs { t: hashbrown::raw::RawTable::new() }
}

/// Relies on `RawTable::len`: the number of items inserted.
#[verifier::external_body]
fn huge_len(t: &HugePairs) -> (r: usize)
    ensures
        r == huge_entries(*t).len(),
{
    t.t.len()
}

/// Relies on `RawTable::get`: it finds an item inserted under `hash` that `eq`
/// accepts whenever there is one, and only returns items that `eq` accepts.
#[verifier::external_body]
fn huge_contains(t: &HugePairs, hash: u64, raw: &Vec<u8>, x: &Vec<u8>) -> (r: bool)
    ensures
        r ==> exists|e: (u64, (u32, u32))|
            huge_entries(*t).contains(e) && in_bounds(raw@, e.1) && slice_at(raw@, e.1) == x@,
        !r ==> forall|e: (u64, (u32, u32))|
            huge_entries(*t).contains(e) && e.0 == hash ==> !(in_bounds(raw@, e.1) && slice_at(
                raw@,
                e.1,
            ) == x@),
{
    t.t.get(hash, |p| pair_matches(raw, *p, x)).is_some()
}

/// Relies on `RawTable::insert`: the pair is added under `hash`; when the table
/// grows, every item is moved by the hash `hasher` gives, which is the hash it was
/// inserted under.
#[verifier::external_body]
fn huge_insert(t: &mut HugePairs, hash: u64, p: (u32, u32), raw: &Vec<u8>)
    requires
        forall|e: (u64, (u32, u32))| #[trigger]
            huge_entries(*old(t)).contains(e) ==> in_bounds(raw@, e.1) && e.0 == fold_hash_of(
                ACC_HASH_SEED,
                slice_at(raw@, e.1),
            ) && e.1 != p,
        in_bounds(raw@, p),
        hash == fold_hash_of(ACC_HASH_SEED, slice_at(raw@, p)),
    ensures
        huge_entries(*final(t)) == huge_entries(*old(t)).insert((hash, p)),
{
    t.t.insert(hash, p, |q| pair_hash(raw, *q));
}

} // verus!

verus! {

/// The index of an `AccSet`: an inline list while small, a hash table above.
pub enum InternalSet {
    Small(SmallPairs),
    Huge(HugePairs),
}

/// Each pair of `s` locates the value of `items` at its position.
pub open spec fn small_located(raw: Seq<u8>, items: Seq<Seq<u8>>, s: Seq<(u32, u32)>) -> bool {
    &&& s.len() == items.len()
    &&& forall|k: int| 0 <= k < s.len() ==> in_bounds(raw, #[trigger] s[k]) && slice_at(raw, s[k]) == items[k]
}

/// Each entry locates a value of `items` and carries that value's hash; each value
/// has an entry; one entry per value.
pub open spec fn huge_located(raw: Seq<u8>, items: Seq<Seq<u8>>, e: Set<(u64, (u32, u32))>) -> bool {
    &&& e.finite()
    &&& e.len() == items.len()
    &&& forall|ent: (u64, (u32, u32))| #[trigger] e.contains(ent) ==> {
        &&& in_bounds(raw, ent.1)
        &&& ent.0 == fold_hash_of(ACC_HASH_SEED, slice_at(raw, ent.1))
        &&& items.contains(slice_at(raw, ent.1))
    }
    &&& forall|k: int| 0 <= k < items.len() ==> has_entry(raw, e, #[trigger] items[k])
}

/// Some entry of `e` locates `x`.
pub open spec fn has_entry(raw: Seq<u8>, e: Set<(u64, (u32, u32))>, x: Seq<u8>) -> bool {
    exists|ent: (u64, (u32, u32))| #[trigger] e.contains(ent) && in_bounds(raw, ent.1) && slice_at(raw, ent.1) == x
}

pub open spec fn index_wf(raw: Seq<u8>, items: Seq<Seq<u8>>, set: InternalSet) -> bool {
    match set {
        InternalSet::Small(s) => small_located(raw, items, small_pairs(s)) && small_pairs(s).len() <= SMALL_CAP,
        InternalSet::Huge(t) => huge_located(raw, items, huge_entries(t)),
    }
}

proof fn lemma_slice_stable(raw: Seq<u8>, ext: Seq<u8>, p: (u32, u32))
    requires
        in_bounds(raw, p),
    ensures
        in_bounds(raw + ext, p),
        slice_at(raw + ext, p) == slice_at(raw, p),
{
    assert(slice_at(raw + ext, p) =~= slice_at(raw, p));
}

proof fn lemma_new_pair(raw: Seq<u8>, x: Seq<u8>)
    requires
        raw.len() + 4 + x.len() <= u32::MAX,
    ensures
        ({
            let p = ((raw.len() + 4) as u32, x.len() as u32);
            in_bounds(raw + frame(x), p) && slice_at(raw + frame(x), p) == x
        }),
{
    let p = ((raw.len() + 4) as u32, x.len() as u32);
    assert(slice_at(raw + frame(x), p) =~= x);
}

/// Adding a value at the end keeps an inline list located.
proof fn lemma_small_push(raw: Seq<u8>, items: Seq<Seq<u8>>, s: Seq<(u32, u32)>, x: Seq<u8>)
    requires
        small_located(raw, items, s),
        raw.len() + 4 + x.len() <= u32::MAX,
    ensures
        small_located(raw + frame(x), items.push(x), s.push(((raw.len() + 4) as u32, x.len() as u32))),
{
    let p = ((raw.len() + 4) as u32, x.len() as u32);
    lemma_new_pair(raw, x);
    assert forall|k: int| 0 <= k < s.len() + 1 implies in_bounds(raw + frame(x), #[trigger] s.push(p)[k])
        && slice_at(raw + frame(x), s.push(p)[k]) == items.push(x)[k] by {
        if k < s.len() {
            lemma_slice_stable(raw, frame(x), s[k]);
        }
    }
}

/// Adding a new value at the end keeps a table located.
proof fn lemma_huge_push(raw: Seq<u8>, items: Seq<Seq<u8>>, e: Set<(u64, (u32, u32))>, x: Seq<u8>)
    requires
        huge_located(raw, items, e),
        !items.contains(x),
        raw.len() + 4 + x.len() <= u32::MAX,
    ensures
        ({
            let p = ((raw.len() + 4) as u32, x.len() as u32);
            &&& !e.contains((fold_hash_of(ACC_HASH_SEED, x), p))
            &&& forall|ent: (u64, (u32, u32))| #[trigger] e.contains(ent) ==> in_bounds(raw + frame(x), ent.1)
                && ent.0 == fold_hash_of(ACC_HASH_SEED, slice_at(raw + frame(x), ent.1)) && ent.1 != p
            &&& huge_located(raw + frame(x), items.push(x), e.insert((fold_hash_of(ACC_HASH_SEED, x), p)))
        }),
{
    let p = ((raw.len() + 4) as u32, x.len() as u32);
    let raw2 = raw + frame(x);
    let items2 = items.push(x);
    let ne = (fold_hash_of(ACC_HASH_SEED, x), p);
    let e2 = e.insert(ne);
    lemma_new_pair(raw, x);
    assert forall|ent: (u64, (u32, u32))| #[trigger] e.contains(ent) implies in_bounds(raw2, ent.1) && ent.0
        == fold_hash_of(ACC_HASH_SEED, slice_at(raw2, ent.1)) && ent.1 != p by {
        lemma_slice_stable(raw, frame(x), ent.1);
    }
    assert forall|ent: (u64, (u32, u32))| #[trigger] e2.contains(ent) implies {
        &&& in_bounds(raw2, ent.1)
        &&& ent.0 == fold_hash_of(ACC_HASH_SEED, slice_at(raw2, ent.1))
        &&& items2.contains(slice_at(raw2, ent.1))
    } by {
        if ent != ne {
            lemma_slice_stable(raw, frame(x), ent.1);
            let k = choose|k: int| 0 <= k < items.len() && items[k] == slice_at(raw, ent.1);
            assert(items2[k] == items[k]);
        } else {
            assert(items2[items.len() as int] == x);
        }
    }
    assert forall|k: int| 0 <= k < items2.len() implies has_entry(raw2, e2, #[trigger] items2[k]) by {
        if k < items.len() {
            let ent = choose|ent: (u64, (u32, u32))| #[trigger]
                e.contains(ent) && in_bounds(raw, ent.1) && slice_at(raw, ent.1) == items[k];
            lemma_slice_stable(raw, frame(x), ent.1);
            assert(e2.contains(ent));
        } else {
            assert(e2.contains(ne));
        }
    }
}

/// Builds the table of an inline list that has outgrown it.
fn to_huge(s: &SmallPairs, raw: &Vec<u8>, Ghost(items): Ghost<Seq<Seq<u8>>>) -> (r: HugePairs)
    requires
        small_located(raw@, items, small_pairs(*s)),
        items.no_duplicates(),
    ensures
        huge_located(raw@, items, huge_entries(r)),
{
    let ps = Ghost(small_pairs(*s));
    let n = small_len(s);
    let mut t = huge_new();
    let mut i: usize = 0;
    while i < n
        invariant
            n == ps@.len(),
            ps@ == small_pairs(*s),
            small_located(raw@, items, ps@),
            items.no_duplicates(),
            i <= n,
            huge_entries(t).finite(),
            huge_entries(t).len() == i,
            forall|ent: (u64, (u32, u32))| #[trigger] huge_entries(t).contains(ent) ==> exists|j: int|
                0 <= j < i && ent.1 == #[trigger] ps@[j] && ent.0 == fold_hash_of(ACC_HASH_SEED, items[j]),
            forall|j: int| 0 <= j < i ==> #[trigger] huge_entries(t).contains(
                (fold_hash_of(ACC_HASH_SEED, items[j]), ps@[j]),
            ),
        decreases n - i,
    {
        let p = small_get(s, i);
        let h = pair_hash(raw, p);
        proof {
            assert(in_bounds(raw@, ps@[i as int]));
            assert forall|ent: (u64, (u32, u32))| #[trigger] huge_entries(t).contains(ent) implies in_bounds(
                raw@,
                ent.1,
            ) && ent.0 == fold_hash_of(ACC_HASH_SEED, slice_at(raw@, ent.1)) && ent.1 != p by {
                let j = choose|j: int|
                    0 <= j < i && ent.1 == #[trigger] ps@[j] && ent.0 == fold_hash_of(ACC_HASH_SEED, items[j]);
                assert(in_bounds(raw@, ps@[j]));
                assert(items[j] != items[i as int]);
            }
        }
        huge_insert(&mut t, h, p, raw);
        proof {
            assert forall|ent: (u64, (u32, u32))| #[trigger] huge_entries(t).contains(ent) implies exists|j: int|
                0 <= j < i + 1 && ent.1 == #[trigger] ps@[j] && ent.0 == fold_hash_of(ACC_HASH_SEED, items[j]) by {
                if ent == (h, p) {
                    assert(ent.1 == ps@[i as int]);
                }
            }
        }
        i += 1;
    }
    proof {
        let e = huge_entries(t);
        assert(e.len() == items.len());
        assert forall|ent: (u64, (u32, u32))| #[trigger] e.contains(ent) implies {
            &&& in_bounds(raw@, ent.1)
            &&& ent.0 == fold_hash_of(ACC_HASH_SEED, slice_at(raw@, ent.1))
            &&& items.contains(slice_at(raw@, ent.1))
        } by {
            let j = choose|j: int|
                0 <= j < n && ent.1 == #[trigger] ps@[j] && ent.0 == fold_hash_of(ACC_HASH_SEED, items[j]);
            assert(in_bounds(raw@, ps@[j]));
        }
        assert forall|k: int| 0 <= k < items.len() implies has_entry(raw@, e, #[trigger] items[k]) by {
            assert(in_bounds(raw@, ps@[k]));
            assert(e.contains((fold_hash_of(ACC_HASH_SEED, items[k]), ps@[k])));
        }
        assert(huge_located(raw@, items, e));
    }
    t
}

} // verus!

verus! {

/// The accumulated values of one `collect_set` group: each distinct value once,
/// in the order first seen.
pub struct AccSet {
    list: AccList,
    set: InternalSet,
}

impl AccSet {
    /// The distinct values held, in the order first seen.
    pub closed spec fn items(&self) -> Seq<Seq<u8>> {
        self.list.items()
    }

    /// The number of framed bytes in the buffer.
    pub closed spec fn raw_size(&self) -> nat {
        self.list.raw_bytes().len()
    }

    /// The framed bytes of the buffer.
    pub closed spec fn raw_bytes(&self) -> Seq<u8> {
        self.list.raw_bytes()
    }

    pub proof fn lemma_raw(&self)
        requires
            self.wf(),
        ensures
            parse_frames(self.raw_bytes()) == Some(self.items()),
            self.raw_bytes().len() == self.raw_size(),
    {
        self.list.lemma_raw();
    }

    /// The framed bytes of the buffer.
    pub fn raw(&self) -> (r: &Vec<u8>)
        ensures
            r@ == self.raw_bytes(),
    {
        self.list.raw()
    }

    /// The buffer's capacity and the index's estimated size.
    pub closed spec fn spec_mem_size(&self) -> nat {
        (self.list.spec_mem_size() + PAIR_SIZE * self.items().len()) as nat
    }

    /// Whether the index is the hash table.
    pub closed spec fn spec_is_huge(&self) -> bool {
        self.set is Huge
    }

    pub closed spec fn wf(&self) -> bool {
        &&& self.list.wf()
        &&& self.items().no_duplicates()
        &&& self.raw_size() <= u32::MAX
        &&& index_wf(self.list.raw_bytes(), self.items(), self.set)
        &&& self.spec_is_huge() == (self.items().len() > SMALL_CAP)
    }

    pub proof fn lemma_wf(&self)
        requires
            self.wf(),
        ensures
            self.items().no_duplicates(),
            self.raw_size() <= u32::MAX,
            self.spec_is_huge() == (self.items().len() > SMALL_CAP),
            self.spec_mem_size() <= u64::MAX,
    {
        self.list.lemma_raw();
        crate::frame::lemma_items_bound(self.list.raw_bytes());
    }

    pub fn new() -> (r: Self)
        ensures
            r.wf(),
            r.items() == Seq::<Seq<u8>>::empty(),
            r.raw_size() == 0,
            r.spec_mem_size() == 0,
    {
        let list = AccList::new();
        proof { list.lemma_raw(); }
        AccSet { list, set: InternalSet::Small(small_new()) }
    }

    /// The number of distinct values held.
    pub fn len(&self) -> (r: usize)
        requires
            self.wf(),
        ensures
            r == self.items().len(),
    {
        match &self.set {
            InternalSet::Small(s) => small_len(s),
            InternalSet::Huge(t) => huge_len(t),
        }
    }

    /// Whether the index is the hash table.
    pub fn is_huge(&self) -> (r: bool)
        ensures
            r == self.spec_is_huge(),
    {
        match &self.set {
            InternalSet::Small(_) => false,
            InternalSet::Huge(_) => true,
        }
    }

    pub fn mem_size(&self) -> (r: u64)
        requires
            self.wf(),
        ensures
            r == self.spec_mem_size(),
    {
        proof {
            self.lemma_wf();
        }
        let n = self.len();
        self.list.mem_size() as u64 + PAIR_SIZE * n as u64
    }

    /// Whether `x` is one of the values held.
    pub fn contains(&self, x: &Vec<u8>) -> (r: bool)
        requires
            self.wf(),
        ensures
            r == self.items().contains(x@),
    {
        let raw = self.list.raw();
        match &self.set {
            InternalSet::Small(s) => {
                let ghost ps = small_pairs(*s);
                let n = small_len(s);
                let mut i: usize = 0;
                while i < n
                    invariant
                        self.wf(),
                        self.set == InternalSet::Small(*s),
                        raw@ == self.list.raw_bytes(),
                        ps == small_pairs(*s),
                        n == ps.len(),
                        i <= n,
                        forall|j: int| 0 <= j < i ==> self.items()[j] != x@,
                    decreases n - i,
                {
                    if pair_matches(raw, small_get(s, i), x) {
                        return true;
                    }
                    i += 1;
                }
                false
            },
            InternalSet::Huge(t) => {
                let h = acc_hash(ACC_HASH_SEED, x, 0, x.len());
                assert(x@.subrange(0, x.len() as int) =~= x@);
                let r = huge_contains(t, h, raw, x);
                proof {
                    if !r && self.items().contains(x@) {
                        let k = choose|k: int| 0 <= k < self.items().len() && self.items()[k] == x@;
                        assert(has_entry(raw@, huge_entries(*t), self.items()[k]));
                    }
                }
                r
            },
        }
    }

    /// Adds `value` unless it is already held. Refused, with nothing changed, when a
    /// new value would take the buffer past 32-bit offsets.
    pub fn append(&mut self, value: &Vec<u8>) -> (r: Result<(), AccError>)
        requires
            old(self).wf(),
        ensures
            final(self).wf(),
            old(self).items().contains(value@) ==> r is Ok && final(self).items() == old(self).items(),
            !old(self).items().contains(value@) && old(self).raw_size() + 4 + value.len() > u32::MAX
                ==> r == Err::<(), AccError>(AccError::TooLarge) && final(self).items() == old(self).items(),
            !old(self).items().contains(value@) && old(self).raw_size() + 4 + value.len() <= u32::MAX
                ==> r is Ok && final(self).items() == old(self).items().push(value@)
                && final(self).raw_size() == old(self).raw_size() + 4 + value.len(),
            final(self).items() == old(self).items() ==> final(self).raw_size() == old(self).raw_size(),
            r is Err ==> *final(self) == *old(self),
    {
        if self.contains(value) {
            return Ok(());
        }
        let old_len = self.list.raw_len();
        if old_len > u32::MAX as usize || value.len() > u32::MAX as usize - old_len || 4 > u32::MAX as usize - old_len - value.len() {
            return Err(AccError::TooLarge);
        }
        let ghost raw0 = self.list.raw_bytes();
        let ghost items0 = self.items();
        let p: (u32, u32) = ((old_len + 4) as u32, value.len() as u32);
        self.list.append(value);
        let mut set = InternalSet::Small(small_new());
        std::mem::swap(&mut set, &mut self.set);
        proof {
            self.list.lemma_raw();
            assert(items0.push(value@).no_duplicates());
        }
        let set2 = match set {
            InternalSet::Small(mut s) => {
                proof { lemma_small_push(raw0, items0, small_pairs(s), value@); }
                small_push(&mut s, p);
                if small_len(&s) > SMALL_CAP {
                    InternalSet::Huge(to_huge(&s, self.list.raw(), Ghost(self.items())))
                } else {
                    InternalSet::Small(s)
                }
            },
            InternalSet::Huge(mut t) => {
                proof { lemma_huge_push(raw0, items0, huge_entries(t), value@); }
                let h = acc_hash(ACC_HASH_SEED, value, 0, value.len());
                assert(value@.subrange(0, value.len() as int) =~= value@);
                proof { lemma_new_pair(raw0, value@); }
                huge_insert(&mut t, h, p, self.list.raw());
                InternalSet::Huge(t)
            },
        };
        self.set = set2;
        Ok(())
    }

    /// Adds the values of `other` that this set lacks and empties `other`. Refused,
    /// with nothing changed, when the two buffers together pass 32-bit offsets.
    pub fn merge(&mut self, other: &mut Self) -> (r: Result<(), AccError>)
        requires
            old(self).wf(),
            old(other).wf(),
        ensures
            final(self).wf(),
            final(other).wf(),
            old(self).raw_size() + old(other).raw_size() > u32::MAX ==> r == Err::<(), AccError>(
                AccError::TooLarge,
            ) && *final(self) == *old(self) && *final(other) == *old(other),
            old(self).raw_size() + old(other).raw_size() <= u32::MAX ==> r is Ok
                && final(self).items() == set_merged(old(self).items(), old(other).items())
                && final(self).items().to_set() == old(self).items().to_set().union(old(other).items().to_set())
                && final(other).items() == Seq::<Seq<u8>>::empty(),
    {
        if self.list.raw_len() > u32::MAX as usize - other.list.raw_len() {
            return Err(AccError::TooLarge);
        }
        let ghost whole = old(self).items().to_set().union(old(other).items().to_set());
        if self.len() < other.len() {
            std::mem::swap(self, other);
        }
        let mut taken = AccSet::new();
        std::mem::swap(&mut taken, other);
        let ghost base_items = self.items();
        let ghost base = self.raw_size();
        let ghost titems = taken.items();
        proof {
            self.lemma_wf();
            lemma_dedup_unique(base_items);
            assert(base_items + Seq::<Seq<u8>>::empty() =~= base_items);
            taken.list.lemma_raw();
            assert(base_items.to_set().union(titems.to_set()) =~= whole);
            assert(titems.subrange(0, 0) =~= Seq::<Seq<u8>>::empty());
            assert(base_items.to_set().union(Seq::<Seq<u8>>::empty().to_set()) =~= base_items.to_set());
            assert(taken.list.raw_bytes().subrange(0, taken.list.raw_bytes().len() as int) =~= taken.list.raw_bytes());
            assert(prepend(Seq::<Seq<u8>>::empty(), Some(titems)) == Some(titems)) by {
                assert(Seq::<Seq<u8>>::empty() + titems =~= titems);
            }
        }
        let raw = taken.list.raw();
        let mut pos: usize = 0;
        let ghost mut done: Seq<Seq<u8>> = Seq::empty();
        while pos < raw.len()
            invariant
                self.wf(),
                raw@ == taken.list.raw_bytes(),
                base + raw.len() <= u32::MAX,
                pos <= raw.len(),
                self.raw_size() <= base + pos,
                parse_frames(raw@) == Some(titems),
                parse_frames(raw@) == prepend(done, parse_frames(raw@.subrange(pos as int, raw.len() as int))),
                self.items().to_set() == base_items.to_set().union(done.to_set()),
                self.items() == dedup(base_items + done),
            decreases raw.len() - pos,
        {
            let ghost suf = raw@.subrange(pos as int, raw.len() as int);
            let ghost rest = parse_frames(suf).unwrap();
            assert(suf[0] == raw@[pos as int] && suf[1] == raw@[pos + 1] && suf[2] == raw@[pos + 2] && suf[3] == raw@[pos + 3]);
            let n: u32 = read_le32(raw, pos);
            let end: usize = pos + 4 + n as usize;
            let y = crate::frame::copy_range(raw, pos + 4, end);
            proof {
                assert(suf.subrange(4 + n, suf.len() as int) =~= raw@.subrange(end as int, raw.len() as int));
                assert(suf.subrange(4, 4 + n) =~= y@);
                let rest2 = parse_frames(raw@.subrange(end as int, raw.len() as int)).unwrap();
                assert(done + (seq![y@] + rest2) =~= done.push(y@) + rest2);
            }
            let ghost before = self.items();
            let res = self.append(&y);
            proof {
                before.lemma_push_to_set_commute(y@);
                done.lemma_push_to_set_commute(y@);
                if !before.contains(y@) {
                    assert(before.push(y@)[before.len() as int] == y@);
                }
                assert(before.contains(y@) ==> before.to_set().insert(y@) =~= before.to_set());
                assert(self.items().to_set() =~= base_items.to_set().union(done.push(y@).to_set()));
                assert(base_items + done.push(y@) =~= (base_items + done).push(y@));
                assert((base_items + done).push(y@).drop_last() =~= base_items + done);
                done = done.push(y@);
            }
            pos = end;
        }
        proof {
            assert(raw@.subrange(pos as int, raw.len() as int) =~= Seq::<u8>::empty());
            assert(done + Seq::<Seq<u8>>::empty() =~= done);
            assert(done == titems);
            assert(self.items().to_set() =~= whole);
        }
        Ok(())
    }

    /// A set of the values that the framed buffer `b` holds, each once; `None` when
    /// `b` is not a sequence of frames.
    pub fn from_frames(b: &Vec<u8>) -> (r: Option<Self>)
        requires
            b.len() <= u32::MAX,
        ensures
            match r {
                Some(s) => parse_frames(b@) is Some && s.wf() && s.items() == dedup(parse_frames(b@).unwrap()),
                None => parse_frames(b@) is None,
            },
    {
        match crate::frame::decode_frames(b) {
            None => return None,
            Some(_) => {},
        }
        let ghost all = parse_frames(b@).unwrap();
        let mut set = AccSet::new();
        let mut pos: usize = 0;
        let ghost mut done: Seq<Seq<u8>> = Seq::empty();
        proof {
            assert(b@.subrange(0, b.len() as int) =~= b@);
            assert(Seq::<Seq<u8>>::empty() + all =~= all);
            assert(dedup(done) == Seq::<Seq<u8>>::empty());
        }
        while pos < b.len()
            invariant
                set.wf(),
                pos <= b.len() <= u32::MAX,
                set.raw_size() <= pos,
                parse_frames(b@) == Some(all),
                parse_frames(b@) == prepend(done, parse_frames(b@.subrange(pos as int, b.len() as int))),
                set.items() == dedup(done),
            decreases b.len() - pos,
        {
            let ghost suf = b@.subrange(pos as int, b.len() as int);
            assert(suf[0] == b@[pos as int] && suf[1] == b@[pos + 1] && suf[2] == b@[pos + 2] && suf[3] == b@[pos + 3]);
            let n: u32 = read_le32(b, pos);
            let end: usize = pos + 4 + n as usize;
            let y = crate::frame::copy_range(b, pos + 4, end);
            proof {
                assert(suf.subrange(4 + n, suf.len() as int) =~= b@.subrange(end as int, b.len() as int));
                assert(suf.subrange(4, 4 + n) =~= y@);
                let rest2 = parse_frames(b@.subrange(end as int, b.len() as int)).unwrap();
                assert(done + (seq![y@] + rest2) =~= done.push(y@) + rest2);
                assert(done.push(y@).drop_last() =~= done);
            }
            let _ = set.append(&y);
            proof {
                done = done.push(y@);
            }
            pos = end;
        }
        proof {
            assert(b@.subrange(pos as int, b.len() as int) =~= Seq::<u8>::empty());
            assert(done + Seq::<Seq<u8>>::empty() =~= done);
        }
        Some(set)
    }

    /// The distinct values held, in the order first seen.
    pub fn into_values(self) -> (r: Vec<Vec<u8>>)
        requires
            self.wf(),
        ensures
            views(r@) == self.items(),
            views(r@).no_duplicates(),
    {
        self.list.into_values()
    }
}

} // verus!

verus! {

/// Adding values one at a time to a set, in any order and with repeats, leaves
/// each distinct value exactly once: no value twice, every value added present,
/// and as many values as there are distinct ones.
pub proof fn lemma_dedup_is_set(s: Seq<Seq<u8>>)
    ensures
        dedup(s).no_duplicates(),
        dedup(s).to_set() == s.to_set(),
        dedup(s).len() == s.to_set().len(),
    decreases s.len(),
{
    if s.len() > 0 {
        let p = s.drop_last();
        let x = s.last();
        lemma_dedup_is_set(p);
        let d = dedup(p);
        assert(s =~= p.push(x));
        p.lemma_push_to_set_commute(x);
        d.lemma_push_to_set_commute(x);
        if !d.contains(x) {
            assert(d.push(x).no_duplicates()) by {
                assert forall|a: int, b: int| 0 <= a < b < d.len() + 1 implies d.push(x)[a] != d.push(x)[b] by {
                    if b == d.len() {
                        assert(d[a] == d.push(x)[a]);
                    }
                }
            }
        } else {
            assert(d.to_set().insert(x) =~= d.to_set());
        }
    }
    dedup(s).unique_seq_to_set();
}

/// A sequence without repeats is its own de-duplication.
pub proof fn lemma_dedup_unique(s: Seq<Seq<u8>>)
    requires
        s.no_duplicates(),
    ensures
        dedup(s) == s,
    decreases s.len(),
{
    if s.len() > 0 {
        let p = s.drop_last();
        assert(p.no_duplicates());
        lemma_dedup_unique(p);
        assert(!p.contains(s.last()));
        assert(p.push(s.last()) =~= s);
    }
}

/// Merging sets is associative and commutative: merged contents are unions.
pub proof fn lemma_set_merge_laws(a: Seq<Seq<u8>>, b: Seq<Seq<u8>>, c: Seq<Seq<u8>>)
    ensures
        a.to_set().union(b.to_set()).union(c.to_set()) == a.to_set().union(b.to_set().union(c.to_set())),
        a.to_set().union(b.to_set()) == b.to_set().union(a.to_set()),
{
    assert(a.to_set().union(b.to_set()).union(c.to_set()) =~= a.to_set().union(b.to_set().union(c.to_set())));
    assert(a.to_set().union(b.to_set()) =~= b.to_set().union(a.to_set()));
}

} // verus!
