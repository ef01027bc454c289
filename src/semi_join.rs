//! The probe logic of a broadcast semi / anti / existence hash joiner. Keys come
//! as plain values: per row a hash and, unless some key column is null there, the
//! row's key bytes; the caller projects and ships the rows this logic selects.
use std::collections::HashMap;

use vstd::prelude::*;

verus! {

/// The side of the join whose batches are streamed through the joiner.
#[derive(PartialEq, Eq, Structural, Clone, Copy, Debug)]
pub enum ProbeSide {
    L,
    R,
}

#[derive(PartialEq, Eq, Structural, Clone, Copy, Debug)]
pub enum SemiMode {
    Semi,
    Anti,
    Existence,
}

/// Which of the joiner's variants runs: the probed side, whether the probed side
/// is the one whose rows are output, and the mode.
#[derive(PartialEq, Eq, Structural, Clone, Copy, Debug)]
pub struct JoinerParams {
    pub probe_side: ProbeSide,
    pub probe_is_join_side: bool,
    pub mode: SemiMode,
}

impl JoinerParams {
    pub fn new(probe_side: ProbeSide, probe_is_join_side: bool, mode: SemiMode) -> (r: Self)
        ensures
            r.probe_side == probe_side,
            r.probe_is_join_side == probe_is_join_side,
            r.mode == mode,
    {
        JoinerParams { probe_side, probe_is_join_side, mode }
    }
}

/// The view of a nullable key.
pub open spec fn key_view(k: Option<Vec<u8>>) -> Option<Seq<u8>> {
    match k {
        Some(v) => Some(v@),
        None => None,
    }
}

/// The views of a column of nullable keys.
pub open spec fn key_views(ks: Seq<Option<Vec<u8>>>) -> Seq<Option<Seq<u8>>> {
    ks.map_values(|k: Option<Vec<u8>>| key_view(k))
}

/// Build row `j` joins a probe row with hash `h` and key `k`: same hash, and a key
/// that is not null and equal.
pub open spec fn row_joins(mh: Seq<i32>, mk: Seq<Option<Seq<u8>>>, h: i32, k: Option<Seq<u8>>, j: int) -> bool {
    &&& mh[j] == h
    &&& k is Some
    &&& mk[j] == k
}

/// Some build row joins a probe row with hash `h` and key `k`.
pub open spec fn probe_matched(mh: Seq<i32>, mk: Seq<Option<Seq<u8>>>, h: i32, k: Option<Seq<u8>>) -> bool {
    exists|j: int| 0 <= j < mh.len() && row_joins(mh, mk, h, k, j)
}

/// For each row of a probe batch, whether some build row joins it.
pub open spec fn probe_flags(mh: Seq<i32>, mk: Seq<Option<Seq<u8>>>, hs: Seq<i32>, ks: Seq<Option<Seq<u8>>>) -> Seq<bool> {
    Seq::new(hs.len(), |i: int| probe_matched(mh, mk, hs[i], ks[i]))
}

/// Some row of some batch of `hist` joins build row `j`.
pub open spec fn build_matched(
    mh: Seq<i32>,
    mk: Seq<Option<Seq<u8>>>,
    hist: Seq<(Seq<i32>, Seq<Option<Seq<u8>>>)>,
    j: int,
) -> bool {
    exists|b: int, i: int| 0 <= b < hist.len() && 0 <= i < hist[b].0.len() && row_joins(mh, mk, hist[b].0[i], hist[b].1[i], j)
}

/// For each build row, whether some probed row joins it.
pub open spec fn build_flags(mh: Seq<i32>, mk: Seq<Option<Seq<u8>>>, hist: Seq<(Seq<i32>, Seq<Option<Seq<u8>>>)>) -> Seq<bool> {
    Seq::new(mh.len(), |j: int| build_matched(mh, mk, hist, j))
}

/// `r` lists, in ascending order, exactly the positions of `flags` that equal `want`.
pub open spec fn is_selection(r: Seq<usize>, flags: Seq<bool>, want: bool) -> bool {
    &&& forall|a: int, b: int| 0 <= a < b < r.len() ==> r[a] < r[b]
    &&& forall|k: int| 0 <= k < r.len() ==> r[k] < flags.len() && flags[r[k] as int] == want
    &&& forall|i: int| 0 <= i < flags.len() && flags[i] == want ==> r.contains(i as usize)
}

/// What a joiner hands out for one batch or at the end.
pub enum JoinOutput {
    /// Nothing to emit.
    Empty,
    /// The rows to emit, by position.
    Select(Vec<usize>),
    /// Every row, with whether it joined.
    Exists(Vec<bool>),
}

impl JoinOutput {
    /// The number of rows emitted.
    pub open spec fn rows(&self) -> nat {
        match self {
            JoinOutput::Empty => 0,
            JoinOutput::Select(v) => v.len() as nat,
            JoinOutput::Exists(v) => v.len() as nat,
        }
    }
}

/// The output of `mode` over rows with join flags `flags`.
pub open spec fn emission(mode: SemiMode, flags: Seq<bool>, out: JoinOutput) -> bool {
    match mode {
        SemiMode::Semi => out is Select && is_selection(out->Select_0@, flags, true),
        SemiMode::Anti => out is Select && is_selection(out->Select_0@, flags, false),
        SemiMode::Existence => out is Exists && out->Exists_0@ == flags,
    }
}

#[derive(PartialEq, Eq, Structural, Clone, Copy, Debug)]
pub enum JoinError {
    /// The joiner has finished; it takes no more calls.
    Finished,
}

/// A flag per row (bitvec's `BitVec`). Held in a struct of its own: Verus refuses
/// a declaration of `BitVec`, whose parameters are bounded by bitvec's traits.
#[verifier::external_body]
pub struct JoinedBits {
    b: bitvec::vec::BitVec,
}

/// The flags held.
pub uninterp spec fn joined_bits(b: JoinedBits) -> Seq<bool>;

/// Relies on `BitVec::repeat(false, n)`: `n` cleared flags.
#[verifier::external_body]
fn bits_new(n: usize) -> (r: JoinedBits)
    ensures
        joined_bits(r) == Seq::new(n as nat, |i: int| false),
{
    JoinedBits { b: bitvec::vec::BitVec::repeat(false, n) }
}

/// Relies on `BitSlice`'s indexing.
#[verifier::external_body]
fn bits_get(b: &JoinedBits, i: usize) -> (r: bool)
    requires
        i < joined_bits(*b).len(),
    ensures
        r == joined_bits(*b)[i as int],
{
    b.b[i]
}

/// Relies on `BitSlice::set`, which panics only past the end.
#[verifier::external_body]
fn bits_set(b: &mut JoinedBits, i: usize, v: bool)
    requires
        i < joined_bits(*old(b)).len(),
    ensures
        joined_bits(*final(b)) == joined_bits(*old(b)).update(i as int, v),
{
    b.b.set(i, v)
}

/// Relies on `BitSlice::all`: every flag is set (true when there are none).
#[verifier::external_body]
fn bits_all(b: &JoinedBits) -> (r: bool)
    ensures
        r == forall|i: int| 0 <= i < joined_bits(*b).len() ==> joined_bits(*b)[i],
{
    b.b.all()
}

/// A set of hash codes (hashbrown's `HashSet`). Held in a struct of its own:
/// `HashSet` has an allocator parameter, which Verus refuses to declare.
#[verifier::external_body]
pub struct SkipHashes {
    s: hashbrown::HashSet<i32>,
}

/// The hash codes held.
pub uninterp spec fn skip_hashes(s: SkipHashes) -> Set<i32>;

/// Relies on `HashSet::new`: an empty set.
#[verifier::external_body]
fn skip_new() -> (r: SkipHashes)
    ensures
        skip_hashes(r) == Set::<i32>::empty(),
{
    SkipHashes { s: hashbrown::HashSet::new() }
}

/// Relies on `HashSet::contains`.
#[verifier::external_body]
fn skip_contains(s: &SkipHashes, h: i32) -> (r: bool)
    ensures
        r == skip_hashes(*s).contains(h),
{
    s.s.contains(&h)
}

/// Relies on `HashSet::insert`.
#[verifier::external_body]
fn skip_insert(s: &mut SkipHashes, h: i32)
    ensures
        skip_hashes(*final(s)) == skip_hashes(*old(s)).insert(h),
{
    s.s.insert(h);
}

/// `r` lists, in ascending order, exactly the rows before `j` of `hs` whose hash is `h`.
pub open spec fn rows_below(hs: Seq<i32>, h: i32, r: Seq<usize>, j: int) -> bool {
    &&& forall|k: int| 0 <= k < r.len() ==> r[k] < j && hs[r[k] as int] == h
    &&& forall|t: int| 0 <= t < j && hs[t] == h ==> r.contains(t as usize)
    &&& forall|a: int, b: int| 0 <= a < b < r.len() ==> r[a] < r[b]
}

/// The build side: a hash and a nullable key per row, with the rows indexed by hash.
pub struct JoinHashMap {
    hashes: Vec<i32>,
    keys: Vec<Option<Vec<u8>>>,
    index: HashMap<i32, Vec<usize>>,
}

impl JoinHashMap {
    pub closed spec fn spec_hashes(&self) -> Seq<i32> {
        self.hashes@
    }

    pub closed spec fn spec_keys(&self) -> Seq<Option<Seq<u8>>> {
        key_views(self.keys@)
    }

    pub closed spec fn wf(&self) -> bool {
        &&& self.hashes.len() == self.keys.len()
        &&& forall|h: i32| #[trigger] self.index@.contains_key(h) ==> rows_below(self.hashes@, h, self.index@[h]@, self.hashes@.len() as int)
        &&& forall|t: int| 0 <= t < self.hashes@.len() ==> #[trigger] self.index@.contains_key(self.hashes@[t])
    }

    pub fn new(hashes: Vec<i32>, keys: Vec<Option<Vec<u8>>>) -> (r: Self)
        requires
            hashes.len() == keys.len(),
        ensures
            r.wf(),
            r.spec_hashes() == hashes@,
            r.spec_keys() == key_views(keys@),
    {
        broadcast use vstd::std_specs::hash::group_hash_axioms;
        let mut index: HashMap<i32, Vec<usize>> = HashMap::new();
        let mut j: usize = 0;
        while j < hashes.len()
            invariant
                j <= hashes.len(),
                forall|h: i32| #[trigger] index@.contains_key(h) ==> rows_below(hashes@, h, index@[h]@, j as int),
                forall|t: int| 0 <= t < j ==> #[trigger] index@.contains_key(hashes@[t]),
            decreases hashes.len() - j,
        {
            let h = hashes[j];
            let ghost before = index@;
            let mut rows = match index.remove(&h) {
                Some(v) => v,
                None => Vec::new(),
            };
            let ghost old_rows = rows@;
            proof {
                if before.contains_key(h) {
                    assert(old_rows == before[h]@);
                } else {
                    assert forall|t: int| 0 <= t < j implies hashes@[t] != h by {
                        assert(before.contains_key(hashes@[t]));
                    }
                }
            }
            rows.push(j);
            index.insert(h, rows);
            proof {
                assert forall|h2: i32| #[trigger] index@.contains_key(h2) implies rows_below(hashes@, h2, index@[h2]@, j + 1) by {
                    if h2 == h {
                        let r = index@[h2]@;
                        assert(r == old_rows.push(j));
                        assert forall|t: int| 0 <= t < j + 1 && hashes@[t] == h implies r.contains(t as usize) by {
                            if t < j {
                                let k = choose|k: int| 0 <= k < old_rows.len() && old_rows[k] == t as usize;
                                assert(r[k] == t as usize);
                            } else {
                                assert(r[old_rows.len() as int] == t as usize);
                            }
                        }
                    } else {
                        assert(before.contains_key(h2));
                        assert(index@[h2] == before[h2]);
                    }
                }
                assert forall|t: int| 0 <= t < j + 1 implies #[trigger] index@.contains_key(hashes@[t]) by {
                    if t < j && hashes@[t] != h {
                        assert(before.contains_key(hashes@[t]));
                    }
                }
            }
            j += 1;
        }
        JoinHashMap { hashes, keys, index }
    }

    pub fn num_rows(&self) -> (r: usize)
        requires
            self.wf(),
        ensures
            r == self.spec_hashes().len(),
            r == self.spec_keys().len(),
    {
        self.hashes.len()
    }

    /// The build rows with hash `h`, in ascending order.
    pub fn entry_indices(&self, h: i32) -> (r: Vec<usize>)
        requires
            self.wf(),
        ensures
            forall|k: int| 0 <= k < r.len() ==> r[k] < self.spec_hashes().len() && self.spec_hashes()[r[k] as int] == h,
            forall|j: int| 0 <= j < self.spec_hashes().len() && self.spec_hashes()[j] == h ==> r@.contains(j as usize),
            forall|a: int, b: int| 0 <= a < b < r.len() ==> r[a] < r[b],
    {
        broadcast use vstd::std_specs::hash::group_hash_axioms;
        match self.index.get(&h) {
            None => {
                proof {
                    assert forall|j: int| 0 <= j < self.spec_hashes().len() implies self.spec_hashes()[j] != h by {
                        if self.spec_hashes()[j] == h {
                            assert(self.index@.contains_key(self.hashes@[j]));
                        }
                    }
                }
                Vec::new()
            },
            Some(rows) => {
                let mut r: Vec<usize> = Vec::new();
                let mut i: usize = 0;
                while i < rows.len()
                    invariant
                        i <= rows.len(),
                        r@ == rows@.subrange(0, i as int),
                    decreases rows.len() - i,
                {
                    r.push(rows[i]);
                    assert(rows@.subrange(0, i + 1) =~= rows@.subrange(0, i as int).push(rows@[i as int]));
                    i += 1;
                }
                assert(rows@.subrange(0, rows.len() as int) =~= rows@);
                r
            },
        }
    }

    /// Whether build row `j` joins a probe row with key `k`, given equal hashes.
    fn key_equals(&self, j: usize, k: &Option<Vec<u8>>) -> (r: bool)
        requires
            self.wf(),
            j < self.spec_keys().len(),
        ensures
            r == (key_view(*k) is Some && self.spec_keys()[j as int] == key_view(*k)),
    {
        assert(self.spec_keys()[j as int] == key_view(self.keys@[j as int]));
        let a = match k {
            Some(a) => a,
            None => return false,
        };
        let b = match &self.keys[j] {
            Some(b) => b,
            None => return false,
        };
        assert(key_view(*k) == Some(a@));
        assert(self.spec_keys()[j as int] == Some(b@));
        if a.len() != b.len() {
            assert(a@.len() != b@.len());
            return false;
        }
        let mut i: usize = 0;
        while i < a.len()
            invariant
                key_view(*k) == Some(a@),
                j < self.spec_keys().len(),
                self.spec_keys()[j as int] == Some(b@),
                a.len() == b.len(),
                i <= a.len(),
                forall|t: int| 0 <= t < i ==> a@[t] == b@[t],
            decreases a.len() - i,
        {
            if a[i] != b[i] {
                assert(a@[i as int] != b@[i as int]);
                return false;
            }
            i += 1;
        }
        assert(a@ =~= b@);
        true
    }
}

} // verus!

verus! {

/// `j` is joined by some row before `i` of the batch `hs`, `ks`.
pub open spec fn joined_before(
    mh: Seq<i32>,
    mk: Seq<Option<Seq<u8>>>,
    hs: Seq<i32>,
    ks: Seq<Option<Seq<u8>>>,
    i: int,
    j: int,
) -> bool {
    exists|t: int| 0 <= t < i && row_joins(mh, mk, hs[t], ks[t], j)
}

/// The smaller of `n` and `usize::MAX`.
pub open spec fn saturated(n: nat) -> nat {
    if n > usize::MAX { usize::MAX as nat } else { n }
}

/// The probe state of one joiner: the build side, which build rows some probe row
/// joined, and the hashes known to have no build row.
pub struct SemiJoiner {
    params: JoinerParams,
    map: JoinHashMap,
    map_joined: JoinedBits,
    hash_skippable: SkipHashes,
    output_rows: usize,
    finished: bool,
    probed: Ghost<Seq<(Seq<i32>, Seq<Option<Seq<u8>>>)>>,
    emitted: Ghost<nat>,
}

impl SemiJoiner {
    pub closed spec fn spec_params(&self) -> JoinerParams {
        self.params
    }

    pub closed spec fn map_hashes(&self) -> Seq<i32> {
        self.map.spec_hashes()
    }

    pub closed spec fn map_keys(&self) -> Seq<Option<Seq<u8>>> {
        self.map.spec_keys()
    }

    /// The batches probed so far.
    pub closed spec fn history(&self) -> Seq<(Seq<i32>, Seq<Option<Seq<u8>>>)> {
        self.probed@
    }

    pub closed spec fn is_finished(&self) -> bool {
        self.finished
    }

    /// The number of rows handed out so far.
    pub closed spec fn rows_emitted(&self) -> nat {
        self.emitted@
    }

    /// Which build rows are marked joined.
    pub closed spec fn map_flags(&self) -> Seq<bool> {
        joined_bits(self.map_joined)
    }

    /// The hashes that probe rows skip.
    pub closed spec fn skippable(&self) -> Set<i32> {
        skip_hashes(self.hash_skippable)
    }

    pub closed spec fn wf(&self) -> bool {
        &&& self.map.wf()
        &&& joined_bits(self.map_joined).len() == self.map_hashes().len()
        &&& !self.params.probe_is_join_side ==> joined_bits(self.map_joined) == build_flags(
            self.map_hashes(),
            self.map_keys(),
            self.history(),
        )
        &&& forall|h: i32, j: int| #![trigger self.skippable().contains(h), self.map_hashes()[j]]
            self.skippable().contains(h) && 0 <= j < self.map_hashes().len() ==> self.map_hashes()[j] != h
        &&& self.output_rows == saturated(self.emitted@)
    }

    pub proof fn lemma_wf(&self)
        requires
            self.wf(),
        ensures
            self.map_keys().len() == self.map_hashes().len(),
            self.map_hashes().len() <= usize::MAX,
            self.map_flags().len() == self.map_hashes().len(),
            forall|h: i32, j: int| #![trigger self.skippable().contains(h), self.map_hashes()[j]]
                self.skippable().contains(h) && 0 <= j < self.map_hashes().len() ==> self.map_hashes()[j] != h,
    {
    }

    pub fn new(params: JoinerParams, map: JoinHashMap) -> (r: Self)
        requires
            map.wf(),
            params.mode == SemiMode::Existence ==> params.probe_is_join_side,
        ensures
            r.wf(),
            r.spec_params() == params,
            r.map_hashes() == map.spec_hashes(),
            r.map_keys() == map.spec_keys(),
            r.history() == Seq::<(Seq<i32>, Seq<Option<Seq<u8>>>)>::empty(),
            !r.is_finished(),
            r.rows_emitted() == 0,
            r.skippable() == Set::<i32>::empty(),
            r.map_flags() == Seq::new(map.spec_hashes().len(), |j: int| false),
    {
        let map_joined = bits_new(map.num_rows());
        let r = SemiJoiner {
            params,
            map,
            map_joined,
            hash_skippable: skip_new(),
            output_rows: 0,
            finished: false,
            probed: Ghost(Seq::empty()),
            emitted: Ghost(0),
        };
        assert(joined_bits(r.map_joined) =~= build_flags(r.map_hashes(), r.map_keys(), r.history()));
        r
    }

    pub fn params(&self) -> (r: JoinerParams)
        ensures
            r == self.spec_params(),
    {
        self.params
    }

    /// For each probe row, whether some build row joins it.
    fn mark_probed(&self, hs: &Vec<i32>, ks: &Vec<Option<Vec<u8>>>) -> (r: JoinedBits)
        requires
            self.wf(),
            hs.len() == ks.len(),
        ensures
            joined_bits(r) == probe_flags(self.map_hashes(), self.map_keys(), hs@, key_views(ks@)),
    {
        let ghost mh = self.map_hashes();
        let ghost mk = self.map_keys();
        let ghost ksv = key_views(ks@);
        let n = hs.len();
        let mut bits = bits_new(n);
        let mut i: usize = 0;
        while i < n
            invariant
                self.wf(),
                mh == self.map_hashes(),
                mk == self.map_keys(),
                ksv == key_views(ks@),
                n == hs.len(),
                n == ks.len(),
                i <= n,
                joined_bits(bits).len() == n,
                forall|t: int| 0 <= t < i ==> joined_bits(bits)[t] == probe_matched(mh, mk, hs@[t], ksv[t]),
                forall|t: int| i <= t < n ==> !joined_bits(bits)[t],
            decreases n - i,
        {
            let h = hs[i];
            let ghost k = ksv[i as int];
            assert(k == key_view(ks@[i as int]));
            let entries = self.map.entry_indices(h);
            let mut e: usize = 0;
            while e < entries.len()
                invariant
                    self.wf(),
                    mh == self.map_hashes(),
                    mk == self.map_keys(),
                    k == key_view(ks@[i as int]),
                    n == hs.len(),
                    n == ks.len(),
                    i < n,
                    h == hs@[i as int],
                    e <= entries.len(),
                    forall|q: int| 0 <= q < entries.len() ==> entries[q] < mh.len() && mh[entries[q] as int] == h,
                    joined_bits(bits).len() == n,
                    forall|t: int| 0 <= t < n && t != i ==> joined_bits(bits)[t] == (if t < i {
                        probe_matched(mh, mk, hs@[t], key_views(ks@)[t])
                    } else {
                        false
                    }),
                    joined_bits(bits)[i as int] == exists|q: int| 0 <= q < e && row_joins(mh, mk, h, k, entries[q] as int),
                decreases entries.len() - e,
            {
                let j = entries[e];
                let ghost before = joined_bits(bits);
                if self.map.key_equals(j, &ks[i]) {
                    bits_set(&mut bits, i, true);
                    assert(row_joins(mh, mk, h, k, entries[e as int] as int));
                }
                proof {
                    if joined_bits(bits)[i as int] {
                        if !before[i as int] {
                            assert(row_joins(mh, mk, h, k, entries[e as int] as int));
                        } else {
                            let q = choose|q: int| 0 <= q < e && row_joins(mh, mk, h, k, entries[q] as int);
                            assert(0 <= q < e + 1);
                        }
                    } else {
                        assert forall|q: int| 0 <= q < e + 1 implies !row_joins(mh, mk, h, k, entries[q] as int) by {
                            if q < e {
                                assert(!before[i as int]);
                            }
                        }
                    }
                }
                e += 1;
            }
            proof {
                if probe_matched(mh, mk, h, k) {
                    let j = choose|j: int| 0 <= j < mh.len() && row_joins(mh, mk, h, k, j);
                    assert(entries@.contains(j as usize));
                    let q = choose|q: int| 0 <= q < entries.len() && entries@[q] == j as usize;
                    assert(row_joins(mh, mk, h, k, entries[q] as int));
                }
                if joined_bits(bits)[i as int] {
                    let q = choose|q: int| 0 <= q < entries.len() && row_joins(mh, mk, h, k, entries[q] as int);
                    assert(0 <= entries[q] < mh.len());
                }
            }
            i += 1;
        }
        assert(joined_bits(bits) =~= probe_flags(mh, mk, hs@, ksv));
        bits
    }
}

} // verus!

verus! {

impl SemiJoiner {
    /// Marks the build rows that some row of the batch joins, skipping hashes known
    /// to have no build row and recording those newly found to have none.
    fn mark_map(&mut self, hs: &Vec<i32>, ks: &Vec<Option<Vec<u8>>>)
        requires
            old(self).wf(),
            !old(self).spec_params().probe_is_join_side,
            hs.len() == ks.len(),
        ensures
            forall|j: int| 0 <= j < final(self).map_hashes().len() ==> joined_bits(final(self).map_joined)[j] == (joined_bits(old(self).map_joined)[j]
                || joined_before(old(self).map_hashes(), old(self).map_keys(), hs@, key_views(ks@), hs.len() as int, j)),
            joined_bits(final(self).map_joined).len() == joined_bits(old(self).map_joined).len(),
            final(self).map == old(self).map,
            final(self).params == old(self).params,
            final(self).probed == old(self).probed,
            final(self).emitted == old(self).emitted,
            final(self).output_rows == old(self).output_rows,
            final(self).finished == old(self).finished,
            forall|h: i32, j: int| #![trigger skip_hashes(final(self).hash_skippable).contains(h), old(self).map_hashes()[j]]
                skip_hashes(final(self).hash_skippable).contains(h) && 0 <= j < old(self).map_hashes().len() ==> old(self).map_hashes()[j] != h,
    {
        assert forall|h: i32, j: int| #![trigger skip_hashes(self.hash_skippable).contains(h), self.map_hashes()[j]]
            skip_hashes(self.hash_skippable).contains(h) && 0 <= j < self.map_hashes().len() implies self.map_hashes()[j] != h by {
            assert(self.skippable().contains(h));
        }
        let ghost mh = self.map_hashes();
        let ghost mk = self.map_keys();
        let ghost ksv = key_views(ks@);
        let ghost bits0 = joined_bits(self.map_joined);
        let n = hs.len();
        let mut i: usize = 0;
        while i < n
            invariant
                self.map == old(self).map,
                self.params == old(self).params,
                self.probed == old(self).probed,
                self.emitted == old(self).emitted,
                self.output_rows == old(self).output_rows,
                self.finished == old(self).finished,
                self.map.wf(),
                mh == self.map_hashes(),
                mk == self.map_keys(),
                mk.len() == mh.len(),
                ksv == key_views(ks@),
                n == hs.len(),
                n == ks.len(),
                i <= n,
                joined_bits(self.map_joined).len() == mh.len(),
                bits0.len() == mh.len(),
                forall|j: int| 0 <= j < mh.len() ==> #[trigger] joined_bits(self.map_joined)[j] == (bits0[j] || joined_before(mh, mk, hs@, ksv, i as int, j)),
                forall|h: i32, j: int| #![trigger skip_hashes(self.hash_skippable).contains(h), mh[j]]
                    skip_hashes(self.hash_skippable).contains(h) && 0 <= j < mh.len() ==> mh[j] != h,
            decreases n - i,
        {
            let h = hs[i];
            let ghost k = ksv[i as int];
            assert(k == key_view(ks@[i as int]));
            let ghost row_start = joined_bits(self.map_joined);
            let valid = ks[i].is_some();
            let skip = if valid { skip_contains(&self.hash_skippable, h) } else { false };
            if valid && !skip {
                let entries = self.map.entry_indices(h);
                if entries.len() == 0 {
                    let ghost old_skip = skip_hashes(self.hash_skippable);
                    skip_insert(&mut self.hash_skippable, h);
                    proof {
                        assert forall|h2: i32, j: int| #![trigger skip_hashes(self.hash_skippable).contains(h2), mh[j]]
                            skip_hashes(self.hash_skippable).contains(h2) && 0 <= j < mh.len() implies mh[j] != h2 by {
                            if h2 == h {
                                if mh[j] == h {
                                    assert(entries@.contains(j as usize));
                                }
                            } else {
                                assert(old_skip.contains(h2));
                            }
                        }
                    }
                }
                let mut e: usize = 0;
                while e < entries.len()
                    invariant
                        self.map == old(self).map,
                        self.params == old(self).params,
                        self.probed == old(self).probed,
                        self.emitted == old(self).emitted,
                        self.output_rows == old(self).output_rows,
                        self.finished == old(self).finished,
                        self.map.wf(),
                        mh == self.map_hashes(),
                        mk == self.map_keys(),
                        mk.len() == mh.len(),
                        k == key_view(ks@[i as int]),
                        n == ks.len(),
                        i < n,
                        e <= entries.len(),
                        forall|q: int| 0 <= q < entries.len() ==> entries[q] < mh.len() && mh[entries[q] as int] == h,
                        joined_bits(self.map_joined).len() == mh.len(),
                        row_start.len() == mh.len(),
                        forall|j: int| 0 <= j < mh.len() ==> #[trigger] joined_bits(self.map_joined)[j] == (row_start[j] || (
                            row_joins(mh, mk, h, k, j) && exists|q: int| 0 <= q < e && entries@[q] as int == j)),
                        forall|h2: i32, j: int| #![trigger skip_hashes(self.hash_skippable).contains(h2), mh[j]]
                            skip_hashes(self.hash_skippable).contains(h2) && 0 <= j < mh.len() ==> mh[j] != h2,
                    decreases entries.len() - e,
                {
                    let j = entries[e];
                    let ghost before = joined_bits(self.map_joined);
                    assert(mh[j as int] == h);
                    let ghost target = before.update(j as int, before[j as int] || row_joins(mh, mk, h, k, j as int));
                    let already = bits_get(&self.map_joined, j);
                    if !already {
                        let eq = self.map.key_equals(j, &ks[i]);
                        if eq {
                            bits_set(&mut self.map_joined, j, true);
                            assert(row_joins(mh, mk, h, k, j as int));
                            assert(joined_bits(self.map_joined) =~= target);
                        } else {
                            assert(!row_joins(mh, mk, h, k, j as int));
                            assert(joined_bits(self.map_joined) =~= target);
                        }
                    } else {
                        assert(joined_bits(self.map_joined) =~= target);
                    }
                    proof {
                        assert forall|j2: int| 0 <= j2 < mh.len() implies joined_bits(self.map_joined)[j2] == (row_start[j2] || (
                            row_joins(mh, mk, h, k, j2) && exists|q: int| 0 <= q < e + 1 && entries@[q] as int == j2)) by {
                            if j2 == j as int {
                                assert(entries@[e as int] as int == j2);
                                assert(joined_bits(self.map_joined)[j2] == target[j2]);
                                assert(target[j2] == (before[j2] || row_joins(mh, mk, h, k, j2)));
                                assert(before[j2] == (row_start[j2] || (row_joins(mh, mk, h, k, j2) && exists|q: int| 0 <= q < e && entries@[q] as int == j2)));
                                if before[j2] && !row_start[j2] {
                                    let q = choose|q: int| 0 <= q < e && entries@[q] as int == j2;
                                    assert(0 <= q < e + 1);
                                }
                            } else {
                                assert(joined_bits(self.map_joined)[j2] == before[j2]);
                                if exists|q: int| 0 <= q < e + 1 && entries@[q] as int == j2 {
                                    let q = choose|q: int| 0 <= q < e + 1 && entries@[q] as int == j2;
                                    assert(q < e);
                                }
                                if exists|q: int| 0 <= q < e && entries@[q] as int == j2 {
                                    let q = choose|q: int| 0 <= q < e && entries@[q] as int == j2;
                                    assert(q < e + 1);
                                }
                            }
                        }
                    }
                    e += 1;
                }
                proof {
                    assert forall|j: int| 0 <= j < mh.len() implies joined_bits(self.map_joined)[j] == (bits0[j] || joined_before(mh, mk, hs@, ksv, i + 1, j)) by {
                        if row_joins(mh, mk, h, k, j) {
                            assert(entries@.contains(j as usize));
                        }
                        if joined_before(mh, mk, hs@, ksv, i + 1, j) && !joined_before(mh, mk, hs@, ksv, i as int, j) {
                            let t = choose|t: int| 0 <= t < i + 1 && row_joins(mh, mk, hs@[t], ksv[t], j);
                            assert(t == i);
                        }
                        if joined_before(mh, mk, hs@, ksv, i as int, j) {
                            let t = choose|t: int| 0 <= t < i && row_joins(mh, mk, hs@[t], ksv[t], j);
                            assert(0 <= t < i + 1);
                        }
                        if row_joins(mh, mk, h, k, j) {
                            assert(row_joins(mh, mk, hs@[i as int], ksv[i as int], j));
                        }
                    }
                }
            } else {
                proof {
                    assert forall|j: int| 0 <= j < mh.len() implies joined_bits(self.map_joined)[j] == (bits0[j] || joined_before(mh, mk, hs@, ksv, i + 1, j)) by {
                        if ks@[i as int] is None {
                            assert(k is None);
                        } else {
                            assert(skip_hashes(self.hash_skippable).contains(h));
                            assert(mh[j] != h);
                        }
                        assert(!row_joins(mh, mk, hs@[i as int], ksv[i as int], j));
                        if joined_before(mh, mk, hs@, ksv, i + 1, j) {
                            let t = choose|t: int| 0 <= t < i + 1 && row_joins(mh, mk, hs@[t], ksv[t], j);
                            assert(t < i);
                        }
                        if joined_before(mh, mk, hs@, ksv, i as int, j) {
                            let t = choose|t: int| 0 <= t < i && row_joins(mh, mk, hs@[t], ksv[t], j);
                            assert(0 <= t < i + 1);
                        }
                    }
                }
            }
            i += 1;
        }
    }
}

} // verus!

verus! {

/// The positions whose flag equals `want`, in ascending order.
fn select_rows(bits: &JoinedBits, n: usize, want: bool) -> (r: Vec<usize>)
    requires
        n == joined_bits(*bits).len(),
    ensures
        is_selection(r@, joined_bits(*bits), want),
{
    let ghost f = joined_bits(*bits);
    let mut r: Vec<usize> = Vec::new();
    let mut i: usize = 0;
    while i < n
        invariant
            n == f.len(),
            f == joined_bits(*bits),
            i <= n,
            forall|a: int, b: int| 0 <= a < b < r.len() ==> r[a] < r[b],
            forall|k: int| 0 <= k < r.len() ==> r[k] < i && f[r[k] as int] == want,
            forall|t: int| 0 <= t < i && f[t] == want ==> r@.contains(t as usize),
        decreases n - i,
    {
        if bits_get(bits, i) == want {
            let ghost old_r = r@;
            r.push(i);
            proof {
                assert forall|t: int| 0 <= t < i + 1 && f[t] == want implies r@.contains(t as usize) by {
                    if t < i {
                        let k = choose|k: int| 0 <= k < old_r.len() && old_r[k] == t as usize;
                        assert(r@[k] == t as usize);
                    } else {
                        assert(r@[old_r.len() as int] == t as usize);
                    }
                }
            }
        }
        i += 1;
    }
    r
}

/// The flags as a vector.
fn flags_of(bits: &JoinedBits, n: usize) -> (r: Vec<bool>)
    requires
        n == joined_bits(*bits).len(),
    ensures
        r@ == joined_bits(*bits),
{
    let mut r: Vec<bool> = Vec::new();
    let mut i: usize = 0;
    while i < n
        invariant
            n == joined_bits(*bits).len(),
            i <= n,
            r@ == joined_bits(*bits).subrange(0, i as int),
        decreases n - i,
    {
        r.push(bits_get(bits, i));
        assert(joined_bits(*bits).subrange(0, i + 1) =~= joined_bits(*bits).subrange(0, i as int).push(joined_bits(*bits)[i as int]));
        i += 1;
    }
    assert(joined_bits(*bits).subrange(0, n as int) =~= joined_bits(*bits));
    r
}

/// The output of `mode` over `n` rows with flags `bits`.
fn emit(mode: SemiMode, bits: &JoinedBits, n: usize) -> (r: JoinOutput)
    requires
        n == joined_bits(*bits).len(),
    ensures
        emission(mode, joined_bits(*bits), r),
{
    match mode {
        SemiMode::Semi => JoinOutput::Select(select_rows(bits, n, true)),
        SemiMode::Anti => JoinOutput::Select(select_rows(bits, n, false)),
        SemiMode::Existence => JoinOutput::Exists(flags_of(bits, n)),
    }
}

impl JoinOutput {
    pub fn num_rows(&self) -> (r: usize)
        ensures
            r == self.rows(),
    {
        match self {
            JoinOutput::Empty => 0,
            JoinOutput::Select(v) => v.len(),
            JoinOutput::Exists(v) => v.len(),
        }
    }
}

impl SemiJoiner {
    /// A joiner that differs from a well-formed one only in whether it has finished
    /// and how many rows it counts is well-formed.
    proof fn lemma_same_state(&self, o: Self)
        requires
            o.wf(),
            self.params == o.params,
            self.map == o.map,
            self.map_joined == o.map_joined,
            self.hash_skippable == o.hash_skippable,
            self.probed == o.probed || o.params.probe_is_join_side,
            self.output_rows == saturated(self.emitted@),
        ensures
            self.wf(),
            self.map_hashes() == o.map_hashes(),
            self.map_keys() == o.map_keys(),
            self.skippable() == o.skippable(),
    {
        if self.probed == o.probed {
            assert(self.history() == o.history());
        }
        assert(self.map_hashes() == o.map_hashes());
        assert(self.skippable() == o.skippable());
        assert forall|h: i32, j: int| #![trigger self.skippable().contains(h), self.map_hashes()[j]]
            self.skippable().contains(h) && 0 <= j < self.map_hashes().len() implies self.map_hashes()[j] != h by {
            assert(o.skippable().contains(h));
            assert(o.map_hashes()[j] != h);
        }
    }

    /// Counts `out`'s rows as emitted.
    fn count_rows(&mut self, out: &JoinOutput)
        requires
            old(self).output_rows == saturated(old(self).emitted@),
        ensures
            final(self).emitted@ == old(self).emitted@ + out.rows(),
            final(self).output_rows == saturated(final(self).emitted@),
            final(self).params == old(self).params,
            final(self).map == old(self).map,
            final(self).map_joined == old(self).map_joined,
            final(self).hash_skippable == old(self).hash_skippable,
            final(self).finished == old(self).finished,
            final(self).probed == old(self).probed,
    {
        let n = out.num_rows();
        self.output_rows = self.output_rows.saturating_add(n);
        self.emitted = Ghost(self.emitted@ + n as nat);
    }

    /// Probes one batch: per row a hash and, unless some key column is null
    /// there, the key. When the probed side is output, returns this batch's output;
    /// otherwise marks the build rows joined and returns nothing.
    pub fn join(&mut self, hs: &Vec<i32>, ks: &Vec<Option<Vec<u8>>>) -> (r: Result<JoinOutput, JoinError>)
        requires
            old(self).wf(),
            hs.len() == ks.len(),
        ensures
            final(self).wf(),
            old(self).is_finished() ==> r == Err::<JoinOutput, JoinError>(JoinError::Finished) && *final(self) == *old(self),
            !old(self).is_finished() ==> match r {
                Ok(out) => {
                    &&& !final(self).is_finished()
                    &&& final(self).spec_params() == old(self).spec_params()
                    &&& final(self).map_hashes() == old(self).map_hashes()
                    &&& final(self).map_keys() == old(self).map_keys()
                    &&& final(self).history() == old(self).history().push((hs@, key_views(ks@)))
                    &&& old(self).spec_params().probe_is_join_side ==> emission(
                        old(self).spec_params().mode,
                        probe_flags(old(self).map_hashes(), old(self).map_keys(), hs@, key_views(ks@)),
                        out,
                    ) && final(self).rows_emitted() == old(self).rows_emitted() + out.rows()
                        && final(self).map_flags() == old(self).map_flags()
                        && final(self).skippable() == old(self).skippable()
                    &&& !old(self).spec_params().probe_is_join_side ==> out is Empty
                        && final(self).rows_emitted() == old(self).rows_emitted()
                },
                Err(_) => false,
            },
    {
        if self.finished {
            return Err(JoinError::Finished);
        }
        let ghost mh = self.map_hashes();
        let ghost mk = self.map_keys();
        let ghost hist = self.history();
        let ghost batch = (hs@, key_views(ks@));
        if self.params.probe_is_join_side {
            let bits = self.mark_probed(hs, ks);
            let out = emit(self.params.mode, &bits, hs.len());
            self.count_rows(&out);
            self.probed = Ghost(self.probed@.push(batch));
            proof { self.lemma_same_state(*old(self)); }
            Ok(out)
        } else {
            let ghost bits0 = joined_bits(self.map_joined);
            self.mark_map(hs, ks);
            self.probed = Ghost(self.probed@.push(batch));
            proof {
                let h2 = self.history();
                assert forall|j: int| 0 <= j < mh.len() implies build_matched(mh, mk, h2, j) == (build_matched(mh, mk, hist, j)
                    || joined_before(mh, mk, hs@, key_views(ks@), hs.len() as int, j)) by {
                    if build_matched(mh, mk, h2, j) {
                        let (b, i) = choose|b: int, i: int| 0 <= b < h2.len() && 0 <= i < h2[b].0.len() && row_joins(mh, mk, h2[b].0[i], h2[b].1[i], j);
                        if b < hist.len() {
                            assert(h2[b] == hist[b]);
                            assert(row_joins(mh, mk, hist[b].0[i], hist[b].1[i], j));
                        } else {
                            assert(h2[b] == batch);
                            assert(row_joins(mh, mk, hs@[i], key_views(ks@)[i], j));
                        }
                    }
                    if build_matched(mh, mk, hist, j) {
                        let (b, i) = choose|b: int, i: int| 0 <= b < hist.len() && 0 <= i < hist[b].0.len() && row_joins(mh, mk, hist[b].0[i], hist[b].1[i], j);
                        assert(h2[b] == hist[b]);
                        assert(row_joins(mh, mk, h2[b].0[i], h2[b].1[i], j));
                    }
                    if joined_before(mh, mk, hs@, key_views(ks@), hs.len() as int, j) {
                        let t = choose|t: int| 0 <= t < hs.len() && row_joins(mh, mk, hs@[t], key_views(ks@)[t], j);
                        assert(h2[hist.len() as int] == batch);
                        assert(row_joins(mh, mk, h2[hist.len() as int].0[t], h2[hist.len() as int].1[t], j));
                    }
                }
                assert(joined_bits(self.map_joined) =~= build_flags(mh, mk, h2));
                assert forall|h: i32, j: int| #![trigger self.skippable().contains(h), self.map_hashes()[j]]
                    self.skippable().contains(h) && 0 <= j < self.map_hashes().len() implies self.map_hashes()[j] != h by {
                    assert(skip_hashes(self.hash_skippable).contains(h));
                    assert(self.map_hashes() == mh);
                    assert(mh[j] != h);
                }
            }
            Ok(JoinOutput::Empty)
        }
    }

    /// Ends probing. When the build side is output, returns its rows as the mode
    /// selects them over every batch probed; otherwise returns nothing.
    pub fn finish(&mut self) -> (r: Result<JoinOutput, JoinError>)
        requires
            old(self).wf(),
        ensures
            final(self).wf(),
            final(self).is_finished(),
            old(self).is_finished() ==> r == Err::<JoinOutput, JoinError>(JoinError::Finished) && *final(self) == *old(self),
            !old(self).is_finished() ==> match r {
                Ok(out) => {
                    &&& final(self).spec_params() == old(self).spec_params()
                    &&& final(self).map_hashes() == old(self).map_hashes()
                    &&& final(self).map_keys() == old(self).map_keys()
                    &&& final(self).history() == old(self).history()
                    &&& !old(self).spec_params().probe_is_join_side ==> emission(
                        old(self).spec_params().mode,
                        build_flags(old(self).map_hashes(), old(self).map_keys(), old(self).history()),
                        out,
                    ) && final(self).rows_emitted() == old(self).rows_emitted() + out.rows()
                    &&& old(self).spec_params().probe_is_join_side ==> out is Empty
                        && final(self).rows_emitted() == old(self).rows_emitted()
                },
                Err(_) => false,
            },
    {
        if self.finished {
            return Err(JoinError::Finished);
        }
        self.finished = true;
        if self.params.probe_is_join_side {
            proof {
                self.lemma_same_state(*old(self));
                assert(self.history() == old(self).history());
            }
            return Ok(JoinOutput::Empty);
        }
        let n = self.map.num_rows();
        let out = emit(self.params.mode, &self.map_joined, n);
        self.count_rows(&out);
        proof {
            self.lemma_same_state(*old(self));
            assert(self.history() == old(self).history());
        }
        Ok(out)
    }

    /// Whether no further batch can change the output: the build side is output
    /// and every build row is joined.
    pub fn can_early_stop(&self) -> (r: bool)
        requires
            self.wf(),
        ensures
            r == (!self.spec_params().probe_is_join_side && forall|j: int| 0 <= j < self.map_hashes().len()
                ==> build_flags(self.map_hashes(), self.map_keys(), self.history())[j]),
    {
        !self.params.probe_is_join_side && bits_all(&self.map_joined)
    }

    /// The number of rows handed out, saturated at `usize::MAX`.
    pub fn num_output_rows(&self) -> (r: usize)
        requires
            self.wf(),
        ensures
            r == saturated(self.rows_emitted()),
    {
        self.output_rows
    }
}

} // verus!

verus! {

/// Semi and anti output over the same rows split them: every row is in exactly
/// one of the two, and neither holds anything else.
pub proof fn lemma_semi_anti_partition(flags: Seq<bool>, semi: Seq<usize>, anti: Seq<usize>)
    requires
        is_selection(semi, flags, true),
        is_selection(anti, flags, false),
        flags.len() <= usize::MAX,
    ensures
        forall|i: int| #![trigger semi.contains(i as usize)] #![trigger anti.contains(i as usize)]
            0 <= i < flags.len() ==> semi.contains(i as usize) != anti.contains(i as usize),
        forall|k: int| 0 <= k < semi.len() ==> semi[k] < flags.len(),
        forall|k: int| 0 <= k < anti.len() ==> anti[k] < flags.len(),
{
    assert forall|i: int| #![trigger semi.contains(i as usize)] #![trigger anti.contains(i as usize)]
        0 <= i < flags.len() implies semi.contains(i as usize) != anti.contains(i as usize) by {
        if flags[i] {
            assert(semi.contains(i as usize));
        } else {
            assert(anti.contains(i as usize));
        }
        if semi.contains(i as usize) {
            let k = choose|k: int| 0 <= k < semi.len() && semi[k] == i as usize;
            assert(flags[semi[k] as int]);
        }
        if anti.contains(i as usize) {
            let k = choose|k: int| 0 <= k < anti.len() && anti[k] == i as usize;
            assert(!flags[anti[k] as int]);
        }
    }
}

/// Existence output has one flag per row, set exactly for the rows that semi
/// output over the same rows holds.
pub proof fn lemma_existence_is_semi(flags: Seq<bool>, exists_col: Seq<bool>, semi: Seq<usize>)
    requires
        exists_col == flags,
        is_selection(semi, flags, true),
        flags.len() <= usize::MAX,
    ensures
        exists_col.len() == flags.len(),
        forall|i: int| 0 <= i < flags.len() ==> exists_col[i] == semi.contains(i as usize),
{
    assert forall|i: int| 0 <= i < flags.len() implies exists_col[i] == semi.contains(i as usize) by {
        if flags[i] {
            assert(semi.contains(i as usize));
        }
        if semi.contains(i as usize) {
            let k = choose|k: int| 0 <= k < semi.len() && semi[k] == i as usize;
            assert(flags[semi[k] as int]);
        }
    }
}

/// A probe row whose hash no build row has joins nothing, so skipping it cannot
/// change what the joiner outputs.
pub proof fn lemma_skipped_row_joins_nothing(mh: Seq<i32>, mk: Seq<Option<Seq<u8>>>, h: i32, k: Option<Seq<u8>>)
    requires
        forall|j: int| 0 <= j < mh.len() ==> mh[j] != h,
    ensures
        !probe_matched(mh, mk, h, k),
        forall|j: int| 0 <= j < mh.len() ==> !row_joins(mh, mk, h, k, j),
{
}

} // verus!
