//! The dispatch table and its lookup.
use vstd::prelude::*;

use crate::hashing::{hash_bytes, xxh3_128_of};

verus! {

/// A callback of a matcher: any value that can be called with the matcher's
/// argument type.
#[derive(Clone, Copy)]
pub struct Function<F>(pub F);

/// Construction failed: the pattern at `index` hashes to the same value as
/// an earlier pattern.
#[derive(Clone, Copy, Debug, PartialEq, Eq, Structural)]
pub struct Collision {
    pub index: usize,
}

/// `s` is sorted in strictly ascending order.
pub open spec fn strictly_ascending(s: Seq<u128>) -> bool {
    forall|a: int, b: int| 0 <= a < b < s.len() ==> s[a] < s[b]
}

/// The hash of each pattern of `ps`, in the order of `ps`.
pub open spec fn key_hashes<F>(ps: Seq<(&[u8], Function<F>)>) -> Seq<u128> {
    Seq::new(ps.len(), |i: int| xxh3_128_of(ps[i].0@))
}

/// `j` is the first index of `hs` whose value already occurs before it.
pub open spec fn first_repeat(hs: Seq<u128>, j: int) -> bool {
    &&& 0 <= j < hs.len()
    &&& hs.take(j).no_duplicates()
    &&& hs.take(j).contains(hs[j])
}

/// The callback of each pair of `ps`, in the order of `ps`.
spec fn callbacks<F>(ps: Seq<(&[u8], Function<F>)>) -> Seq<Function<F>> {
    Seq::new(ps.len(), |i: int| ps[i].1)
}

/// Each of the first `j` pairs `(hs[i], fs[i])` is among the first `j`
/// stored entries.
#[verifier::opaque]
spec fn all_stored<F>(hashes: Seq<u128>, branches: Seq<Function<F>>, hs: Seq<u128>, fs: Seq<Function<F>>, j: int) -> bool {
    forall|i: int| #![trigger hs[i]] 0 <= i < j ==> exists|k: int| 0 <= k < j && #[trigger] hashes[k] == hs[i] && branches[k] == fs[i]
}

/// Each of the first `j` stored entries is among the first `j` pairs.
#[verifier::opaque]
spec fn all_sourced<F>(hashes: Seq<u128>, branches: Seq<Function<F>>, hs: Seq<u128>, fs: Seq<Function<F>>, j: int) -> bool {
    forall|k: int| #![trigger hashes[k]] 0 <= k < j ==> exists|i: int| 0 <= i < j && #[trigger] hs[i] == hashes[k] && branches[k] == fs[i]
}

/// The first `j` pairs and the first `j` stored entries correspond.
spec fn pairs_match<F>(hashes: Seq<u128>, branches: Seq<Function<F>>, hs: Seq<u128>, fs: Seq<Function<F>>, j: int) -> bool {
    all_stored(hashes, branches, hs, fs, j) && all_sourced(hashes, branches, hs, fs, j)
}

/// Inserting `key` where it belongs keeps a strictly ascending sequence so,
/// and `key` was not in it before.
proof fn lemma_insert_ascending(s: Seq<u128>, idx: int, key: u128)
    requires
        strictly_ascending(s),
        0 <= idx <= s.len(),
        forall|k: int| 0 <= k < idx ==> s[k] < key,
        idx < s.len() ==> key < s[idx],
    ensures
        strictly_ascending(s.insert(idx, key)),
        !s.contains(key),
{
    let t = s.insert(idx, key);
    assert forall|k: int| idx <= k < s.len() implies key < #[trigger] s[k] by {
        if k > idx {
            assert(s[idx] < s[k]);
        }
    }
    assert forall|a: int, b: int| 0 <= a < b < t.len() implies t[a] < t[b] by {
        if b > idx && a < idx {
            assert(s[a] < key);
        } else if a > idx {
            assert(s[a - 1] < s[b - 1]);
        }
    }
}

/// Storing pair `j` at `idx`, the entries after it moving up by one,
/// extends the correspondence by one pair.
proof fn lemma_insert_pairs<F>(
    hashes: Seq<u128>,
    branches: Seq<Function<F>>,
    nh: Seq<u128>,
    nb: Seq<Function<F>>,
    hs: Seq<u128>,
    fs: Seq<Function<F>>,
    j: int,
    idx: int,
)
    requires
        pairs_match(hashes, branches, hs, fs, j),
        0 <= idx <= j,
        nh[idx] == hs[j],
        nb[idx] == fs[j],
        forall|k: int| 0 <= k < idx ==> nh[k] == hashes[k] && nb[k] == branches[k],
        forall|k: int| idx < k <= j ==> nh[k] == hashes[k - 1] && nb[k] == branches[k - 1],
    ensures
        pairs_match(nh, nb, hs, fs, j + 1),
{
    reveal(all_stored);
    reveal(all_sourced);
    assert forall|i: int| #![trigger hs[i]] 0 <= i < j + 1 implies exists|k: int| 0 <= k < j + 1 && #[trigger] nh[k] == hs[i] && nb[k] == fs[i] by {
        if i < j {
            let k0 = choose|k: int| 0 <= k < j && #[trigger] hashes[k] == hs[i] && branches[k] == fs[i];
            if k0 < idx {
                assert(nh[k0] == hs[i]);
            } else {
                assert(nh[k0 + 1] == hs[i]);
            }
        } else {
            assert(nh[idx] == hs[i]);
        }
    }
    assert forall|k: int| #![trigger nh[k]] 0 <= k < j + 1 implies exists|i: int| 0 <= i < j + 1 && #[trigger] hs[i] == nh[k] && nb[k] == fs[i] by {
        if k < idx {
            let i = choose|i: int| 0 <= i < j && #[trigger] hs[i] == hashes[k] && branches[k] == fs[i];
            assert(hs[i] == nh[k]);
        } else if k == idx {
            assert(hs[j] == nh[k]);
        } else {
            let i = choose|i: int| 0 <= i < j && #[trigger] hs[i] == hashes[k - 1] && branches[k - 1] == fs[i];
            assert(hs[i] == nh[k]);
        }
    }
}

/// The first index of the ascending `hashes` whose value is not below `key`
/// (the length when there is none).
fn first_not_below(hashes: &Vec<u128>, key: u128) -> (idx: usize)
    ensures
        idx <= hashes@.len(),
        forall|k: int| 0 <= k < idx ==> hashes@[k] < key,
        idx < hashes@.len() ==> key <= hashes@[idx as int],
{
    let mut idx: usize = 0;
    while idx < hashes.len() && hashes[idx] < key
        invariant
            0 <= idx <= hashes@.len(),
            forall|k: int| 0 <= k < idx ==> hashes@[k] < key,
        decreases hashes@.len() - idx,
    {
        idx += 1;
    }
    idx
}

/// A dispatch table: pattern hashes in ascending order, the callback of each
/// hash at the same index, and a default callback.
pub struct Matcher<F> {
    hashes: Vec<u128>,
    branches: Vec<Function<F>>,
    default: Function<F>,
}

impl<F> Matcher<F> {
    /// The stored hashes, in storage order.
    pub closed spec fn hashes(&self) -> Seq<u128> {
        self.hashes@
    }

    /// The stored callbacks; the one at index `k` belongs to `hashes()[k]`.
    pub closed spec fn branches(&self) -> Seq<Function<F>> {
        self.branches@
    }

    /// The callback used when no stored hash matches.
    pub closed spec fn default_branch(&self) -> Function<F> {
        self.default
    }

    /// The table is sorted without repeats and each hash has a callback.
    pub open spec fn wf(&self) -> bool {
        &&& strictly_ascending(self.hashes())
        &&& self.branches().len() == self.hashes().len()
    }

    /// `key` is stored at index `k`.
    pub open spec fn stored_at(&self, key: u128, k: int) -> bool {
        0 <= k < self.hashes().len() && self.hashes()[k] == key
    }

    /// The callback that a lookup of `key` selects.
    pub open spec fn target(&self, key: u128) -> Function<F> {
        if exists|k: int| self.stored_at(key, k) {
            self.branches()[choose|k: int| self.stored_at(key, k)]
        } else {
            self.default_branch()
        }
    }

    /// Entry `k` of the table holds the hash of `p`'s pattern and `p`'s
    /// callback.
    pub open spec fn holds_at(&self, k: int, p: (&[u8], Function<F>)) -> bool {
        &&& 0 <= k < self.hashes().len()
        &&& self.hashes()[k] == xxh3_128_of(p.0@)
        &&& self.branches()[k] == p.1
    }

    /// Some entry of the table holds `p`.
    pub open spec fn stores(&self, p: (&[u8], Function<F>)) -> bool {
        exists|k: int| self.holds_at(k, p)
    }

    /// Entry `k` of the table holds some pair of `ps`.
    pub open spec fn entry_from(&self, k: int, ps: Seq<(&[u8], Function<F>)>) -> bool {
        exists|i: int| 0 <= i < ps.len() && self.holds_at(k, ps[i])
    }

    /// The table holds exactly the pairs of `ps`, each callback under the
    /// hash of its pattern, and `default` as its default callback.
    pub open spec fn built_from(&self, ps: Seq<(&[u8], Function<F>)>, default: Function<F>) -> bool {
        &&& self.hashes().len() == ps.len()
        &&& self.default_branch() == default
        &&& forall|i: int| 0 <= i < ps.len() ==> #[trigger] self.stores(ps[i])
        &&& forall|k: int| 0 <= k < self.hashes().len() ==> #[trigger] self.entry_from(k, ps)
    }

    /// From the correspondence kept while building: each pair is stored.
    proof fn lemma_stores_each(&self, ps: Seq<(&[u8], Function<F>)>)
        requires
            all_stored(self.hashes(), self.branches(), key_hashes(ps), callbacks(ps), ps.len() as int),
            self.hashes().len() == ps.len(),
        ensures
            forall|i: int| 0 <= i < ps.len() ==> #[trigger] self.stores(ps[i]),
    {
        reveal(all_stored);
        let hs = key_hashes(ps);
        let fs = callbacks(ps);
        assert forall|i: int| 0 <= i < ps.len() implies #[trigger] self.stores(ps[i]) by {
            assert(hs[i] == xxh3_128_of(ps[i].0@));
            assert(fs[i] == ps[i].1);
            let k = choose|k: int| 0 <= k < ps.len() && #[trigger] self.hashes()[k] == hs[i] && self.branches()[k] == fs[i];
            assert(self.holds_at(k, ps[i]));
        }
    }

    /// From the correspondence kept while building: each entry is a pair.
    proof fn lemma_holds_only(&self, ps: Seq<(&[u8], Function<F>)>)
        requires
            all_sourced(self.hashes(), self.branches(), key_hashes(ps), callbacks(ps), ps.len() as int),
            self.hashes().len() == ps.len(),
        ensures
            forall|k: int| 0 <= k < self.hashes().len() ==> #[trigger] self.entry_from(k, ps),
    {
        reveal(all_sourced);
        let hs = key_hashes(ps);
        let fs = callbacks(ps);
        assert forall|k: int| 0 <= k < self.hashes().len() implies #[trigger] self.entry_from(k, ps) by {
            let i = choose|i: int| 0 <= i < ps.len() && #[trigger] hs[i] == self.hashes()[k] && self.branches()[k] == fs[i];
            assert(hs[i] == xxh3_128_of(ps[i].0@));
            assert(fs[i] == ps[i].1);
            assert(self.holds_at(k, ps[i]));
        }
    }

    /// Builds the table from `patterns` and `default`. Each pattern is hashed
    /// in input order and placed by an insertion-sort step among the hashes
    /// placed before it. Fails on the first pattern whose hash equals that of
    /// an earlier one.
    #[verifier::rlimit(50)]
    pub fn new<const N: usize>(patterns: [(&[u8], Function<F>); N], default: Function<F>) -> (r: Result<Self, Collision>)
        where F: Copy,
        ensures
            (r is Ok) <==> key_hashes(patterns@).no_duplicates(),
            match r {
                Ok(m) => m.wf() && m.built_from(patterns@, default),
                Err(c) => first_repeat(key_hashes(patterns@), c.index as int),
            },
    {
        let ghost hs = key_hashes(patterns@);
        let ghost ps = patterns@;
        let ghost fs = callbacks(ps);
        let mut hashes: Vec<u128> = Vec::new();
        let mut branches: Vec<Function<F>> = Vec::new();
        let mut j: usize = 0;
        proof {
            reveal(all_stored);
            reveal(all_sourced);
        }
        while j < N
            invariant
                ps == patterns@,
                hs == key_hashes(ps),
                fs == callbacks(ps),
                ps.len() == N,
                0 <= j <= N,
                hashes@.len() == j,
                branches@.len() == j,
                strictly_ascending(hashes@),
                hs.take(j as int).no_duplicates(),
                pairs_match(hashes@, branches@, hs, fs, j as int),
            decreases N - j,
        {
            let (key, function) = patterns[j];
            let key_hash = hash_bytes(key);
            assert(key_hash == hs[j as int]);
            let idx = first_not_below(&hashes, key_hash);
            if idx < hashes.len() && hashes[idx] == key_hash {
                proof {
                    reveal(all_sourced);
                    let i = choose|i: int| 0 <= i < j && #[trigger] hs[i] == hashes@[idx as int] && branches@[idx as int] == fs[i];
                    assert(hs.take(j as int)[i] == hs[j as int]);
                    assert(hs[i] == hs[j as int]);
                }
                return Err(Collision { index: j });
            }
            let ghost old_hashes = hashes@;
            let ghost old_branches = branches@;
            proof {
                lemma_insert_ascending(hashes@, idx as int, key_hash);
                let prefix = hs.take(j as int);
                assert(!prefix.contains(key_hash)) by {
                    if prefix.contains(key_hash) {
                        reveal(all_stored);
                        let i = choose|i: int| 0 <= i < j && prefix[i] == key_hash;
                        assert(hs[i] == key_hash);
                        let k = choose|k: int| 0 <= k < j && #[trigger] old_hashes[k] == hs[i] && old_branches[k] == fs[i];
                        assert(old_hashes.contains(key_hash));
                    }
                }
                let longer = hs.take(j as int + 1);
                assert(longer =~= prefix.push(key_hash));
                assert forall|a: int, b: int| 0 <= a < longer.len() && 0 <= b < longer.len() && a != b implies longer[a] != longer[b] by {
                    if a < j && b < j {
                        assert(prefix[a] != prefix[b]);
                    } else if a < j {
                        assert(prefix.contains(prefix[a]));
                    } else {
                        assert(prefix.contains(prefix[b]));
                    }
                }
            }
            hashes.insert(idx, key_hash);
            branches.insert(idx, function);
            proof {
                assert(fs[j as int] == function);
                lemma_insert_pairs(old_hashes, old_branches, hashes@, branches@, hs, fs, j as int, idx as int);
            }
            j += 1;
        }
        proof {
            assert(hs.take(N as int) =~= hs);
        }
        let m = Matcher { hashes, branches, default };
        proof {
            m.lemma_stores_each(ps);
            m.lemma_holds_only(ps);
        }
        Ok(m)
    }

    /// In a well-formed table a stored key selects the callback beside it.
    pub proof fn lemma_target_at(&self, key: u128, k: int)
        requires
            self.wf(),
            self.stored_at(key, k),
        ensures
            self.target(key) == self.branches()[k],
    {
        let c = choose|c: int| self.stored_at(key, c);
        if c < k {
            assert(self.hashes()[c] < self.hashes()[k]);
        } else if k < c {
            assert(self.hashes()[k] < self.hashes()[c]);
        }
    }

    /// Calls the callback that `key` selects: the one stored under `key`, or
    /// the default one when `key` is not stored.
    pub fn dispatch<ARGS, R>(&self, key: u128, args: ARGS) -> (r: R)
        where F: Fn(ARGS) -> R,
        requires
            self.wf(),
            call_requires(self.target(key).0, (args,)),
        ensures
            call_ensures(self.target(key).0, (args,), r),
    {
        match self.find(key) {
            Some(k) => {
                proof {
                    self.lemma_target_at(key, k as int);
                }
                (self.branches[k].0)(args)
            },
            None => (self.default.0)(args),
        }
    }

    /// Hashes `pattern` and calls the callback that its hash selects.
    pub fn call<ARGS, R>(&self, pattern: &[u8], args: ARGS) -> (r: R)
        where F: Fn(ARGS) -> R,
        requires
            self.wf(),
            forall|k: int| 0 <= k < self.branches().len() ==> call_requires(#[trigger] self.branches()[k].0, (args,)),
            call_requires(self.default_branch().0, (args,)),
        ensures
            call_ensures(self.target(xxh3_128_of(pattern@)).0, (args,), r),
    {
        let key = hash_bytes(pattern);
        proof {
            if exists|k: int| self.stored_at(key, k) {
                let k = choose|k: int| self.stored_at(key, k);
                self.lemma_target_at(key, k);
            }
        }
        self.dispatch(key, args)
    }

    /// The number of stored patterns.
    pub fn len(&self) -> (r: usize)
        ensures
            r == self.hashes().len(),
    {
        self.hashes.len()
    }

    /// Looks `key` up by binary search: the index where it is stored, or
    /// `None` when it is not stored.
    pub fn find(&self, key: u128) -> (r: Option<usize>)
        requires
            self.wf(),
        ensures
            match r {
                Some(k) => self.stored_at(key, k as int),
                None => forall|k: int| !self.stored_at(key, k),
            },
    {
        let mut lo: usize = 0;
        let mut hi: usize = self.hashes.len();
        while lo < hi
            invariant
                self.wf(),
                0 <= lo <= hi <= self.hashes@.len(),
                forall|k: int| 0 <= k < lo ==> self.hashes@[k] < key,
                forall|k: int| hi <= k < self.hashes@.len() ==> key < self.hashes@[k],
            decreases hi - lo,
        {
            let mid: usize = lo + (hi - lo) / 2;
            let h = self.hashes[mid];
            if h == key {
                return Some(mid);
            } else if h < key {
                lo = mid + 1;
            } else {
                hi = mid;
            }
        }
        None
    }
}

} // verus!
