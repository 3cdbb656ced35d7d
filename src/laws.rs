//! Properties that hold of every table that `Matcher::new` builds.
use vstd::prelude::*;

use crate::hashing::xxh3_128_of;
use crate::matcher::{key_hashes, Function, Matcher};

verus! {

/// Dispatching a pattern of the input set selects the callback that was
/// bound to that pattern.
pub proof fn lemma_pattern_selects_its_callback<F>(
    m: &Matcher<F>,
    ps: Seq<(&[u8], Function<F>)>,
    default: Function<F>,
    i: int,
)
    requires
        m.wf(),
        m.built_from(ps, default),
        0 <= i < ps.len(),
    ensures
        m.target(xxh3_128_of(ps[i].0@)) == ps[i].1,
{
    assert(m.stores(ps[i]));
    let k = choose|k: int| m.holds_at(k, ps[i]);
    m.lemma_target_at(xxh3_128_of(ps[i].0@), k);
}

/// Dispatching an input whose hash is that of no pattern of the input set
/// selects the default callback.
pub proof fn lemma_absent_input_selects_default<F>(
    m: &Matcher<F>,
    ps: Seq<(&[u8], Function<F>)>,
    default: Function<F>,
    input: Seq<u8>,
)
    requires
        m.wf(),
        m.built_from(ps, default),
        forall|i: int| 0 <= i < ps.len() ==> xxh3_128_of(#[trigger] ps[i].0@) != xxh3_128_of(input),
    ensures
        m.target(xxh3_128_of(input)) == default,
{
    let key = xxh3_128_of(input);
    if exists|k: int| m.stored_at(key, k) {
        let k = choose|k: int| m.stored_at(key, k);
        assert(m.entry_from(k, ps));
        let i = choose|i: int| 0 <= i < ps.len() && m.holds_at(k, ps[i]);
        assert(xxh3_128_of(ps[i].0@) == key);
    }
}

/// Two pairs with the same pattern bytes always make construction fail.
pub proof fn lemma_repeated_pattern_rejected<F>(ps: Seq<(&[u8], Function<F>)>, i: int, j: int)
    requires
        0 <= i < ps.len(),
        0 <= j < ps.len(),
        i != j,
        ps[i].0@ == ps[j].0@,
    ensures
        !key_hashes(ps).no_duplicates(),
{
    let hs = key_hashes(ps);
    assert(hs[i] == hs[j]);
}

/// If `m` holds a pair stored under `key`, a table built from a permutation
/// of the same pairs selects the same callback for `key`.
proof fn lemma_stored_key_agrees<F>(
    m: &Matcher<F>,
    ps: Seq<(&[u8], Function<F>)>,
    n: &Matcher<F>,
    qs: Seq<(&[u8], Function<F>)>,
    default: Function<F>,
    key: u128,
    k: int,
)
    requires
        m.wf(),
        n.wf(),
        m.built_from(ps, default),
        n.built_from(qs, default),
        ps.to_multiset() == qs.to_multiset(),
        m.stored_at(key, k),
    ensures
        m.target(key) == n.target(key),
{
    m.lemma_target_at(key, k);
    assert(m.entry_from(k, ps));
    let i = choose|i: int| 0 <= i < ps.len() && m.holds_at(k, ps[i]);
    let p = ps[i];
    assert(ps.contains(p));
    vstd::seq_lib::to_multiset_contains(ps, p);
    vstd::seq_lib::to_multiset_contains(qs, p);
    let j = choose|j: int| 0 <= j < qs.len() && qs[j] == p;
    assert(n.stores(qs[j]));
    let l = choose|l: int| n.holds_at(l, p);
    n.lemma_target_at(key, l);
}

/// The order of the input pairs does not matter: tables built from two
/// permutations of the same pairs select the same callback for every input.
pub proof fn lemma_order_irrelevant<F>(
    m: &Matcher<F>,
    ps: Seq<(&[u8], Function<F>)>,
    n: &Matcher<F>,
    qs: Seq<(&[u8], Function<F>)>,
    default: Function<F>,
)
    requires
        m.wf(),
        n.wf(),
        m.built_from(ps, default),
        n.built_from(qs, default),
        ps.to_multiset() == qs.to_multiset(),
    ensures
        forall|input: Seq<u8>| m.target(#[trigger] xxh3_128_of(input)) == n.target(xxh3_128_of(input)),
{
    assert forall|input: Seq<u8>| m.target(#[trigger] xxh3_128_of(input)) == n.target(xxh3_128_of(input)) by {
        let key = xxh3_128_of(input);
        if exists|k: int| m.stored_at(key, k) {
            let k = choose|k: int| m.stored_at(key, k);
            lemma_stored_key_agrees(m, ps, n, qs, default, key, k);
        } else if exists|k: int| n.stored_at(key, k) {
            let k = choose|k: int| n.stored_at(key, k);
            lemma_stored_key_agrees(n, qs, m, ps, default, key, k);
        }
    }
}

} // verus!
