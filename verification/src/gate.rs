//! The admission gate: a bounded, least-recently-used cache mapping a
//! submission fingerprint to an attempt counter. A fingerprint is permitted
//! until its counter reaches the ceiling (the number of known formats);
//! after that it is rejected until recency-based eviction lets it restart.
//!
//! The cache itself is `lru::LruCache`; its behaviour is taken on trust
//! through the contracts below, stated against its source. The cache is
//! modelled as a sequence of (key, counter) pairs ordered from most to
//! least recently used.

use vstd::prelude::*;
use std::num::NonZeroUsize;

verus! {

#[verifier::external_type_specification]
#[verifier::external_body]
#[verifier::reject_recursive_types(K)]
#[verifier::reject_recursive_types(V)]
#[verifier::reject_recursive_types(S)]
pub struct ExLruCache<K, V, S>(lru::LruCache<K, V, S>);

/// What the cache holds, most recently used first.
pub uninterp spec fn lru_entries(c: lru::LruCache<String, usize>) -> Seq<(Seq<char>, usize)>;

/// The capacity the cache was created with.
pub uninterp spec fn lru_cap(c: lru::LruCache<String, usize>) -> nat;

pub open spec fn cache_has_key(m: Seq<(Seq<char>, usize)>, k: Seq<char>) -> bool {
    exists|i: int| 0 <= i < m.len() && m[i].0 == k
}

/// The counter stored under `k`, first match.
pub open spec fn cache_lookup(m: Seq<(Seq<char>, usize)>, k: Seq<char>) -> Option<usize>
    decreases m.len(),
{
    if m.len() == 0 {
        None
    } else if m[0].0 == k {
        Some(m[0].1)
    } else {
        cache_lookup(m.drop_first(), k)
    }
}

/// `m` without the first entry keyed `k`.
pub open spec fn cache_remove_key(m: Seq<(Seq<char>, usize)>, k: Seq<char>) -> Seq<
    (Seq<char>, usize),
>
    decreases m.len(),
{
    if m.len() == 0 {
        m
    } else if m[0].0 == k {
        m.drop_first()
    } else {
        seq![m[0]] + cache_remove_key(m.drop_first(), k)
    }
}

/// What `lru::LruCache::push` does to the contents: an existing key is
/// re-valued and promoted to most recent; a new key enters at the front,
/// evicting the least recently used entry when the cache is full.
pub open spec fn spec_cache_push(
    m: Seq<(Seq<char>, usize)>,
    cap: nat,
    k: Seq<char>,
    v: usize,
) -> Seq<(Seq<char>, usize)> {
    if cache_has_key(m, k) {
        seq![(k, v)] + cache_remove_key(m, k)
    } else if m.len() < cap {
        seq![(k, v)] + m
    } else {
        seq![(k, v)] + m.drop_last()
    }
}

/// Relies on lru::LruCache::new: a fresh cache is empty and keeps the
/// capacity it was created with.
#[verifier::external_body]
fn lru_new(cap: usize) -> (c: lru::LruCache<String, usize>)
    requires
        1 <= cap,
    ensures
        lru_entries(c) == Seq::<(Seq<char>, usize)>::empty(),
        lru_cap(c) == cap as nat,
{
    lru::LruCache::new(NonZeroUsize::new(cap).unwrap())
}

/// Relies on lru::LruCache::peek: returns the value stored under the key,
/// touching neither the contents nor the recency order.
#[verifier::external_body]
fn lru_peek(c: &lru::LruCache<String, usize>, k: &String) -> (r: Option<usize>)
    ensures
        r == cache_lookup(lru_entries(*c), k@),
{
    c.peek(k).copied()
}

/// Relies on lru::LruCache::push: re-values and promotes an existing key,
/// or inserts a new one at the most-recent position, evicting the
/// least-recently-used entry when the cache is full.
#[verifier::external_body]
fn lru_push(c: &mut lru::LruCache<String, usize>, k: String, v: usize)
    ensures
        lru_entries(*final(c)) == spec_cache_push(
            lru_entries(*old(c)),
            lru_cap(*old(c)),
            k@,
            v,
        ),
        lru_cap(*final(c)) == lru_cap(*old(c)),
{
    let _ = c.push(k, v);
}

/// Distinct keys, within capacity.
pub open spec fn cache_wf(m: Seq<(Seq<char>, usize)>, cap: nat) -> bool {
    &&& forall|i: int, j: int| 0 <= i < j < m.len() ==> m[i].0 != m[j].0
    &&& m.len() <= cap
    &&& 1 <= cap
}

pub proof fn lemma_lookup_has_key(m: Seq<(Seq<char>, usize)>, k: Seq<char>)
    ensures
        cache_has_key(m, k) <==> cache_lookup(m, k) is Some,
    decreases m.len(),
{
    if m.len() == 0 {
    } else if m[0].0 == k {
    } else {
        lemma_lookup_has_key(m.drop_first(), k);
        let rest = m.drop_first();
        if cache_has_key(m, k) {
            let i = choose|i: int| 0 <= i < m.len() && m[i].0 == k;
            assert(rest[i - 1].0 == k);
        }
        if cache_has_key(rest, k) {
            let i = choose|i: int| 0 <= i < rest.len() && rest[i].0 == k;
            assert(m[i + 1].0 == k);
        }
    }
}

pub proof fn lemma_remove_key(m: Seq<(Seq<char>, usize)>, k: Seq<char>)
    requires
        forall|i: int, j: int| 0 <= i < j < m.len() ==> m[i].0 != m[j].0,
        cache_has_key(m, k),
    ensures
        cache_remove_key(m, k).len() == m.len() - 1,
        !cache_has_key(cache_remove_key(m, k), k),
        forall|i: int, j: int|
            0 <= i < j < cache_remove_key(m, k).len() ==> cache_remove_key(m, k)[i].0
                != cache_remove_key(m, k)[j].0,
        forall|i: int|
            0 <= i < cache_remove_key(m, k).len() ==> m.contains(cache_remove_key(m, k)[i]),
    decreases m.len(),
{
    let res = cache_remove_key(m, k);
    let rest = m.drop_first();
    if m.len() == 0 {
    } else if m[0].0 == k {
        assert(res =~= rest);
        assert forall|i: int| 0 <= i < res.len() implies !(res[i].0 == k) by {
            assert(res[i] == m[i + 1]);
        }
        assert forall|i: int| 0 <= i < res.len() implies m.contains(res[i]) by {
            assert(res[i] == m[i + 1]);
        }
    } else {
        assert(cache_has_key(rest, k)) by {
            let i = choose|i: int| 0 <= i < m.len() && m[i].0 == k;
            assert(rest[i - 1].0 == k);
        }
        assert(forall|i: int, j: int| 0 <= i < j < rest.len() ==> rest[i].0 != rest[j].0) by {
            assert(forall|i: int| 0 <= i < rest.len() ==> rest[i] == m[i + 1]);
        }
        lemma_remove_key(rest, k);
        let sub = cache_remove_key(rest, k);
        assert(res =~= seq![m[0]] + sub);
        assert forall|i: int, j: int| 0 <= i < j < res.len() implies res[i].0 != res[j].0 by {
            if i == 0 {
                assert(res[j] == sub[j - 1]);
                assert(m.contains(sub[j - 1]));
                let w = choose|w: int| 0 <= w < m.len() && m[w] == sub[j - 1];
                if w == 0 {
                    assert(!cache_has_key(sub, k));
                    assert(sub[j - 1].0 != k);
                }
            } else {
                assert(res[i] == sub[i - 1] && res[j] == sub[j - 1]);
            }
        }
        assert forall|i: int| 0 <= i < res.len() implies m.contains(res[i]) by {
            if i == 0 {
                assert(m[0] == res[0]);
            } else {
                assert(res[i] == sub[i - 1]);
                assert(rest.contains(sub[i - 1]));
                let w = choose|w: int| 0 <= w < rest.len() && rest[w] == sub[i - 1];
                assert(m[w + 1] == rest[w]);
            }
        }
    }
}

/// The counting rule: a fingerprint the cache lacks enters at
/// one and passes; one present below the ceiling is counted up, promoted
/// and passes; at or above the ceiling the request is refused and the
/// cache stays as it was.
pub open spec fn spec_permit(
    m: Seq<(Seq<char>, usize)>,
    cap: nat,
    k: Seq<char>,
    ceiling: usize,
) -> (Seq<(Seq<char>, usize)>, bool) {
    match cache_lookup(m, k) {
        Option::None => (spec_cache_push(m, cap, k, 1), true),
        Option::Some(c) => if c < ceiling {
            (spec_cache_push(m, cap, k, (c + 1) as usize), true)
        } else {
            (m, false)
        },
    }
}

/// The rate-limit gate: a bounded LRU cache of attempt counters.
pub struct RateLimitGate {
    cache: lru::LruCache<String, usize>,
}

impl RateLimitGate {
    /// The cached (fingerprint, counter) pairs, most recently used first.
    pub closed spec fn entries(&self) -> Seq<(Seq<char>, usize)> {
        lru_entries(self.cache)
    }

    pub closed spec fn cap(&self) -> nat {
        lru_cap(self.cache)
    }

    pub open spec fn wf(&self) -> bool {
        cache_wf(self.entries(), self.cap())
    }

    /// A fresh gate with room for `capacity` fingerprints.
    pub fn new(capacity: usize) -> (g: RateLimitGate)
        requires
            1 <= capacity,
        ensures
            g.wf(),
            g.entries() == Seq::<(Seq<char>, usize)>::empty(),
            g.cap() == capacity as nat,
    {
        RateLimitGate { cache: lru_new(capacity) }
    }

    /// One permission check for a fingerprint, with the current format count
    /// as ceiling: the whole check-and-count step of `spec_permit`, in one
    /// critical section.
    pub fn permit(&mut self, key: &String, ceiling: usize) -> (permitted: bool)
        requires
            old(self).wf(),
        ensures
            final(self).wf(),
            final(self).cap() == old(self).cap(),
            ({
                let (m2, adm) = spec_permit(old(self).entries(), old(self).cap(), key@, ceiling);
                final(self).entries() == m2 && permitted == adm
            }),
    {
        let ghost m0 = self.entries();
        let ghost cap0 = self.cap();
        let cur = lru_peek(&self.cache, key);
        proof {
            lemma_lookup_has_key(m0, key@);
        }
        match cur {
            Option::None => {
                lru_push(&mut self.cache, key.clone(), 1);
                proof {
                    lemma_push_wf(m0, cap0, key@, 1);
                }
                true
            },
            Option::Some(c) => {
                if c < ceiling {
                    lru_push(&mut self.cache, key.clone(), c + 1);
                    proof {
                        lemma_push_wf(m0, cap0, key@, (c + 1) as usize);
                    }
                    true
                } else {
                    false
                }
            },
        }
    }
}

/// A push keeps the cache well formed.
proof fn lemma_push_wf(m: Seq<(Seq<char>, usize)>, cap: nat, k: Seq<char>, v: usize)
    requires
        cache_wf(m, cap),
    ensures
        cache_wf(spec_cache_push(m, cap, k, v), cap),
{
    let res = spec_cache_push(m, cap, k, v);
    if cache_has_key(m, k) {
        lemma_remove_key(m, k);
        let sub = cache_remove_key(m, k);
        assert forall|i: int, j: int| 0 <= i < j < res.len() implies res[i].0 != res[j].0 by {
            if i == 0 {
                assert(res[j] == sub[j - 1]);
            } else {
                assert(res[i] == sub[i - 1] && res[j] == sub[j - 1]);
            }
        }
    } else if m.len() < cap {
        assert forall|i: int, j: int| 0 <= i < j < res.len() implies res[i].0 != res[j].0 by {
            if i == 0 {
                assert(res[j] == m[j - 1]);
            } else {
                assert(res[i] == m[i - 1] && res[j] == m[j - 1]);
            }
        }
    } else {
        let sub = m.drop_last();
        assert forall|i: int, j: int| 0 <= i < j < res.len() implies res[i].0 != res[j].0 by {
            if i == 0 {
                assert(res[j] == sub[j - 1] && sub[j - 1] == m[j - 1]);
            } else {
                assert(res[i] == m[i - 1] && res[j] == m[j - 1]);
            }
        }
    }
}

} // verus!

verus! {

/// The cache after the fingerprint `k` has gone through `n` rounds.
pub open spec fn permit_state(
    m: Seq<(Seq<char>, usize)>,
    cap: nat,
    k: Seq<char>,
    ceiling: usize,
    n: nat,
) -> Seq<(Seq<char>, usize)>
    decreases n,
{
    if n == 0 {
        m
    } else {
        spec_permit(permit_state(m, cap, k, ceiling, (n - 1) as nat), cap, k, ceiling).0
    }
}

/// The outcome of the `n`th check of the same fingerprint `k` (`n >= 1`).
pub open spec fn permit_result(
    m: Seq<(Seq<char>, usize)>,
    cap: nat,
    k: Seq<char>,
    ceiling: usize,
    n: nat,
) -> bool {
    spec_permit(permit_state(m, cap, k, ceiling, (n - 1) as nat), cap, k, ceiling).1
}

/// What is left under the most-recent slot once `k` enters a cache that
/// did not hold it.
pub open spec fn push_tail(m: Seq<(Seq<char>, usize)>, cap: nat) -> Seq<(Seq<char>, usize)> {
    if m.len() < cap {
        m
    } else {
        m.drop_last()
    }
}

pub open spec fn counter_after(n: nat, ceiling: usize) -> usize {
    if n <= ceiling {
        n as usize
    } else {
        ceiling
    }
}

proof fn lemma_permit_state(
    m: Seq<(Seq<char>, usize)>,
    cap: nat,
    k: Seq<char>,
    ceiling: usize,
    n: nat,
)
    requires
        !cache_has_key(m, k),
        1 <= ceiling,
        1 <= n,
    ensures
        permit_state(m, cap, k, ceiling, n) == seq![(k, counter_after(n, ceiling))] + push_tail(
            m,
            cap,
        ),
    decreases n,
{
    lemma_lookup_has_key(m, k);
    if n == 1 {
        assert(permit_state(m, cap, k, ceiling, 0) == m);
        assert(permit_state(m, cap, k, ceiling, 1) == spec_cache_push(m, cap, k, 1));
    } else {
        lemma_permit_state(m, cap, k, ceiling, (n - 1) as nat);
        let prev = permit_state(m, cap, k, ceiling, (n - 1) as nat);
        let c = counter_after((n - 1) as nat, ceiling);
        assert(prev[0] == (k, c));
        assert(cache_lookup(prev, k) == Some(c));
        if c < ceiling {
            assert(cache_has_key(prev, k));
            assert(cache_remove_key(prev, k) =~= push_tail(m, cap));
            assert(permit_state(m, cap, k, ceiling, n) =~= seq![
                (k, (c + 1) as usize),
            ] + push_tail(m, cap));
        } else {
            assert(permit_state(m, cap, k, ceiling, n) == prev);
        }
    }
}

/// Gate ceiling: a fingerprint new to the cache, put through round after
/// round with nothing else touching the cache in between, goes through in
/// its first `ceiling` rounds and is refused in every round after those.
pub proof fn lemma_gate_ceiling(
    m: Seq<(Seq<char>, usize)>,
    cap: nat,
    k: Seq<char>,
    ceiling: usize,
    n: nat,
)
    requires
        !cache_has_key(m, k),
        1 <= ceiling,
        1 <= n,
    ensures
        permit_result(m, cap, k, ceiling, n) == (n <= ceiling),
{
    lemma_lookup_has_key(m, k);
    if n == 1 {
    } else {
        lemma_permit_state(m, cap, k, ceiling, (n - 1) as nat);
        let prev = permit_state(m, cap, k, ceiling, (n - 1) as nat);
        let c = counter_after((n - 1) as nat, ceiling);
        assert(prev[0] == (k, c));
        assert(cache_lookup(prev, k) == Some(c));
    }
}

/// The cache after each fingerprint of `keys` has gone through one round,
/// in order.
pub open spec fn permit_each_state(
    m: Seq<(Seq<char>, usize)>,
    cap: nat,
    keys: Seq<Seq<char>>,
    ceiling: usize,
) -> Seq<(Seq<char>, usize)>
    decreases keys.len(),
{
    if keys.len() == 0 {
        m
    } else {
        permit_each_state(
            spec_permit(m, cap, keys[0], ceiling).0,
            cap,
            keys.drop_first(),
            ceiling,
        )
    }
}

proof fn lemma_permit_each_prefix(
    cap: nat,
    keys: Seq<Seq<char>>,
    ceiling: usize,
    i: nat,
)
    requires
        1 <= ceiling,
        1 <= cap,
        i <= keys.len(),
        i <= cap,
        forall|a: int, b: int| 0 <= a < b < keys.len() ==> keys[a] != keys[b],
    ensures
        permit_each_state(Seq::empty(), cap, keys.take(i as int), ceiling) == Seq::new(
            i,
            |j: int| (keys[i - 1 - j], 1usize),
        ),
    decreases i,
{
    if i == 0 {
        assert(keys.take(0) =~= Seq::<Seq<char>>::empty());
        assert(permit_each_state(Seq::empty(), cap, keys.take(0), ceiling) =~= Seq::new(
            0,
            |j: int| (keys[0 - 1 - j], 1usize),
        ));
    } else {
        lemma_permit_each_prefix(cap, keys, ceiling, (i - 1) as nat);
        let prev = Seq::new((i - 1) as nat, |j: int| (keys[i - 2 - j], 1usize));
        let k = keys[i - 1];
        assert(!cache_has_key(prev, k)) by {
            if cache_has_key(prev, k) {
                let w = choose|w: int| 0 <= w < prev.len() && prev[w].0 == k;
                assert(keys[i - 2 - w] == keys[i - 1]);
            }
        }
        lemma_lookup_has_key(prev, k);
        assert(prev.len() < cap);
        let next = spec_cache_push(prev, cap, k, 1);
        assert(next =~= seq![(k, 1usize)] + prev);
        assert(next =~= Seq::new(i, |j: int| (keys[i - 1 - j], 1usize)));
        lemma_permit_each_unroll(Seq::empty(), cap, keys, ceiling, i);
    }
}

/// Processing `i` keys is processing `i - 1` and then the last.
proof fn lemma_permit_each_unroll(
    m: Seq<(Seq<char>, usize)>,
    cap: nat,
    keys: Seq<Seq<char>>,
    ceiling: usize,
    i: nat,
)
    requires
        1 <= i <= keys.len(),
    ensures
        permit_each_state(m, cap, keys.take(i as int), ceiling) == spec_permit(
            permit_each_state(m, cap, keys.take(i - 1), ceiling),
            cap,
            keys[i - 1],
            ceiling,
        ).0,
    decreases i,
{
    let t = keys.take(i as int);
    if i == 1 {
        assert(t.drop_first() =~= keys.take(0));
        assert(keys.take(0) =~= Seq::<Seq<char>>::empty());
        assert(t[0] == keys[0]);
        assert(permit_each_state(m, cap, t, ceiling) == permit_each_state(
            spec_permit(m, cap, keys[0], ceiling).0,
            cap,
            t.drop_first(),
            ceiling,
        ));
        assert(permit_each_state(m, cap, keys.take(0), ceiling) == m);
    } else {
        let m2 = spec_permit(m, cap, keys[0], ceiling).0;
        assert(t[0] == keys[0]);
        assert(permit_each_state(m, cap, t, ceiling) == permit_each_state(
            m2,
            cap,
            t.drop_first(),
            ceiling,
        ));
        assert(t.drop_first() =~= keys.drop_first().take(i - 1));
        lemma_permit_each_unroll(m2, cap, keys.drop_first(), ceiling, (i - 1) as nat);
        assert(keys.drop_first().take(i - 2) =~= keys.take(i - 1).drop_first());
        assert(keys.drop_first()[i - 2] == keys[i - 1]);
        assert(keys.take(i - 1)[0] == keys[0]);
        assert(keys.take(i - 1).len() != 0);
        assert(permit_each_state(m, cap, keys.take(i - 1), ceiling) == permit_each_state(
            m2,
            cap,
            keys.take(i - 1).drop_first(),
            ceiling,
        ));
    }
}

/// Gate eviction: filling an empty gate with one check each of
/// `capacity + 1` distinct fingerprints evicts the least recently checked
/// one; its next check passes and its counter restarts at one.
pub proof fn lemma_gate_eviction(cap: nat, keys: Seq<Seq<char>>, ceiling: usize)
    requires
        1 <= ceiling,
        1 <= cap,
        keys.len() == cap + 1,
        forall|a: int, b: int| 0 <= a < b < keys.len() ==> keys[a] != keys[b],
    ensures
        ({
            let full = permit_each_state(Seq::empty(), cap, keys, ceiling);
            &&& !cache_has_key(full, keys[0])
            &&& spec_permit(full, cap, keys[0], ceiling).1
            &&& cache_lookup(spec_permit(full, cap, keys[0], ceiling).0, keys[0]) == Some(1usize)
        }),
{
    let full = permit_each_state(Seq::empty(), cap, keys, ceiling);
    lemma_permit_each_prefix(cap, keys, ceiling, cap);
    let prev = Seq::new(cap, |j: int| (keys[cap - 1 - j], 1usize));
    let k = keys[cap as int];
    lemma_permit_each_unroll(Seq::empty(), cap, keys, ceiling, (cap + 1) as nat);
    assert(keys.take(cap + 1 as int) =~= keys);
    assert(!cache_has_key(prev, k)) by {
        if cache_has_key(prev, k) {
            let w = choose|w: int| 0 <= w < prev.len() && prev[w].0 == k;
            assert(keys[cap - 1 - w] == keys[cap as int]);
        }
    }
    lemma_lookup_has_key(prev, k);
    assert(full == spec_cache_push(prev, cap, k, 1));
    assert(full =~= seq![(k, 1usize)] + prev.drop_last());
    assert(!cache_has_key(full, keys[0])) by {
        if cache_has_key(full, keys[0]) {
            let w = choose|w: int| 0 <= w < full.len() && full[w].0 == keys[0];
            if w == 0 {
                assert(keys[cap as int] == keys[0]);
            } else {
                assert(full[w] == prev[w - 1]);
                assert(keys[cap - w] == keys[0]);
            }
        }
    }
    lemma_lookup_has_key(full, keys[0]);
    let after = spec_permit(full, cap, keys[0], ceiling).0;
    assert(after == spec_cache_push(full, cap, keys[0], 1));
    assert(after[0] == (keys[0], 1usize));
}

} // verus!
