//! Generation of unique, deterministic proquint identifiers.
//!
//! Identifier indices `0, 1, 2, ...` are sent through a seeded Feistel
//! permutation and written as proquints after a prefix; the next identifiers
//! continue after the highest index already in use for that prefix.
use vstd::prelude::*;
use std::hash::{Hash, Hasher};
use std::collections::hash_map::DefaultHasher;
use vstd::std_specs::hash::DefaultHasherAdditionalSpecFns;
use crate::text::{starts_with, chars_of, starts_with_exec, slice_of, eq, concat, string_of};
use crate::feistel::{permute_spec, unpermute_spec, permute, unpermute, lemma_unpermute_permute, lemma_permute_unpermute, lemma_permute_injective};
use crate::quint::{quint_encode, quint_decode, to_quint, from_quint, lemma_decode_encode, lemma_encode_injective};

verus! {

/// Why no identifier could be produced.
#[derive(Debug, Clone, PartialEq, Eq)]
pub enum IdError {
    /// Every free index was tried: `generated` identifiers were found of the
    /// `requested` ones.
    Exhausted { prefix: String, generated: usize, requested: usize },
}

/// The number of indices the search walks through, starting after the highest
/// used one.
pub const SEARCH_SPAN: u32 = 65535;

/// The writes that `Hash for str` makes to a hasher for the text `s`.
pub uninterp spec fn str_hash_writes(s: Seq<char>) -> Seq<Seq<u8>>;

/// `<str as Hash>::hash` into a `DefaultHasher`: the hasher's writes are
/// extended by those named `str_hash_writes`, which depend on the text alone.
#[verifier::external_body]
fn hash_str(name: &str, hasher: &mut DefaultHasher)
    ensures
        final(hasher)@ == old(hasher)@ + str_hash_writes(name@),
{
    name.hash(hasher);
}

/// The value of the standard library's default hasher on a project name: a
/// fresh hasher, fed the name, then finished.
pub open spec fn name_hash(name: Seq<char>) -> u64 {
    DefaultHasher::spec_finish(Seq::<Seq<u8>>::empty() + str_hash_writes(name))
}

/// The seed of a project: the default hasher's value on its name.
pub(crate) fn hash_seed(name: &str) -> (r: u64)
    ensures
        r == name_hash(name@),
{
    let mut hasher = DefaultHasher::new();
    hash_str(name, &mut hasher);
    hasher.finish()
}

/// The character of a decimal digit.
pub open spec fn digit_char(d: nat) -> char {
    if d == 0 { '0' } else if d == 1 { '1' } else if d == 2 { '2' } else if d == 3 { '3' } else if d == 4 { '4' }
    else if d == 5 { '5' } else if d == 6 { '6' } else if d == 7 { '7' } else if d == 8 { '8' } else { '9' }
}

/// A number written in decimal, as `{}` formats it.
pub open spec fn decimal(n: nat) -> Seq<char>
    decreases n,
{
    if n < 10 {
        seq![digit_char(n)]
    } else {
        decimal(n / 10).push(digit_char(n % 10))
    }
}

fn digit_exec(d: usize) -> (r: char)
    requires
        d < 10,
    ensures
        r == digit_char(d as nat),
{
    if d == 0 { '0' } else if d == 1 { '1' } else if d == 2 { '2' } else if d == 3 { '3' } else if d == 4 { '4' }
    else if d == 5 { '5' } else if d == 6 { '6' } else if d == 7 { '7' } else if d == 8 { '8' } else { '9' }
}

/// A number written in decimal.
pub fn decimal_exec(n: usize) -> (r: Vec<char>)
    ensures
        r@ == decimal(n as nat),
    decreases n,
{
    if n < 10 {
        vec![digit_exec(n)]
    } else {
        let mut v = decimal_exec(n / 10);
        v.push(digit_exec(n % 10));
        v
    }
}

/// The message of an exhausted search.
pub open spec fn exhausted_message(prefix: Seq<char>, generated: nat, requested: nat) -> Seq<char> {
    "No available IDs left for prefix "@ + prefix + " (generated "@ + decimal(generated) + " of "@ + decimal(requested)
        + " requested)"@
}

impl IdError {
    /// The error's message: `No available IDs left for prefix P (generated
    /// G of R requested)`.
    pub fn message(&self) -> (r: String)
        ensures
            match self {
                IdError::Exhausted { prefix, generated, requested } => r@ == exhausted_message(
                    prefix@,
                    *generated as nat,
                    *requested as nat,
                ),
            },
    {
        match self {
            IdError::Exhausted { prefix, generated, requested } => {
                let a = concat(&chars_of("No available IDs left for prefix "), &chars_of(prefix.as_str()));
                let b = concat(&a, &chars_of(" (generated "));
                let c = concat(&b, &decimal_exec(*generated));
                let d = concat(&c, &chars_of(" of "));
                let e = concat(&d, &decimal_exec(*requested));
                let f = concat(&e, &chars_of(" requested)"));
                string_of(&f)
            },
        }
    }
}

/// The views of a list of strings.
pub open spec fn ids_view(v: Seq<String>) -> Seq<Seq<char>> {
    v.map_values(|s: String| s@)
}

/// The index that an identifier with the prefix stands for.
pub open spec fn id_index(prefix: Seq<char>, id: Seq<char>, seed: u64) -> Option<u16> {
    if starts_with(id, prefix) {
        Some(unpermute_spec(quint_decode(id.skip(prefix.len() as int)), seed))
    } else {
        None
    }
}

/// The highest index among the identifiers with the prefix.
pub open spec fn max_index(prefix: Seq<char>, ids: Seq<Seq<char>>, seed: u64) -> Option<u16>
    decreases ids.len(),
{
    if ids.len() == 0 {
        None
    } else {
        let m = max_index(prefix, ids.drop_last(), seed);
        match id_index(prefix, ids.last(), seed) {
            None => m,
            Some(x) => match m {
                None => Some(x),
                Some(y) => Some(if x > y { x } else { y }),
            },
        }
    }
}

/// Where the search starts: after the highest index in use, or at 0.
pub open spec fn start_index(prefix: Seq<char>, ids: Seq<Seq<char>>, seed: u64) -> u16 {
    match max_index(prefix, ids, seed) {
        Some(m) => ((m + 1) % 65536) as u16,
        None => 0,
    }
}

/// The identifier for index `idx`.
pub open spec fn id_for(prefix: Seq<char>, idx: u16, seed: u64) -> Seq<char> {
    prefix + quint_encode(permute_spec(idx, seed))
}

/// The index tried at step `k` of the search.
pub open spec fn step_index(start: u16, k: int) -> u16 {
    ((start + k) % 65536) as u16
}

/// The identifiers among the first `n` steps of the search that are not in `ids`.
pub open spec fn free_candidates(prefix: Seq<char>, ids: Seq<Seq<char>>, seed: u64, n: nat) -> Seq<Seq<char>>
    decreases n,
{
    if n == 0 {
        Seq::empty()
    } else {
        let prev = free_candidates(prefix, ids, seed, (n - 1) as nat);
        let c = id_for(prefix, step_index(start_index(prefix, ids, seed), n - 1), seed);
        if ids.contains(c) {
            prev
        } else {
            prev.push(c)
        }
    }
}

/// The identifiers generated for a request of `count`: the first `count` free
/// ones of the search, or, when fewer exist, the number that do.
pub open spec fn generated_ids(prefix: Seq<char>, ids: Seq<Seq<char>>, count: nat, seed: u64) -> Result<Seq<Seq<char>>, nat> {
    let free = free_candidates(prefix, ids, seed, SEARCH_SPAN as nat);
    if count == 0 {
        Ok(Seq::empty())
    } else if free.len() >= count {
        Ok(free.take(count as int))
    } else {
        Err(free.len())
    }
}

/// The result a call gives for the outcome `generated_ids`.
pub open spec fn ids_result_matches(r: Result<Vec<String>, IdError>, prefix: Seq<char>, expected: Result<Seq<Seq<char>>, nat>, count: nat) -> bool {
    match expected {
        Ok(s) => r matches Ok(v) && ids_view(v@) == s,
        Err(n) => r matches Err(IdError::Exhausted { prefix: p, generated: g, requested: q })
            && p@ == prefix && g == n && q == count,
    }
}

proof fn lemma_free_prefix(prefix: Seq<char>, ids: Seq<Seq<char>>, seed: u64, n: nat, m: nat)
    requires
        n <= m,
    ensures
        free_candidates(prefix, ids, seed, n).len() <= free_candidates(prefix, ids, seed, m).len(),
        free_candidates(prefix, ids, seed, m).take(free_candidates(prefix, ids, seed, n).len() as int)
            == free_candidates(prefix, ids, seed, n),
    decreases m,
{
    if n < m {
        lemma_free_prefix(prefix, ids, seed, n, (m - 1) as nat);
        let a = free_candidates(prefix, ids, seed, n);
        let b = free_candidates(prefix, ids, seed, (m - 1) as nat);
        let c = free_candidates(prefix, ids, seed, m);
        assert(c.take(a.len() as int) =~= b.take(a.len() as int));
    } else {
        let a = free_candidates(prefix, ids, seed, n);
        assert(a.take(a.len() as int) =~= a);
    }
}

/// An identifier has the form `prefix + proquint(permute(x))` exactly when it
/// starts with the prefix, its rest is the canonical proquint of the value it
/// decodes to, and that value unpermutes to `x`.
proof fn lemma_id_for_match(prefix: Seq<char>, id: Seq<char>, x: u16, seed: u64)
    ensures
        (id == id_for(prefix, x, seed)) <==> (starts_with(id, prefix)
            && quint_encode(quint_decode(id.skip(prefix.len() as int))) == id.skip(prefix.len() as int)
            && unpermute_spec(quint_decode(id.skip(prefix.len() as int)), seed) == x),
{
    let e = quint_encode(permute_spec(x, seed));
    if id == id_for(prefix, x, seed) {
        assert(id.take(prefix.len() as int) =~= prefix);
        assert(id.skip(prefix.len() as int) =~= e);
        lemma_decode_encode(permute_spec(x, seed));
        lemma_unpermute_permute(x, seed);
    }
    if starts_with(id, prefix)
        && quint_encode(quint_decode(id.skip(prefix.len() as int))) == id.skip(prefix.len() as int)
        && unpermute_spec(quint_decode(id.skip(prefix.len() as int)), seed) == x {
        let v = quint_decode(id.skip(prefix.len() as int));
        lemma_permute_unpermute(v, seed);
        assert(id =~= id.take(prefix.len() as int) + id.skip(prefix.len() as int));
    }
}

proof fn lemma_id_for_injective(prefix: Seq<char>, a: u16, b: u16, seed: u64)
    requires
        a != b,
    ensures
        id_for(prefix, a, seed) != id_for(prefix, b, seed),
{
    lemma_permute_injective(a, b, seed);
    lemma_encode_injective(permute_spec(a, seed), permute_spec(b, seed));
    let x = id_for(prefix, a, seed);
    let y = id_for(prefix, b, seed);
    if x == y {
        assert(x.skip(prefix.len() as int) =~= quint_encode(permute_spec(a, seed)));
        assert(y.skip(prefix.len() as int) =~= quint_encode(permute_spec(b, seed)));
    }
}

proof fn lemma_free_candidates_shape(prefix: Seq<char>, ids: Seq<Seq<char>>, seed: u64, n: nat)
    requires
        n <= 65536,
    ensures
        forall|i: int| 0 <= i < free_candidates(prefix, ids, seed, n).len() ==> exists|k: int|
            0 <= k < n && #[trigger] free_candidates(prefix, ids, seed, n)[i] == id_for(
                prefix, step_index(start_index(prefix, ids, seed), k), seed),
        forall|i: int| 0 <= i < free_candidates(prefix, ids, seed, n).len() ==>
            !ids.contains(#[trigger] free_candidates(prefix, ids, seed, n)[i]),
        forall|i: int, j: int| 0 <= i < j < free_candidates(prefix, ids, seed, n).len() ==>
            free_candidates(prefix, ids, seed, n)[i] != free_candidates(prefix, ids, seed, n)[j],
    decreases n,
{
    if n > 0 {
        let m = (n - 1) as nat;
        lemma_free_candidates_shape(prefix, ids, seed, m);
        let start = start_index(prefix, ids, seed);
        let prev = free_candidates(prefix, ids, seed, m);
        let c = id_for(prefix, step_index(start, m as int), seed);
        let cur = free_candidates(prefix, ids, seed, n);
        if !ids.contains(c) {
            assert(cur == prev.push(c));
            assert forall|i: int| 0 <= i < prev.len() implies prev[i] != c by {
                let k = choose|k: int| 0 <= k < m && prev[i] == id_for(prefix, step_index(start, k), seed);
                assert(step_index(start, k) != step_index(start, m as int));
                lemma_id_for_injective(prefix, step_index(start, k), step_index(start, m as int), seed);
            }
            assert forall|i: int| 0 <= i < cur.len() implies exists|k: int| 0 <= k < n && #[trigger] cur[i]
                == id_for(prefix, step_index(start, k), seed) by {
                if i < prev.len() {
                    assert(cur[i] == prev[i]);
                } else {
                    assert(cur[i] == id_for(prefix, step_index(start, m as int), seed));
                }
            }
            assert forall|i: int, j: int| 0 <= i < j < cur.len() implies cur[i] != cur[j] by {
                if j < prev.len() {
                    assert(cur[i] == prev[i] && cur[j] == prev[j]);
                } else {
                    assert(cur[i] == prev[i] && cur[j] == c);
                }
            }
        }
    }
}

/// Generated identifiers start with the prefix, are not among the existing
/// identifiers, and differ from one another.
pub proof fn lemma_generated_ids_fresh(prefix: Seq<char>, ids: Seq<Seq<char>>, count: nat, seed: u64)
    ensures
        generated_ids(prefix, ids, count, seed) matches Ok(s) ==> {
            &&& s.len() == count
            &&& forall|i: int| 0 <= i < s.len() ==> starts_with(#[trigger] s[i], prefix)
            &&& forall|i: int| 0 <= i < s.len() ==> !ids.contains(#[trigger] s[i])
            &&& forall|i: int, j: int| 0 <= i < j < s.len() ==> s[i] != s[j]
        },
{
    lemma_free_candidates_shape(prefix, ids, seed, SEARCH_SPAN as nat);
    let free = free_candidates(prefix, ids, seed, SEARCH_SPAN as nat);
    if let Ok(s) = generated_ids(prefix, ids, count, seed) {
        if count > 0 {
            assert forall|i: int| 0 <= i < s.len() implies starts_with(#[trigger] s[i], prefix) by {
                assert(s[i] == free[i]);
                let k = choose|k: int| 0 <= k < SEARCH_SPAN && free[i] == id_for(prefix,
                    step_index(start_index(prefix, ids, seed), k), seed);
                assert(s[i].take(prefix.len() as int) =~= prefix);
            }
            assert forall|i: int| 0 <= i < s.len() implies !ids.contains(#[trigger] s[i]) by {
                assert(s[i] == free[i]);
            }
            assert forall|i: int, j: int| 0 <= i < j < s.len() implies s[i] != s[j] by {
                assert(s[i] == free[i] && s[j] == free[j]);
            }
        }
    }
}

proof fn lemma_max_index_other_prefixes(prefix: Seq<char>, ids: Seq<Seq<char>>, others: Seq<Seq<char>>, seed: u64)
    requires
        forall|i: int| 0 <= i < others.len() ==> !starts_with(#[trigger] others[i], prefix),
    ensures
        max_index(prefix, ids + others, seed) == max_index(prefix, ids, seed),
    decreases others.len(),
{
    if others.len() == 0 {
        assert(ids + others =~= ids);
    } else {
        let shorter = others.drop_last();
        assert((ids + others).drop_last() =~= ids + shorter);
        assert((ids + others).last() == others.last());
        assert(!starts_with(others[others.len() - 1], prefix));
        lemma_max_index_other_prefixes(prefix, ids, shorter, seed);
    }
}

proof fn lemma_free_candidates_other_prefixes(
    prefix: Seq<char>,
    ids: Seq<Seq<char>>,
    others: Seq<Seq<char>>,
    seed: u64,
    n: nat,
)
    requires
        forall|i: int| 0 <= i < others.len() ==> !starts_with(#[trigger] others[i], prefix),
    ensures
        free_candidates(prefix, ids + others, seed, n) == free_candidates(prefix, ids, seed, n),
    decreases n,
{
    lemma_max_index_other_prefixes(prefix, ids, others, seed);
    if n > 0 {
        lemma_free_candidates_other_prefixes(prefix, ids, others, seed, (n - 1) as nat);
        let c = id_for(prefix, step_index(start_index(prefix, ids, seed), n - 1), seed);
        assert(c.take(prefix.len() as int) =~= prefix);
        assert((ids + others).contains(c) == ids.contains(c)) by {
            if (ids + others).contains(c) && !ids.contains(c) {
                let j = choose|j: int| 0 <= j < (ids + others).len() && (ids + others)[j] == c;
                if j < ids.len() {
                    assert(ids[j] == c);
                } else {
                    assert(others[j - ids.len()] == c);
                }
            }
            if ids.contains(c) {
                let j = choose|j: int| 0 <= j < ids.len() && ids[j] == c;
                assert((ids + others)[j] == c);
            }
        }
    }
}

/// Identifiers that do not start with the prefix neither influence nor block
/// generation for it: added to the existing identifiers, they leave the
/// generated identifiers (or the shortfall) unchanged.
pub proof fn lemma_other_prefixes_ignored(
    prefix: Seq<char>,
    ids: Seq<Seq<char>>,
    others: Seq<Seq<char>>,
    count: nat,
    seed: u64,
)
    requires
        forall|i: int| 0 <= i < others.len() ==> !starts_with(#[trigger] others[i], prefix),
    ensures
        generated_ids(prefix, ids + others, count, seed) == generated_ids(prefix, ids, count, seed),
{
    lemma_free_candidates_other_prefixes(prefix, ids, others, seed, SEARCH_SPAN as nat);
}

/// The candidate at step `k` of the search.
spec fn cand(prefix: Seq<char>, ids: Seq<Seq<char>>, seed: u64, k: int) -> Seq<char> {
    id_for(prefix, step_index(start_index(prefix, ids, seed), k), seed)
}

/// The number of free candidates among the first `k` steps.
spec fn nfree(prefix: Seq<char>, ids: Seq<Seq<char>>, seed: u64, k: nat) -> nat {
    free_candidates(prefix, ids, seed, k).len()
}

proof fn lemma_free_at(prefix: Seq<char>, ids: Seq<Seq<char>>, seed: u64, k: nat, n: nat)
    requires
        k < n,
        !ids.contains(cand(prefix, ids, seed, k as int)),
    ensures
        nfree(prefix, ids, seed, k) < nfree(prefix, ids, seed, (k + 1) as nat) <= nfree(prefix, ids, seed, n),
        free_candidates(prefix, ids, seed, n)[nfree(prefix, ids, seed, k) as int] == cand(prefix, ids, seed, k as int),
{
    lemma_free_prefix(prefix, ids, seed, (k + 1) as nat, n);
    let a = free_candidates(prefix, ids, seed, (k + 1) as nat);
    let b = free_candidates(prefix, ids, seed, n);
    assert(a[nfree(prefix, ids, seed, k) as int] == cand(prefix, ids, seed, k as int));
    assert(b.take(a.len() as int)[nfree(prefix, ids, seed, k) as int] == b[nfree(prefix, ids, seed, k) as int]);
}

proof fn lemma_nfree_mono(prefix: Seq<char>, ids: Seq<Seq<char>>, seed: u64, a: nat, b: nat)
    requires
        a <= b,
    ensures
        nfree(prefix, ids, seed, a) <= nfree(prefix, ids, seed, b),
{
    lemma_free_prefix(prefix, ids, seed, a, b);
}

proof fn lemma_find_position(prefix: Seq<char>, ids: Seq<Seq<char>>, seed: u64, i: nat, n: nat)
    requires
        i < nfree(prefix, ids, seed, n),
    ensures
        exists|k: nat| k < n && nfree(prefix, ids, seed, k) == i && !ids.contains(#[trigger] cand(prefix, ids, seed, k as int)),
    decreases n,
{
    let m = (n - 1) as nat;
    if i < nfree(prefix, ids, seed, m) {
        lemma_find_position(prefix, ids, seed, i, m);
        let k = choose|k: nat| k < m && nfree(prefix, ids, seed, k) == i && !ids.contains(#[trigger] cand(prefix, ids, seed, k as int));
        assert(k < n && nfree(prefix, ids, seed, k) == i && !ids.contains(cand(prefix, ids, seed, k as int)));
    } else {
        assert(!ids.contains(cand(prefix, ids, seed, m as int)));
        assert(m < n && nfree(prefix, ids, seed, m) == i);
    }
}

proof fn lemma_none_free_before(prefix: Seq<char>, ids: Seq<Seq<char>>, seed: u64, k: nat)
    requires
        forall|j: int| 0 <= j < k ==> ids.contains(#[trigger] cand(prefix, ids, seed, j)),
    ensures
        nfree(prefix, ids, seed, k) == 0,
    decreases k,
{
    if k > 0 {
        lemma_none_free_before(prefix, ids, seed, (k - 1) as nat);
        assert(ids.contains(cand(prefix, ids, seed, k - 1)));
    }
}

proof fn lemma_index_of_id_for(prefix: Seq<char>, x: u16, seed: u64)
    ensures
        id_index(prefix, id_for(prefix, x, seed), seed) == Some(x),
{
    lemma_id_for_match(prefix, id_for(prefix, x, seed), x, seed);
}

proof fn lemma_max_index_bounds(prefix: Seq<char>, ids: Seq<Seq<char>>, seed: u64)
    ensures
        forall|j: int| 0 <= j < ids.len() && #[trigger] id_index(prefix, ids[j], seed) is Some ==> max_index(prefix, ids, seed)
            is Some && id_index(prefix, ids[j], seed)->Some_0 <= max_index(prefix, ids, seed)->Some_0,
        max_index(prefix, ids, seed) is Some ==> exists|j: int| 0 <= j < ids.len() && #[trigger] id_index(prefix, ids[j], seed)
            == max_index(prefix, ids, seed),
    decreases ids.len(),
{
    if ids.len() > 0 {
        let rest = ids.drop_last();
        lemma_max_index_bounds(prefix, rest, seed);
        assert forall|j: int| 0 <= j < ids.len() && #[trigger] id_index(prefix, ids[j], seed) is Some implies max_index(prefix, ids, seed)
            is Some && id_index(prefix, ids[j], seed)->Some_0 <= max_index(prefix, ids, seed)->Some_0 by {
            if j < rest.len() {
                assert(rest[j] == ids[j]);
            }
        }
        if max_index(prefix, ids, seed) is Some {
            if max_index(prefix, ids, seed) == id_index(prefix, ids.last(), seed) {
                assert(id_index(prefix, ids[ids.len() - 1], seed) == max_index(prefix, ids, seed));
            } else {
                let j = choose|j: int| 0 <= j < rest.len() && #[trigger] id_index(prefix, rest[j], seed) == max_index(prefix, rest, seed);
                assert(ids[j] == rest[j]);
            }
        }
    }
}

/// The search position at which index `x` is met when starting from `start`.
spec fn pos_of(start: u16, x: u16) -> int {
    if x >= start {
        x - start
    } else {
        x - start + 65536
    }
}

proof fn lemma_pos_of(start: u16, x: u16)
    ensures
        0 <= pos_of(start, x) < 65536,
        step_index(start, pos_of(start, x)) == x,
{
}

/// The batch's identifier at place `j` sits at a search position, of which
/// the positions of later places are larger.
proof fn lemma_batch_place(prefix: Seq<char>, ids: Seq<Seq<char>>, seed: u64, v: Seq<Seq<char>>, j: int, ki: nat)
    requires
        v == free_candidates(prefix, ids, seed, SEARCH_SPAN as nat).take(v.len() as int),
        v.len() <= nfree(prefix, ids, seed, SEARCH_SPAN as nat),
        0 <= j < v.len(),
        ki < SEARCH_SPAN,
        j < nfree(prefix, ids, seed, ki),
    ensures
        exists|kj: nat| kj < ki && v[j] == #[trigger] cand(prefix, ids, seed, kj as int)
            && id_index(prefix, v[j], seed) == Some(step_index(start_index(prefix, ids, seed), kj as int)),
{
    let span = SEARCH_SPAN as nat;
    lemma_find_position(prefix, ids, seed, j as nat, span);
    let kj = choose|k: nat| k < span && nfree(prefix, ids, seed, k) == j as nat && !ids.contains(#[trigger] cand(prefix, ids, seed, k as int));
    lemma_free_at(prefix, ids, seed, kj, span);
    if kj >= ki {
        lemma_nfree_mono(prefix, ids, seed, ki, kj);
    }
    lemma_index_of_id_for(prefix, step_index(start_index(prefix, ids, seed), kj as int), seed);
    assert(v[j] == cand(prefix, ids, seed, kj as int));
}

/// Every index met before search position `ki` belongs to an existing
/// identifier or to the batch before place `i`.
proof fn lemma_met_before(prefix: Seq<char>, ids: Seq<Seq<char>>, seed: u64, v: Seq<Seq<char>>, i: int, ki: nat, x: u16)
    requires
        v == free_candidates(prefix, ids, seed, SEARCH_SPAN as nat).take(v.len() as int),
        v.len() <= nfree(prefix, ids, seed, SEARCH_SPAN as nat),
        0 <= i < v.len(),
        ki < SEARCH_SPAN,
        nfree(prefix, ids, seed, ki) == i,
        pos_of(start_index(prefix, ids, seed), x) < ki,
    ensures
        (ids + v.take(i)).contains(id_for(prefix, x, seed)),
{
    let span = SEARCH_SPAN as nat;
    let big_s = start_index(prefix, ids, seed);
    let ids2 = ids + v.take(i);
    let p = pos_of(big_s, x);
    lemma_pos_of(big_s, x);
    assert(cand(prefix, ids, seed, p) == id_for(prefix, x, seed));
    if ids.contains(id_for(prefix, x, seed)) {
        let q = choose|q: int| 0 <= q < ids.len() && ids[q] == id_for(prefix, x, seed);
        assert(ids2[q] == id_for(prefix, x, seed));
    } else {
        lemma_free_at(prefix, ids, seed, p as nat, span);
        lemma_nfree_mono(prefix, ids, seed, (p + 1) as nat, ki);
        let j = nfree(prefix, ids, seed, p as nat) as int;
        assert(ids2[ids.len() + j] == v.take(i)[j]);
    }
}

/// Where the single search starts from a highest index (none: from 0).
proof fn lemma_start_arith(big_s: u16, ki: int, m2: u16)
    requires
        0 <= ki < SEARCH_SPAN,
        (m2 == 65535 && (big_s == 0 || big_s + ki >= 65536) && step_index(big_s, ki) < 65535) || (m2 < 65535
            && big_s + ki < 65536 && big_s <= m2 < big_s + ki),
    ensures
        ({
            let s2 = ((m2 + 1) % 65536) as u16;
            let kk = pos_of(s2, step_index(big_s, ki));
            &&& kk < SEARCH_SPAN
            &&& forall|k: int| 0 <= k < kk ==> pos_of(big_s, #[trigger] step_index(s2, k)) < ki
        }),
{
}

/// The new highest index, with the batch before place `i` added, is the
/// index of an existing identifier or of one of those places.
proof fn lemma_new_max(prefix: Seq<char>, ids: Seq<Seq<char>>, seed: u64, v: Seq<Seq<char>>, i: int, ki: nat)
    requires
        v == free_candidates(prefix, ids, seed, SEARCH_SPAN as nat).take(v.len() as int),
        v.len() <= nfree(prefix, ids, seed, SEARCH_SPAN as nat),
        0 < i < v.len(),
        ki < SEARCH_SPAN,
        nfree(prefix, ids, seed, ki) == i,
    ensures
        max_index(prefix, ids + v.take(i), seed) is Some,
        ({
            let m2 = max_index(prefix, ids + v.take(i), seed)->Some_0;
            let big_s = start_index(prefix, ids, seed);
            &&& (exists|k0: nat| k0 < ki && m2 >= #[trigger] step_index(big_s, k0 as int))
            &&& ((max_index(prefix, ids, seed) is Some && m2 <= max_index(prefix, ids, seed)->Some_0) || (exists|kj: nat|
                kj < ki && m2 == #[trigger] step_index(big_s, kj as int)))
            &&& forall|x: u16| (ids + v.take(i)).contains(#[trigger] id_for(prefix, x, seed)) ==> x <= m2
        }),
{
    let ids2 = ids + v.take(i);
    let big_s = start_index(prefix, ids, seed);
    lemma_max_index_bounds(prefix, ids, seed);
    lemma_max_index_bounds(prefix, ids2, seed);
    lemma_batch_place(prefix, ids, seed, v, 0, ki);
    assert(ids2[ids.len() as int] == v[0]);
    let m2 = max_index(prefix, ids2, seed)->Some_0;
    let j = choose|j: int| 0 <= j < ids2.len() && #[trigger] id_index(prefix, ids2[j], seed) == max_index(prefix, ids2, seed);
    if j >= ids.len() {
        lemma_batch_place(prefix, ids, seed, v, j - ids.len(), ki);
        assert(ids2[j] == v[j - ids.len()]);
    } else {
        assert(ids2[j] == ids[j]);
    }
    assert forall|x: u16| ids2.contains(#[trigger] id_for(prefix, x, seed)) implies x <= m2 by {
        lemma_index_of_id_for(prefix, x, seed);
        let q = choose|q: int| 0 <= q < ids2.len() && ids2[q] == id_for(prefix, x, seed);
        assert(id_index(prefix, ids2[q], seed) == Some(x));
    }
}

/// How many steps the single search, with the batch before place `i` added,
/// takes to reach the index of place `i`; every step before meets an index
/// the batch search met before position `ki`.
/// The arithmetic of the single search's start: from the facts on the new
/// highest index `m2`, the cases of `lemma_start_arith` follow.
proof fn lemma_start_cases(big_s: u16, ki: int, m2: u16, mo: Option<u16>, k0: int, kj: int)
    requires
        0 <= ki < SEARCH_SPAN,
        big_s == match mo {
            Some(m) => ((m + 1) % 65536) as u16,
            None => 0u16,
        },
        0 <= k0 < ki,
        m2 >= step_index(big_s, k0),
        (mo is Some && m2 <= mo->Some_0) || (0 <= kj < ki && m2 == step_index(big_s, kj)),
        mo is Some ==> mo->Some_0 <= m2,
        big_s + ki >= 65536 ==> m2 == 65535,
    ensures
        (m2 == 65535 && (big_s == 0 || big_s + ki >= 65536) && step_index(big_s, ki) < 65535) || (m2 < 65535
            && big_s + ki < 65536 && big_s <= m2 < big_s + ki),
{
}

/// How many steps the single search, with the batch before place `i` added,
/// takes to reach the index of place `i`; every step before meets an index
/// the batch search met before position `ki`.
proof fn lemma_single_start(prefix: Seq<char>, ids: Seq<Seq<char>>, seed: u64, v: Seq<Seq<char>>, i: int, ki: nat)
    requires
        v == free_candidates(prefix, ids, seed, SEARCH_SPAN as nat).take(v.len() as int),
        v.len() <= nfree(prefix, ids, seed, SEARCH_SPAN as nat),
        0 < i < v.len(),
        ki < SEARCH_SPAN,
        nfree(prefix, ids, seed, ki) == i,
    ensures
        ({
            let s2 = start_index(prefix, ids + v.take(i), seed);
            let xi = step_index(start_index(prefix, ids, seed), ki as int);
            let kk = pos_of(s2, xi);
            &&& kk < SEARCH_SPAN
            &&& forall|k: int| 0 <= k < kk ==> pos_of(start_index(prefix, ids, seed), #[trigger] step_index(s2, k)) < ki
        }),
{
    let big_s = start_index(prefix, ids, seed);
    let ids2 = ids + v.take(i);
    lemma_new_max(prefix, ids, seed, v, i, ki);
    let m2 = max_index(prefix, ids2, seed)->Some_0;
    let mo = max_index(prefix, ids, seed);
    let k0 = choose|k0: nat| k0 < ki && m2 >= #[trigger] step_index(big_s, k0 as int);
    let kj: int = if mo is Some && m2 <= mo->Some_0 {
        0
    } else {
        (choose|kj: nat| kj < ki && m2 == #[trigger] step_index(big_s, kj as int)) as int
    };
    assert(mo is Some ==> mo->Some_0 <= m2) by {
        if mo is Some {
            lemma_max_index_bounds(prefix, ids, seed);
            lemma_max_index_bounds(prefix, ids2, seed);
            let j = choose|j: int| 0 <= j < ids.len() && #[trigger] id_index(prefix, ids[j], seed) == mo;
            assert(ids2[j] == ids[j]);
        }
    }
    assert(big_s + ki >= 65536 ==> m2 == 65535) by {
        if big_s + ki >= 65536 {
            lemma_met_before(prefix, ids, seed, v, i, ki, 65535u16);
        }
    }
    lemma_start_cases(big_s, ki as int, m2, mo, k0 as int, kj);
    lemma_start_arith(big_s, ki as int, m2);
}

/// Generating a batch is generating one identifier at a time: the
/// identifier at place `i` of a batch is the next one generated once the
/// batch's earlier identifiers are added to the existing ones.
pub proof fn lemma_batch_is_successive_singles(
    prefix: Seq<char>,
    ids: Seq<Seq<char>>,
    count: nat,
    seed: u64,
    i: int,
)
    requires
        generated_ids(prefix, ids, count, seed) is Ok,
        0 <= i < count,
    ensures
        generated_ids(prefix, ids + generated_ids(prefix, ids, count, seed)->Ok_0.take(i), 1, seed) == Ok::<Seq<Seq<char>>, nat>(
            seq![generated_ids(prefix, ids, count, seed)->Ok_0[i]],
        ),
{
    let span = SEARCH_SPAN as nat;
    let v = generated_ids(prefix, ids, count, seed)->Ok_0;
    let free = free_candidates(prefix, ids, seed, span);
    lemma_generated_ids_fresh(prefix, ids, count, seed);
    let ids2 = ids + v.take(i);
    lemma_find_position(prefix, ids, seed, i as nat, span);
    let ki = choose|k: nat| k < span && nfree(prefix, ids, seed, k) == i as nat && !ids.contains(#[trigger] cand(prefix, ids, seed, k as int));
    lemma_free_at(prefix, ids, seed, ki, span);
    assert(v[i] == cand(prefix, ids, seed, ki as int));
    if i == 0 {
        assert(ids2 =~= ids);
        assert(free.take(1) =~= seq![v[0]]);
    } else {
        lemma_single_start(prefix, ids, seed, v, i, ki);
        let s2 = start_index(prefix, ids2, seed);
        let xi = step_index(start_index(prefix, ids, seed), ki as int);
        let kk = pos_of(s2, xi);
        lemma_pos_of(s2, xi);
        assert forall|k: int| 0 <= k < kk implies ids2.contains(#[trigger] cand(prefix, ids2, seed, k)) by {
            lemma_met_before(prefix, ids, seed, v, i, ki, step_index(s2, k));
        }
        lemma_none_free_before(prefix, ids2, seed, kk as nat);
        assert(!ids2.contains(v[i])) by {
            if ids2.contains(v[i]) {
                let q = choose|q: int| 0 <= q < ids2.len() && ids2[q] == v[i];
                if q >= ids.len() {
                    assert(v[q - ids.len()] == v[i]);
                }
            }
        }
        assert(cand(prefix, ids2, seed, kk) == v[i]);
        lemma_free_at(prefix, ids2, seed, kk as nat, span);
        let free2 = free_candidates(prefix, ids2, seed, span);
        assert(free2.take(1) =~= seq![v[i]]);
    }
}

/// Searches the identifiers of `generated_ids` with an explicit seed.
pub fn generate_ids_with_seed(prefix: &str, existing: &Vec<String>, count: usize, seed: u64) -> (r: Result<Vec<String>, IdError>)
    ensures
        ids_result_matches(r, prefix@, generated_ids(prefix@, ids_view(existing@), count as nat, seed), count as nat),
        r matches Err(IdError::Exhausted { generated, requested, .. }) ==> 1 <= requested && generated < requested,
{
    let ghost ids = ids_view(existing@);
    if count == 0 {
        let v: Vec<String> = Vec::new();
        assert(ids_view(v@) =~= Seq::<Seq<char>>::empty());
        return Ok(v);
    }
    let pre = chars_of(prefix);
    let mut has_any = false;
    let mut max_idx: u16 = 0;
    let mut taken: Vec<bool> = vec![false; 65536];
    let mut i: usize = 0;
    while i < existing.len()
        invariant
            i <= existing@.len(),
            ids == ids_view(existing@),
            pre@ == prefix@,
            taken@.len() == 65536,
            has_any == max_index(prefix@, ids.take(i as int), seed) is Some,
            has_any ==> max_index(prefix@, ids.take(i as int), seed) == Some(max_idx),
            forall|x: u16| #[trigger] taken@[x as int] <==> ids.take(i as int).contains(id_for(prefix@, x, seed)),
        decreases existing.len() - i,
    {
        let c = chars_of(existing[i].as_str());
        let ghost before = ids.take(i as int);
        let ghost after = ids.take(i + 1);
        assert(after.drop_last() =~= before);
        assert(after.last() == c@);
        assert forall|id: Seq<char>| after.contains(id) <==> (before.contains(id) || id == c@) by {
            if after.contains(id) {
                let j = choose|j: int| 0 <= j < after.len() && after[j] == id;
                if j < i {
                    assert(before[j] == id);
                }
            }
            if before.contains(id) {
                let j = choose|j: int| 0 <= j < before.len() && before[j] == id;
                assert(after[j] == id);
            }
            if id == c@ {
                assert(after[i as int] == id);
            }
        }
        if starts_with_exec(&c, &pre) {
            let suffix = slice_of(&c, pre.len(), c.len());
            assert(suffix@ =~= c@.skip(pre@.len() as int));
            let val = from_quint(&suffix);
            let idx = unpermute(val, seed);
            if !has_any || idx > max_idx {
                max_idx = idx;
                has_any = true;
            }
            let enc = to_quint(val);
            let canonical = eq(&enc, &suffix);
            if canonical {
                taken.set(idx as usize, true);
            }
            assert forall|x: u16| #[trigger] taken@[x as int] <==> after.contains(id_for(prefix@, x, seed)) by {
                lemma_id_for_match(prefix@, c@, x, seed);
            }
        } else {
            assert forall|x: u16| #[trigger] taken@[x as int] <==> after.contains(id_for(prefix@, x, seed)) by {
                lemma_id_for_match(prefix@, c@, x, seed);
            }
        }
        i = i + 1;
    }
    assert(ids.take(existing@.len() as int) =~= ids);
    let start: u16 = if has_any {
        if max_idx == 65535 { 0 } else { max_idx + 1 }
    } else {
        0
    };
    assert(start == start_index(prefix@, ids, seed));
    let mut results: Vec<String> = Vec::new();
    let mut k: u32 = 0;
    while k < SEARCH_SPAN
        invariant
            k <= SEARCH_SPAN,
            ids == ids_view(existing@),
            pre@ == prefix@,
            0 < count,
            start == start_index(prefix@, ids, seed),
            taken@.len() == 65536,
            ids_view(results@) == free_candidates(prefix@, ids, seed, k as nat),
            results@.len() < count,
            forall|x: u16| #[trigger] taken@[x as int] <==> (ids.contains(id_for(prefix@, x, seed))
                || exists|j: int| 0 <= j < k && step_index(start, j) == x),
        decreases SEARCH_SPAN - k,
    {
        let idx: u16 = ((start as u32 + k) % 65536) as u16;
        assert(idx == step_index(start, k as int));
        assert(!exists|j: int| 0 <= j < k && step_index(start, j) == idx);
        let ghost c = id_for(prefix@, idx, seed);
        let ghost prev = ids_view(results@);
        if !taken[idx as usize] {
            taken.set(idx as usize, true);
            let q = to_quint(permute(idx, seed));
            let id = concat(&pre, &q);
            results.push(string_of(&id));
            assert(ids_view(results@) =~= prev.push(c));
            if results.len() == count {
                proof {
                    lemma_free_prefix(prefix@, ids, seed, (k + 1) as nat, SEARCH_SPAN as nat);
                }
                return Ok(results);
            }
        }
        assert forall|x: u16| #[trigger] taken@[x as int] <==> (ids.contains(id_for(prefix@, x, seed))
            || exists|j: int| 0 <= j < k + 1 && step_index(start, j) == x) by {
            if x == idx {
                assert(step_index(start, k as int) == x);
            }
            if exists|j: int| 0 <= j < k + 1 && step_index(start, j) == x {
                let j = choose|j: int| 0 <= j < k + 1 && step_index(start, j) == x;
                if j < k {
                } else {
                    assert(x == idx);
                }
            }
        }
        k = k + 1;
    }
    Err(IdError::Exhausted { prefix: string_of(&pre), generated: results.len(), requested: count })
}

/// The first `count` free identifiers for the prefix, with the seed derived
/// from the project name.
pub fn generate_ids(prefix: &str, existing: &Vec<String>, count: usize, project_name: &str) -> (r: Result<Vec<String>, IdError>)
    ensures
        ids_result_matches(r, prefix@, generated_ids(prefix@, ids_view(existing@), count as nat, name_hash(project_name@)), count as nat),
        r matches Err(IdError::Exhausted { generated, requested, .. }) ==> 1 <= requested && generated < requested,
{
    if count == 0 {
        let v: Vec<String> = Vec::new();
        assert(ids_view(v@) =~= Seq::<Seq<char>>::empty());
        return Ok(v);
    }
    let seed = hash_seed(project_name);
    generate_ids_with_seed(prefix, existing, count, seed)
}

/// The next free identifier for the prefix.
pub fn generate_next_id(prefix: &str, existing: &Vec<String>, project_name: &str) -> (r: Result<String, IdError>)
    ensures
        match generated_ids(prefix@, ids_view(existing@), 1, name_hash(project_name@)) {
            Ok(s) => r matches Ok(id) && id@ == s[0],
            Err(n) => r matches Err(IdError::Exhausted { prefix: p, generated: g, requested: q })
                && p@ == prefix@ && g == n && q == 1,
        },
{
    match generate_ids(prefix, existing, 1, project_name) {
        Ok(mut v) => {
            let ghost g = generated_ids(prefix@, ids_view(existing@), 1, name_hash(project_name@));
            assert(g is Ok);
            assert(g->Ok_0.len() == 1);
            assert(ids_view(v@).len() == v@.len());
            assert(ids_view(v@)[0] == v@[0]@);
            Ok(v.remove(0))
        },
        Err(e) => Err(e),
    }
}

} // verus!
