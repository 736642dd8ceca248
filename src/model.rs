//! The mathematical model of the comparison: the greedy pairing of actual
//! elements with expected ones, the text of the mismatch report, and the laws
//! that tie the outcome to multiset equality.

use vstd::multiset::Multiset;
use vstd::prelude::*;

verus! {

/// The text of one decimal digit `d` (`d < 10`).
pub open spec fn digit(d: nat) -> Seq<char> {
    if d == 0 {
        "0"@
    } else if d == 1 {
        "1"@
    } else if d == 2 {
        "2"@
    } else if d == 3 {
        "3"@
    } else if d == 4 {
        "4"@
    } else if d == 5 {
        "5"@
    } else if d == 6 {
        "6"@
    } else if d == 7 {
        "7"@
    } else if d == 8 {
        "8"@
    } else {
        "9"@
    }
}

/// The decimal text of `n`, without leading zeros: how an element is shown.
pub open spec fn decimal(n: nat) -> Seq<char>
    decreases n,
{
    if n < 10 {
        digit(n)
    } else {
        decimal(n / 10) + digit(n % 10)
    }
}

/// Position `i` of `vals` as rendered: the value when flagged, `_` otherwise.
pub open spec fn shown(vals: Seq<u32>, flags: Seq<bool>, i: int) -> Seq<char> {
    if flags[i] {
        decimal(vals[i] as nat)
    } else {
        "_"@
    }
}

/// The first `k` positions of `vals`, rendered and joined with `, `.
pub open spec fn joined(vals: Seq<u32>, flags: Seq<bool>, k: nat) -> Seq<char>
    decreases k,
{
    if k == 0 {
        Seq::empty()
    } else if k == 1 {
        shown(vals, flags, 0)
    } else {
        joined(vals, flags, (k - 1) as nat) + ", "@ + shown(vals, flags, k - 1)
    }
}

/// One report line's list: every position of `vals`, in brackets, then a newline.
pub open spec fn bracketed(vals: Seq<u32>, flags: Seq<bool>) -> Seq<char> {
    "["@ + joined(vals, flags, vals.len()) + "]\n"@
}

/// Whether some flag is set.
pub open spec fn any_set(flags: Seq<bool>) -> bool {
    exists|k: int| 0 <= k < flags.len() && flags[k]
}

/// The first position `j` at or after `from` that is still free and holds `v`.
pub open spec fn first_free(e: Seq<u32>, free: Seq<bool>, v: u32, from: nat) -> Option<nat>
    decreases e.len() - from,
{
    if from >= e.len() {
        None
    } else if free[from as int] && e[from as int] == v {
        Some(from)
    } else {
        first_free(e, free, v, from + 1)
    }
}

/// The state of the greedy pairing after the first `i` actual elements: which
/// expected positions are still free, and which of those actual elements found
/// no free equal expected element (the unexpected ones).
pub open spec fn pairing(a: Seq<u32>, e: Seq<u32>, i: nat) -> (Seq<bool>, Seq<bool>)
    decreases i,
{
    if i == 0 {
        (Seq::new(e.len(), |j: int| true), Seq::empty())
    } else {
        let (free, unexpected) = pairing(a, e, (i - 1) as nat);
        match first_free(e, free, a[i - 1], 0) {
            Some(j) => (free.update(j as int, false), unexpected.push(false)),
            None => (free, unexpected.push(true)),
        }
    }
}

/// Flags of the actual elements left unpaired once all of `a` is processed.
pub open spec fn unexpected_flags(a: Seq<u32>, e: Seq<u32>) -> Seq<bool> {
    pairing(a, e, a.len()).1
}

/// Flags of the expected elements that no actual element claimed.
pub open spec fn missing_flags(a: Seq<u32>, e: Seq<u32>) -> Seq<bool> {
    pairing(a, e, a.len()).0
}

/// The full mismatch report for actual `a` against expected `e`.
pub open spec fn report(a: Seq<u32>, e: Seq<u32>) -> Seq<char> {
    let unexpected = unexpected_flags(a, e);
    let missing = missing_flags(a, e);
    "Vectors contain different values:\n"@ + (if any_set(unexpected) {
        "Unexpected values: "@ + bracketed(a, unexpected)
    } else {
        Seq::empty()
    }) + (if any_set(missing) {
        "Missing expected values: "@ + bracketed(e, missing)
    } else {
        Seq::empty()
    })
}

/// The outcome of comparing actual `a` against expected `e`: success when
/// nothing is left over on either side, else the report.
pub open spec fn outcome(a: Seq<u32>, e: Seq<u32>) -> Result<(), Seq<char>> {
    if any_set(unexpected_flags(a, e)) || any_set(missing_flags(a, e)) {
        Err(report(a, e))
    } else {
        Ok(())
    }
}

/// How many positions `k` of `s` hold `v` and have flag `f[k] == want`.
pub open spec fn count_flagged(s: Seq<u32>, f: Seq<bool>, v: u32, want: bool) -> nat
    decreases s.len(),
{
    if s.len() == 0 {
        0
    } else {
        let k = s.len() - 1;
        count_flagged(s.drop_last(), f, v, want) + if s[k] == v && f[k] == want {
            1nat
        } else {
            0nat
        }
    }
}

/// Every occurrence of `v` in `s` is counted either among the flagged
/// positions or among the others.
proof fn lemma_count_split(s: Seq<u32>, f: Seq<bool>, v: u32)
    ensures
        count_flagged(s, f, v, true) + count_flagged(s, f, v, false) == s.to_multiset().count(v),
    decreases s.len(),
{
    broadcast use vstd::seq_lib::group_to_multiset_ensures;

    if s.len() == 0 {
        assert(s.to_multiset() =~= Multiset::empty());
    } else {
        lemma_count_split(s.drop_last(), f, v);
        assert(s.drop_last().push(s.last()) =~= s);
        vstd::seq_lib::to_multiset_build(s.drop_last(), s.last());
    }
}

/// Counting depends on the flags of the counted positions only.
proof fn lemma_count_agree(s: Seq<u32>, f: Seq<bool>, g: Seq<bool>, v: u32, want: bool)
    requires
        forall|k: int| 0 <= k < s.len() ==> f[k] == g[k],
    ensures
        count_flagged(s, f, v, want) == count_flagged(s, g, v, want),
    decreases s.len(),
{
    if s.len() > 0 {
        lemma_count_agree(s.drop_last(), f, g, v, want);
    }
}

/// The count changes by what one changed flag contributes.
proof fn lemma_count_update(s: Seq<u32>, f: Seq<bool>, j: int, b: bool, v: u32, want: bool)
    requires
        0 <= j < f.len(),
        s.len() <= f.len(),
    ensures
        count_flagged(s, f.update(j, b), v, want) as int == count_flagged(s, f, v, want) as int
            - (if j < s.len() && s[j] == v && f[j] == want { 1int } else { 0int })
            + (if j < s.len() && s[j] == v && b == want { 1int } else { 0int }),
    decreases s.len(),
{
    if s.len() > 0 {
        lemma_count_update(s.drop_last(), f, j, b, v, want);
    }
}

/// The count is positive exactly when some position holds `v` with flag `want`.
proof fn lemma_count_positive(s: Seq<u32>, f: Seq<bool>, v: u32, want: bool)
    ensures
        count_flagged(s, f, v, want) > 0 <==> exists|k: int|
            0 <= k < s.len() && s[k] == v && f[k] == want,
    decreases s.len(),
{
    if s.len() > 0 {
        lemma_count_positive(s.drop_last(), f, v, want);
        let k = s.len() - 1;
        if count_flagged(s, f, v, want) > 0 {
            if !(s[k] == v && f[k] == want) {
                let w = choose|w: int|
                    0 <= w < s.drop_last().len() && s.drop_last()[w] == v && f[w] == want;
                assert(s[w] == v);
            }
        } else {
            assert forall|w: int| 0 <= w < s.len() implies !(s[w] == v && f[w] == want) by {
                if w < k {
                    assert(s.drop_last()[w] == s[w]);
                }
            }
        }
    }
}

/// What the scan for a free equal element finds.
proof fn lemma_first_free(e: Seq<u32>, free: Seq<bool>, v: u32, from: nat)
    ensures
        match first_free(e, free, v, from) {
            Some(j) => from <= j < e.len() && free[j as int] && e[j as int] == v,
            None => forall|k: int| from <= k < e.len() ==> !(free[k] && e[k] == v),
        },
    decreases e.len() - from,
{
    if from < e.len() {
        lemma_first_free(e, free, v, from + 1);
    }
}

/// What holds after the greedy pairing has processed the first `i` actual
/// elements: the paired actual elements and the claimed expected elements
/// have the same counts, and no unexpected element has a free equal partner.
proof fn lemma_pairing(a: Seq<u32>, e: Seq<u32>, i: nat)
    requires
        i <= a.len(),
    ensures
        pairing(a, e, i).0.len() == e.len(),
        pairing(a, e, i).1.len() == i,
        forall|v: u32|
            count_flagged(a.take(i as int), pairing(a, e, i).1, v, false) == count_flagged(
                e,
                pairing(a, e, i).0,
                v,
                false,
            ),
        forall|k: int|
            0 <= k < i && #[trigger] pairing(a, e, i).1[k] ==> count_flagged(
                e,
                pairing(a, e, i).0,
                a[k],
                true,
            ) == 0,
    decreases i,
{
    if i == 0 {
        assert forall|v: u32|
            count_flagged(a.take(0), pairing(a, e, 0).1, v, false) == count_flagged(
                e,
                pairing(a, e, 0).0,
                v,
                false,
            ) by {
            lemma_count_positive(e, pairing(a, e, 0).0, v, false);
        }
    } else {
        let p = (i - 1) as nat;
        lemma_pairing(a, e, p);
        let (free, u) = pairing(a, e, p);
        let (free2, u2) = pairing(a, e, i);
        let x = a[p as int];
        let s = a.take(i as int);
        assert(s.drop_last() =~= a.take(p as int));
        lemma_first_free(e, free, x, 0);
        assert forall|v: u32|
            count_flagged(s, u2, v, false) == count_flagged(e, free2, v, false) by {
            lemma_count_agree(a.take(p as int), u, u2, v, false);
            match first_free(e, free, x, 0) {
                Some(j) => {
                    lemma_count_update(e, free, j as int, false, v, false);
                },
                None => {},
            }
        }
        assert forall|k: int| 0 <= k < i && #[trigger] u2[k] implies count_flagged(
            e,
            free2,
            a[k],
            true,
        ) == 0 by {
            match first_free(e, free, x, 0) {
                Some(j) => {
                    assert(u2[k] == u[k]);
                    lemma_count_update(e, free, j as int, false, a[k], true);
                },
                None => {
                    if k == p {
                        lemma_count_positive(e, free, x, true);
                    } else {
                        assert(u2[k] == u[k]);
                    }
                },
            }
        }
    }
}

/// The comparison succeeds exactly when the two sequences hold the same
/// multiset of values: for every value, as many occurrences in one as in the
/// other.
pub proof fn lemma_outcome_ok_iff_same_multiset(a: Seq<u32>, e: Seq<u32>)
    ensures
        outcome(a, e) is Ok <==> a.to_multiset() == e.to_multiset(),
{
    let n = a.len();
    lemma_pairing(a, e, n);
    let (free, u) = pairing(a, e, n);
    assert(a.take(n as int) =~= a);
    if !any_set(u) && !any_set(free) {
        assert forall|v: u32| a.to_multiset().count(v) == e.to_multiset().count(v) by {
            lemma_count_split(a, u, v);
            lemma_count_split(e, free, v);
            lemma_count_positive(a, u, v, true);
            lemma_count_positive(e, free, v, true);
        }
        assert(a.to_multiset() =~= e.to_multiset());
    } else if any_set(u) {
        let k = choose|k: int| 0 <= k < u.len() && u[k];
        let v = a[k];
        lemma_count_split(a, u, v);
        lemma_count_split(e, free, v);
        lemma_count_positive(a, u, v, true);
        assert(a.to_multiset().count(v) != e.to_multiset().count(v));
    } else {
        let k = choose|k: int| 0 <= k < free.len() && free[k];
        let v = e[k];
        lemma_count_split(a, u, v);
        lemma_count_split(e, free, v);
        lemma_count_positive(a, u, v, true);
        lemma_count_positive(e, free, v, true);
        assert(a.to_multiset().count(v) != e.to_multiset().count(v));
    }
}

/// Reordering never makes the comparison fail: a sequence compared against
/// any permutation of it (the same multiset of values) succeeds.
pub proof fn lemma_permutation_succeeds(a: Seq<u32>, b: Seq<u32>)
    requires
        a.to_multiset() == b.to_multiset(),
    ensures
        outcome(a, b) is Ok,
{
    lemma_outcome_ok_iff_same_multiset(a, b);
}

/// A sequence compared against itself always succeeds, the empty one included.
pub proof fn lemma_reflexive(a: Seq<u32>)
    ensures
        outcome(a, a) is Ok,
{
    lemma_outcome_ok_iff_same_multiset(a, a);
}

} // verus!
