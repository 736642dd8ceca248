//! The vector asserter: wraps the vector a system under test produced and
//! compares it against an expected vector as a multiset.

use vstd::prelude::*;
use vstd::string::StringExecFns;
use crate::model::{
    any_set, first_free, lemma_outcome_ok_iff_same_multiset, outcome, pairing, report,
};
use crate::render::write_bad_values;

verus! {

/// A wrapper around a `Vec` for doing specialized assertions.
pub struct AssertVec<T>(Vec<T>);

impl<T> View for AssertVec<T> {
    type V = Seq<T>;

    /// The wrapped elements, in order.
    closed spec fn view(&self) -> Seq<T> {
        self.0@
    }
}

impl<T> AssertVec<T> {
    /// Creates a new `AssertVec` from the given `Vec`, typically the product
    /// of the system under test.
    pub fn new(v: Vec<T>) -> (r: AssertVec<T>)
        ensures
            r@ == v@,
    {
        AssertVec(v)
    }
}

impl AssertVec<u32> {
    /// Tests whether the wrapped `Vec` contains the same elements as
    /// `expected`, in any order: there must be a one-to-one pairing of equal
    /// elements, so duplicates must occur equally often in both.
    ///
    /// Returns `Ok(())` when they do. Otherwise returns the report, which
    /// lists the wrapped elements that found no partner and the expected
    /// elements that none claimed, each in its original position, with paired
    /// positions shown as `_`.
    pub fn contains_only(&self, expected: Vec<u32>) -> (r: Result<(), String>)
        ensures
            r is Ok <==> self@.to_multiset() == expected@.to_multiset(),
            match r {
                Ok(_) => outcome(self@, expected@) is Ok,
                Err(msg) => outcome(self@, expected@) == Err::<(), Seq<char>>(msg@),
            },
    {
        let actual = &self.0;
        let n = expected.len();
        let mut free: Vec<bool> = Vec::new();
        let mut j: usize = 0;
        while j < n
            invariant
                j <= n,
                n == expected.len(),
                free@ =~= Seq::new(j as nat, |k: int| true),
            decreases n - j,
        {
            free.push(true);
            j = j + 1;
        }
        let mut unexpected: Vec<bool> = Vec::new();
        let mut i: usize = 0;
        while i < actual.len()
            invariant
                i <= actual.len(),
                n == expected.len(),
                actual@ == self@,
                (free@, unexpected@) == pairing(self@, expected@, i as nat),
                free.len() == n,
                unexpected.len() == i,
            decreases actual.len() - i,
        {
            match find_free(&expected, &free, actual[i]) {
                Some(k) => {
                    free.set(k, false);
                    unexpected.push(false);
                },
                None => {
                    unexpected.push(true);
                },
            }
            i = i + 1;
        }
        proof {
            lemma_outcome_ok_iff_same_multiset(self@, expected@);
        }
        let has_unexpected = has_any(&unexpected);
        let has_missing = has_any(&free);
        if !has_unexpected && !has_missing {
            return Ok(());
        }
        let mut msg = String::from_str("Vectors contain different values:\n");
        if has_unexpected {
            msg.append("Unexpected values: ");
            write_bad_values(&mut msg, actual, &unexpected);
        }
        if has_missing {
            msg.append("Missing expected values: ");
            write_bad_values(&mut msg, &expected, &free);
        }
        assert(msg@ =~= report(self@, expected@));
        Err(msg)
    }
}

/// The first position that is still free and holds `v`, scanning from the
/// start.
fn find_free(e: &Vec<u32>, free: &Vec<bool>, v: u32) -> (r: Option<usize>)
    requires
        free.len() == e.len(),
    ensures
        match r {
            Some(j) => first_free(e@, free@, v, 0) == Some(j as nat) && j < e.len(),
            None => first_free(e@, free@, v, 0) is None,
        },
{
    let mut j: usize = 0;
    while j < e.len()
        invariant
            j <= e.len(),
            free.len() == e.len(),
            first_free(e@, free@, v, 0) == first_free(e@, free@, v, j as nat),
        decreases e.len() - j,
    {
        if free[j] && e[j] == v {
            return Some(j);
        }
        j = j + 1;
    }
    None
}

/// Whether some flag is set.
fn has_any(flags: &Vec<bool>) -> (r: bool)
    ensures
        r == any_set(flags@),
{
    let mut k: usize = 0;
    while k < flags.len()
        invariant
            k <= flags.len(),
            forall|m: int| 0 <= m < k ==> !flags[m],
        decreases flags.len() - k,
    {
        if flags[k] {
            return true;
        }
        k = k + 1;
    }
    false
}

} // verus!
