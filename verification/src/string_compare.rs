//! Similarity metrics between fragment strings: exact equality, or
//! Levenshtein distance within a threshold.

use crate::Metric;
use vstd::prelude::*;

verus! {

/// The smaller of two natural numbers.
pub open spec fn nat_min(a: nat, b: nat) -> nat {
    if a <= b {
        a
    } else {
        b
    }
}

/// The Levenshtein distance between two character sequences: the minimum
/// number of single-character insertions, deletions and substitutions that
/// turn one into the other.
pub open spec fn lev_dist(a: Seq<char>, b: Seq<char>) -> nat
    decreases a.len(), b.len(),
{
    if a.len() == 0 {
        b.len()
    } else if b.len() == 0 {
        a.len()
    } else {
        let rest = lev_dist(a.drop_first(), b.drop_first());
        if a.first() == b.first() {
            rest
        } else {
            let del = lev_dist(a.drop_first(), b);
            let ins = lev_dist(a, b.drop_first());
            1 + nat_min(rest, nat_min(del, ins))
        }
    }
}

/// Whether two fragment strings count as plagiarism under the given metric
/// and cutoff: equality for `Metric::Equal`, Levenshtein distance of at
/// most `cutoff` for `Metric::Lev`.
pub open spec fn is_match(a: Seq<char>, b: Seq<char>, metric: Metric, cutoff: nat) -> bool {
    match metric {
        Metric::Equal => a == b,
        Metric::Lev => lev_dist(a, b) <= cutoff,
    }
}

/// Checks if two strings are equal.
/// Relies on str's PartialEq: equality of the two strings' characters.
#[verifier::external_body]
fn check_equal(s1: &str, s2: &str) -> (r: bool)
    ensures
        r == (s1@ == s2@),
{
    s1 == s2
}

/// Relies on strsim::levenshtein: the minimum number of character
/// insertions, deletions and substitutions required to change one string
/// into the other.
#[verifier::external_body]
fn levenshtein(s1: &str, s2: &str) -> (r: usize)
    ensures
        r == lev_dist(s1@, s2@),
{
    strsim::levenshtein(s1, s2)
}

/// Checks the Levenshtein distance between the strings against the cutoff.
fn check_lev(s1: &str, s2: &str, cutoff: usize) -> (r: bool)
    ensures
        r == (lev_dist(s1@, s2@) <= cutoff),
{
    levenshtein(s1, s2) <= cutoff
}

/// Decides whether two fragment strings count as plagiarism under the
/// given metric and cutoff.
pub fn is_plagiarised(s1: &str, s2: &str, metric: Metric, cutoff: usize) -> (r: bool)
    ensures
        r == is_match(s1@, s2@, metric, cutoff as nat),
{
    match metric {
        Metric::Equal => check_equal(s1, s2),
        Metric::Lev => check_lev(s1, s2, cutoff),
    }
}

/// The equality metric is reflexive and symmetric: a string always matches
/// itself, and whether two strings match does not depend on their order.
pub proof fn lemma_equal_metric_reflexive_symmetric(a: Seq<char>, b: Seq<char>, cutoff: nat)
    ensures
        is_match(a, a, Metric::Equal, cutoff),
        is_match(a, b, Metric::Equal, cutoff) == is_match(b, a, Metric::Equal, cutoff),
{
}

} // verus!
