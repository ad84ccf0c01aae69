//! Stress patterns of metrical lines: counting stresses, comparing two patterns
//! position by position, and labelling lines as graph nodes.

use vstd::prelude::*;
use vstd::string::StringExecFns;
use crate::text::{append_decimal, decimal};

verus! {

/// Number of stressed syllables in a stress pattern.
pub open spec fn stressed(s: Seq<bool>) -> nat
    decreases s.len(),
{
    if s.len() == 0 {
        0
    } else {
        stressed(s.drop_last()) + if s.last() { 1nat } else { 0nat }
    }
}

/// The stress at position `i`, unstressed past the end of the pattern.
pub open spec fn stress_at(s: Seq<bool>, i: int) -> bool {
    if 0 <= i < s.len() {
        s[i]
    } else {
        false
    }
}

/// Number of positions below `m` at which two patterns (padded with unstressed
/// syllables) agree.
pub open spec fn agreements(a: Seq<bool>, b: Seq<bool>, m: int) -> nat
    decreases m,
{
    if m <= 0 {
        0
    } else {
        agreements(a, b, m - 1) + if stress_at(a, m - 1) == stress_at(b, m - 1) { 1nat } else { 0nat }
    }
}

/// The length over which two patterns are compared: the longer of the two.
pub open spec fn compared_length(a: Seq<bool>, b: Seq<bool>) -> nat {
    if a.len() >= b.len() { a.len() } else { b.len() }
}

proof fn lemma_stressed_le_len(s: Seq<bool>)
    ensures
        stressed(s) <= s.len(),
    decreases s.len(),
{
    if s.len() > 0 {
        lemma_stressed_le_len(s.drop_last());
    }
}

/// Counts the stressed syllables of a pattern.
pub fn stress_count(stresses: &Vec<bool>) -> (c: usize)
    ensures
        c == stressed(stresses@),
        c == stresses@.filter(|x: bool| x).len(),
        c <= stresses@.len(),
{
    let mut c: usize = 0;
    for i in 0..stresses.len()
        invariant
            c == stressed(stresses@.take(i as int)),
            c <= i,
    {
        proof {
            assert(stresses@.take(i + 1).drop_last() =~= stresses@.take(i as int));
        }
        if stresses[i] {
            c = c + 1;
        }
    }
    proof {
        assert(stresses@.take(stresses@.len() as int) =~= stresses@);
        lemma_stressed_le_len(stresses@);
        lemma_stressed_counts_true_syllables(stresses@);
    }
    c
}

/// Compares two stress patterns position by position, the shorter one padded with
/// unstressed syllables; returns the number of agreeing positions and the number
/// of positions compared. Their ratio is the stress similarity of the two lines
/// (1 when no position is compared).
pub fn stress_agreement(a: &Vec<bool>, b: &Vec<bool>) -> (r: (usize, usize))
    ensures
        r.1 == compared_length(a@, b@),
        r.0 == agreements(a@, b@, r.1 as int),
        r.0 <= r.1,
{
    let max_len = if a.len() >= b.len() { a.len() } else { b.len() };
    let mut matches: usize = 0;
    for i in 0..max_len
        invariant
            max_len == compared_length(a@, b@),
            matches == agreements(a@, b@, i as int),
            matches <= i,
    {
        let x = if i < a.len() { a[i] } else { false };
        let y = if i < b.len() { b[i] } else { false };
        if x == y {
            matches = matches + 1;
        }
    }
    (matches, max_len)
}

/// Agreement between stress patterns is symmetric.
pub proof fn lemma_agreement_symmetric(a: Seq<bool>, b: Seq<bool>, m: int)
    ensures
        agreements(a, b, m) == agreements(b, a, m),
        compared_length(a, b) == compared_length(b, a),
    decreases m,
{
    if m > 0 {
        lemma_agreement_symmetric(a, b, m - 1);
    }
}

/// A pattern agrees with itself at every compared position, so a line's stress
/// similarity with itself is 1.
pub proof fn lemma_agreement_with_self(a: Seq<bool>, m: int)
    requires
        m >= 0,
    ensures
        agreements(a, a, m) == m,
        compared_length(a, a) == a.len(),
    decreases m,
{
    if m > 0 {
        lemma_agreement_with_self(a, m - 1);
    }
}

/// The stressed count is the number of stressed syllables, and the unstressed ones
/// make up the rest of the line.
pub proof fn lemma_stressed_counts_true_syllables(s: Seq<bool>)
    ensures
        stressed(s) == s.filter(|x: bool| x).len(),
        stressed(s) + s.filter(|x: bool| !x).len() == s.len(),
    decreases s.len(),
{
    reveal(Seq::filter);
    if s.len() > 0 {
        lemma_stressed_counts_true_syllables(s.drop_last());
    }
}

proof fn lemma_agreement_with_silence_prefix(b: Seq<bool>, m: int)
    requires
        0 <= m <= b.len(),
    ensures
        agreements(Seq::<bool>::empty(), b, m) == b.take(m).filter(|x: bool| !x).len(),
    decreases m,
{
    reveal(Seq::filter);
    if m > 0 {
        lemma_agreement_with_silence_prefix(b, m - 1);
        assert(b.take(m).drop_last() =~= b.take(m - 1));
    } else {
        assert(b.take(0) =~= Seq::<bool>::empty());
    }
}

/// Compared with a line of no syllables, a line agrees exactly at its unstressed
/// syllables: missing syllables count as unstressed.
pub proof fn lemma_agreement_with_silence(b: Seq<bool>)
    ensures
        compared_length(Seq::<bool>::empty(), b) == b.len(),
        agreements(Seq::<bool>::empty(), b, b.len() as int) == b.filter(|x: bool| !x).len(),
{
    lemma_agreement_with_silence_prefix(b, b.len() as int);
    assert(b.take(b.len() as int) =~= b);
}

proof fn lemma_agreement_padding_prefix(a: Seq<bool>, b: Seq<bool>, m: int)
    ensures
        agreements(a.push(false), b, m) == agreements(a, b, m),
    decreases m,
{
    if m > 0 {
        lemma_agreement_padding_prefix(a, b, m - 1);
        let i = m - 1;
        assert(stress_at(a.push(false), i) == stress_at(a, i));
    }
}

/// Appending an unstressed syllable to the shorter of two lines changes neither
/// how many positions are compared nor how many agree.
pub proof fn lemma_agreement_padding(a: Seq<bool>, b: Seq<bool>)
    requires
        a.len() < b.len(),
    ensures
        compared_length(a.push(false), b) == compared_length(a, b),
        agreements(a.push(false), b, compared_length(a.push(false), b) as int) == agreements(a, b, compared_length(a, b) as int),
{
    lemma_agreement_padding_prefix(a, b, b.len() as int);
}

/// The label of the `index`-th line of a graph: its language, a colon, and the index.
pub open spec fn node_label_text(language: Seq<char>, index: nat) -> Seq<char> {
    language + ":"@ + decimal(index)
}

/// Labels the `index`-th line, written in `language`, as a graph node.
pub fn node_label(language: &str, index: usize) -> (s: String)
    ensures
        s@ == node_label_text(language@, index as nat),
{
    let mut s = String::from_str(language);
    s.append(":");
    append_decimal(&mut s, index);
    s
}

} // verus!
