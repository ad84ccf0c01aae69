//! Rhyme schemes encoded as adjacency matrices over lines.
//! Lines that share a rhyme class are adjacent; ABAB and AABB differ in shape.

use vstd::prelude::*;
use vstd::string::StringExecFns;
use crate::text::{append_decimal, decimal, push_char};

verus! {

/// A rhyme scheme encoded as pattern plus adjacency matrix.
#[derive(Clone, Debug)]
pub struct RhymeScheme {
    /// Rhyme class per line: lines with the same index rhyme.
    pub pattern: Vec<usize>,
    /// Adjacency weights: 1 if two distinct lines rhyme, 0 otherwise.
    pub adjacency: Vec<Vec<u8>>,
}

/// Whether lines `i` and `j` of a pattern rhyme with each other (distinct lines, same class).
pub open spec fn rhymes(pattern: Seq<usize>, i: int, j: int) -> bool {
    i != j && pattern[i] == pattern[j]
}

/// The adjacency matrix that a pattern determines.
pub open spec fn adjacency_of(pattern: Seq<usize>, adjacency: Seq<Seq<u8>>) -> bool {
    &&& adjacency.len() == pattern.len()
    &&& forall|i: int| 0 <= i < pattern.len() ==> #[trigger] adjacency[i].len() == pattern.len()
    &&& forall|i: int, j: int|
        0 <= i < pattern.len() && 0 <= j < pattern.len() ==> #[trigger] adjacency[i][j] == (if rhymes(pattern, i, j) { 1u8 } else { 0u8 })
}

/// An ASCII letter, upper or lower case.
pub open spec fn is_ascii_letter(c: char) -> bool {
    ('A' <= c && c <= 'Z') || ('a' <= c && c <= 'z')
}

/// The rhyme class that a letter names: its code minus the code of `A`.
pub open spec fn letter_class(c: char) -> usize {
    (c as int - 65) as usize
}

/// The pattern that a textual scheme such as "ABAB" denotes: its letters, in order, as classes.
pub open spec fn pattern_of_text(s: Seq<char>) -> Seq<usize> {
    s.filter(|c: char| is_ascii_letter(c)).map_values(|c: char| letter_class(c))
}

fn is_ascii_letter_exec(c: char) -> (b: bool)
    ensures
        b == is_ascii_letter(c),
{
    ('A' <= c && c <= 'Z') || ('a' <= c && c <= 'z')
}

proof fn lemma_pattern_of_text_push(s: Seq<char>, c: char)
    ensures
        pattern_of_text(s.push(c)) == if is_ascii_letter(c) {
            pattern_of_text(s).push(letter_class(c))
        } else {
            pattern_of_text(s)
        },
{
    reveal(Seq::filter);
    assert(s.push(c).drop_last() =~= s);
    let f = |c: char| is_ascii_letter(c);
    let g = |c: char| letter_class(c);
    if is_ascii_letter(c) {
        assert(s.push(c).filter(f) =~= s.filter(f).push(c));
        assert(s.filter(f).push(c).map_values(g) =~= s.filter(f).map_values(g).push(g(c)));
    } else {
        assert(s.push(c).filter(f) =~= s.filter(f));
    }
}

/// Number of lines `j` with `i < j < end` that share the class of line `i`.
pub open spec fn later_rhymes(p: Seq<usize>, i: int, end: int) -> nat
    decreases end - i,
{
    if end <= i + 1 {
        0
    } else {
        later_rhymes(p, i, end - 1) + if p[end - 1] == p[i] { 1nat } else { 0nat }
    }
}

/// Number of rhyming pairs `(i, j)` with `i < j` whose first line lies below `rows`.
pub open spec fn rhyme_pairs_below(p: Seq<usize>, rows: int) -> nat
    decreases rows,
{
    if rows <= 0 {
        0
    } else {
        rhyme_pairs_below(p, rows - 1) + later_rhymes(p, rows - 1, p.len() as int)
    }
}

/// Number of unordered pairs of distinct lines that rhyme.
pub open spec fn rhyme_pairs(p: Seq<usize>) -> nat {
    rhyme_pairs_below(p, p.len() as int)
}

proof fn lemma_later_rhymes_mono(p: Seq<usize>, i: int, a: int, b: int)
    requires
        a <= b,
    ensures
        later_rhymes(p, i, a) <= later_rhymes(p, i, b),
    decreases b - a,
{
    if a < b {
        lemma_later_rhymes_mono(p, i, a, b - 1);
    }
}

proof fn lemma_pairs_below_mono(p: Seq<usize>, a: int, b: int)
    requires
        a <= b,
    ensures
        rhyme_pairs_below(p, a) <= rhyme_pairs_below(p, b),
    decreases b - a,
{
    if a < b {
        lemma_pairs_below_mono(p, a, b - 1);
    }
}

proof fn lemma_later_rhymes_zero(p: Seq<usize>, i: int, end: int)
    requires
        0 <= i,
        end <= p.len(),
    ensures
        later_rhymes(p, i, end) == 0 <==> (forall|j: int| i < j < end ==> p[j] != p[i]),
    decreases end - i,
{
    if end > i + 1 {
        lemma_later_rhymes_zero(p, i, end - 1);
    }
}

proof fn lemma_pairs_below_zero(p: Seq<usize>, rows: int)
    requires
        rows <= p.len(),
    ensures
        rhyme_pairs_below(p, rows) == 0 <==> (forall|i: int, j: int| 0 <= i < rows && i < j < p.len() ==> p[j] != p[i]),
    decreases rows,
{
    if rows > 0 {
        lemma_pairs_below_zero(p, rows - 1);
        lemma_later_rhymes_zero(p, rows - 1, p.len() as int);
        if rhyme_pairs_below(p, rows) != 0 {
            if rhyme_pairs_below(p, rows - 1) != 0 {
                let (i, j) = choose|i: int, j: int| 0 <= i < rows - 1 && i < j < p.len() && !(p[j] != p[i]);
                assert(0 <= i < rows && i < j < p.len() && !(p[j] != p[i]));
            } else {
                let j = choose|j: int| rows - 1 < j < p.len() && !(#[trigger] p[j] != p[rows - 1]);
                assert(0 <= rows - 1 < rows && rows - 1 < j < p.len() && !(p[j] != p[rows - 1]));
            }
        }
    }
}

/// A pattern has no rhyming pair exactly when its classes are pairwise distinct,
/// that is, when it has as many rhyme classes as lines.
pub proof fn lemma_free_verse_iff_distinct_classes(p: Seq<usize>)
    ensures
        rhyme_pairs(p) == 0 <==> p.no_duplicates(),
        rhyme_pairs(p) == 0 <==> p.to_set().len() == p.len(),
        p.to_set().len() <= p.len(),
{
    lemma_pairs_below_zero(p, p.len() as int);
    p.lemma_cardinality_of_set();
    if p.no_duplicates() {
        p.unique_seq_to_set();
    }
    if p.to_set().len() == p.len() {
        p.lemma_no_dup_set_cardinality();
    }
    if rhyme_pairs(p) == 0 {
        assert forall|i: int, j: int| 0 <= i < p.len() && 0 <= j < p.len() && i != j implies p[i] != p[j] by {
            if i < j {
                assert(p[j] != p[i]);
            } else {
                assert(p[i] != p[j]);
            }
        }
    }
}

/// Sum of the entries of an adjacency row.
pub open spec fn row_total(row: Seq<u8>) -> int
    decreases row.len(),
{
    if row.len() == 0 {
        0
    } else {
        row_total(row.drop_last()) + row.last()
    }
}

/// Sum of the entries of a Laplacian row.
pub open spec fn laplacian_row_total(row: Seq<i64>) -> int
    decreases row.len(),
{
    if row.len() == 0 {
        0
    } else {
        laplacian_row_total(row.drop_last()) + row.last()
    }
}

/// Entry `(i, j)` of the graph Laplacian `L = D - A` of an adjacency matrix: the
/// degree less any self-loop weight on the diagonal, the negated weight elsewhere.
pub open spec fn laplacian_entry(adjacency: Seq<Seq<u8>>, i: int, j: int) -> int {
    if i == j {
        row_total(adjacency[i]) - adjacency[i][i]
    } else {
        -(adjacency[i][j] as int)
    }
}

/// The rows of an adjacency matrix, as sequences.
pub open spec fn adjacency_rows(adjacency: Seq<Vec<u8>>) -> Seq<Seq<u8>> {
    adjacency.map_values(|row: Vec<u8>| row@)
}

/// The letter that names a rhyme class: `A` plus the class, taken as a byte.
pub open spec fn class_letter(c: usize) -> char {
    (65 + c % 256) as char
}

/// The textual form of a pattern, one letter per line.
pub open spec fn pattern_letters(p: Seq<usize>) -> Seq<char> {
    p.map_values(|c: usize| class_letter(c))
}

/// Every class of the pattern names a letter without overflowing a byte.
pub open spec fn letters_fit(p: Seq<usize>) -> bool {
    forall|i: int| 0 <= i < p.len() ==> #[trigger] p[i] % 256 <= 190
}

proof fn lemma_row_total_prefix_mono(row: Seq<u8>, k: int)
    requires
        0 <= k <= row.len(),
    ensures
        0 <= row_total(row.take(k)) <= row_total(row),
    decreases row.len() - k,
{
    if k < row.len() {
        lemma_row_total_prefix_mono(row, k + 1);
        assert(row.take(k + 1).drop_last() =~= row.take(k));
    } else {
        assert(row.take(k) =~= row);
    }
    lemma_row_total_nonneg(row.take(k));
}

proof fn lemma_row_total_nonneg(row: Seq<u8>)
    ensures
        0 <= row_total(row),
    decreases row.len(),
{
    if row.len() > 0 {
        lemma_row_total_nonneg(row.drop_last());
    }
}

/// The adjacency of a well-formed scheme is symmetric, with zeros on the diagonal.
pub proof fn lemma_adjacency_symmetric(scheme: RhymeScheme)
    requires
        scheme.wf(),
    ensures
        forall|i: int, j: int|
            0 <= i < scheme.pattern@.len() && 0 <= j < scheme.pattern@.len() ==> #[trigger] adjacency_rows(scheme.adjacency@)[i][j]
                == adjacency_rows(scheme.adjacency@)[j][i],
        forall|i: int| 0 <= i < scheme.pattern@.len() ==> #[trigger] adjacency_rows(scheme.adjacency@)[i][i] == 0,
{
    let m = adjacency_rows(scheme.adjacency@);
    assert forall|i: int, j: int| 0 <= i < scheme.pattern@.len() && 0 <= j < scheme.pattern@.len() implies #[trigger] m[i][j] == m[j][i] by {
        assert(m[i][j] == (if rhymes(scheme.pattern@, i, j) { 1u8 } else { 0u8 }));
        assert(m[j][i] == (if rhymes(scheme.pattern@, j, i) { 1u8 } else { 0u8 }));
    }
    assert forall|i: int| 0 <= i < scheme.pattern@.len() implies #[trigger] m[i][i] == 0 by {
        assert(m[i][i] == (if rhymes(scheme.pattern@, i, i) { 1u8 } else { 0u8 }));
    }
}

/// Each row of the Laplacian sums to zero: the diagonal cancels the weights of
/// the other lines, whatever the adjacency holds, as long as it is square.
pub proof fn lemma_laplacian_rows_sum_to_zero(scheme: RhymeScheme, lap: Seq<Seq<i64>>)
    requires
        lap.len() == scheme.pattern@.len(),
        scheme.adjacency@.len() >= lap.len(),
        forall|i: int| 0 <= i < lap.len() ==> #[trigger] scheme.adjacency@[i]@.len() == lap.len(),
        forall|i: int| 0 <= i < lap.len() ==> #[trigger] lap[i].len() == lap.len(),
        forall|i: int, j: int|
            0 <= i < lap.len() && 0 <= j < lap.len() ==> #[trigger] lap[i][j] == laplacian_entry(adjacency_rows(scheme.adjacency@), i, j),
    ensures
        forall|i: int| 0 <= i < lap.len() ==> laplacian_row_total(#[trigger] lap[i]) == 0,
{
    let n = lap.len() as int;
    let adj = adjacency_rows(scheme.adjacency@);
    assert forall|i: int| 0 <= i < n implies laplacian_row_total(#[trigger] lap[i]) == 0 by {
        let row = adj[i];
        assert(row == scheme.adjacency@[i]@);
        assert(row.len() == n);
        lemma_laplacian_row_prefix(adj, lap[i], i, n);
        assert(row.take(n) =~= row);
        assert(lap[i].take(n) =~= lap[i]);
    }
}

proof fn lemma_laplacian_row_prefix(adj: Seq<Seq<u8>>, lrow: Seq<i64>, i: int, k: int)
    requires
        0 <= i < adj.len(),
        0 <= k <= lrow.len(),
        lrow.len() <= adj[i].len(),
        i < adj[i].len(),
        forall|j: int| 0 <= j < lrow.len() ==> #[trigger] lrow[j] == laplacian_entry(adj, i, j),
    ensures
        laplacian_row_total(lrow.take(k)) == (if i < k { row_total(adj[i]) } else { 0 }) - row_total(adj[i].take(k)),
    decreases k,
{
    if k > 0 {
        lemma_laplacian_row_prefix(adj, lrow, i, k - 1);
        assert(lrow.take(k).drop_last() =~= lrow.take(k - 1));
        assert(adj[i].take(k).drop_last() =~= adj[i].take(k - 1));
    } else {
        assert(lrow.take(0).len() == 0);
        assert(adj[i].take(0).len() == 0);
    }
}


/// Number of lines `j < k`, other than `i`, that share the class of line `i`.
pub open spec fn partners_below(p: Seq<usize>, i: int, k: int) -> nat
    decreases k,
{
    if k <= 0 {
        0
    } else {
        partners_below(p, i, k - 1) + if k - 1 != i && p[k - 1] == p[i] { 1nat } else { 0nat }
    }
}

/// Sum of `later_rhymes(p, i, end)` over the rows `i < rows`.
pub open spec fn later_rhymes_total(p: Seq<usize>, rows: int, end: int) -> nat
    decreases rows,
{
    if rows <= 0 {
        0
    } else {
        later_rhymes_total(p, rows - 1, end) + later_rhymes(p, rows - 1, end)
    }
}

/// Sum of the partners of each row `i < rows` that lie before it.
pub open spec fn earlier_partners_total(p: Seq<usize>, rows: int) -> nat
    decreases rows,
{
    if rows <= 0 {
        0
    } else {
        earlier_partners_total(p, rows - 1) + partners_below(p, rows - 1, rows - 1)
    }
}

/// Total degree of the first `rows` lines: the sum of their adjacency rows.
pub open spec fn degree_total(adjacency: Seq<Seq<u8>>, rows: int) -> int
    decreases rows,
{
    if rows <= 0 {
        0
    } else {
        degree_total(adjacency, rows - 1) + row_total(adjacency[rows - 1])
    }
}

proof fn lemma_pairs_below_is_total(p: Seq<usize>, rows: int)
    ensures
        rhyme_pairs_below(p, rows) == later_rhymes_total(p, rows, p.len() as int),
    decreases rows,
{
    if rows > 0 {
        lemma_pairs_below_is_total(p, rows - 1);
    }
}

proof fn lemma_row_total_is_partners(p: Seq<usize>, row: Seq<u8>, i: int, k: int)
    requires
        0 <= k <= row.len(),
        row.len() == p.len(),
        forall|j: int| 0 <= j < p.len() ==> #[trigger] row[j] == (if rhymes(p, i, j) { 1u8 } else { 0u8 }),
    ensures
        row_total(row.take(k)) == partners_below(p, i, k),
    decreases k,
{
    if k > 0 {
        lemma_row_total_is_partners(p, row, i, k - 1);
        assert(row.take(k).drop_last() =~= row.take(k - 1));
    } else {
        assert(row.take(0).len() == 0);
    }
}

proof fn lemma_partners_split(p: Seq<usize>, i: int, k: int)
    requires
        0 <= i < k,
    ensures
        partners_below(p, i, k) == partners_below(p, i, i) + later_rhymes(p, i, k),
    decreases k,
{
    if k > i + 1 {
        lemma_partners_split(p, i, k - 1);
    } else {
        assert(partners_below(p, i, i + 1) == partners_below(p, i, i));
    }
}

proof fn lemma_later_total_extend(p: Seq<usize>, rows: int, m: int)
    requires
        0 <= rows <= m,
    ensures
        later_rhymes_total(p, rows, m + 1) == later_rhymes_total(p, rows, m) + partners_below(p, m, rows),
    decreases rows,
{
    if rows > 0 {
        lemma_later_total_extend(p, rows - 1, m);
        let i = rows - 1;
        if m > i + 1 {
            assert(later_rhymes(p, i, m + 1) == later_rhymes(p, i, m) + if p[m] == p[i] { 1nat } else { 0nat });
        } else {
            assert(later_rhymes(p, i, m) == 0);
            assert(later_rhymes(p, i, m + 1) == later_rhymes(p, i, m) + if p[m] == p[i] { 1nat } else { 0nat });
        }
    }
}

proof fn lemma_earlier_equals_later(p: Seq<usize>, m: int)
    requires
        m >= 0,
    ensures
        earlier_partners_total(p, m) == later_rhymes_total(p, m, m),
    decreases m,
{
    if m > 0 {
        lemma_earlier_equals_later(p, m - 1);
        lemma_later_total_extend(p, m - 1, m - 1);
        assert(later_rhymes(p, m - 1, m) == 0);
    }
}

proof fn lemma_degree_total_split(p: Seq<usize>, adjacency: Seq<Seq<u8>>, rows: int)
    requires
        adjacency_of(p, adjacency),
        0 <= rows <= p.len(),
    ensures
        degree_total(adjacency, rows) == earlier_partners_total(p, rows) + later_rhymes_total(p, rows, p.len() as int),
    decreases rows,
{
    if rows > 0 {
        lemma_degree_total_split(p, adjacency, rows - 1);
        let i = rows - 1;
        let n = p.len() as int;
        lemma_row_total_is_partners(p, adjacency[i], i, n);
        assert(adjacency[i].take(n) =~= adjacency[i]);
        lemma_partners_split(p, i, n);
    }
}

/// The Laplacian's diagonal holds the degrees, and the degrees of a well-formed
/// scheme add up to twice the number of rhyming pairs: each pair is counted once
/// from each of its lines.
pub proof fn lemma_degrees_count_pairs_twice(scheme: RhymeScheme)
    requires
        scheme.wf(),
    ensures
        degree_total(adjacency_rows(scheme.adjacency@), scheme.pattern@.len() as int) == 2 * rhyme_pairs(scheme.pattern@),
{
    let p = scheme.pattern@;
    let n = p.len() as int;
    lemma_degree_total_split(p, adjacency_rows(scheme.adjacency@), n);
    lemma_earlier_equals_later(p, n);
    lemma_pairs_below_is_total(p, n);
}

impl RhymeScheme {
    /// Well-formed: the adjacency matrix is the one the pattern determines.
    pub open spec fn wf(&self) -> bool {
        adjacency_of(self.pattern@, adjacency_rows(self.adjacency@))
    }

    /// Creates a scheme from a rhyme pattern like [0,1,0,1] for ABAB.
    pub fn new(pattern: Vec<usize>) -> (s: Self)
        ensures
            s.pattern@ == pattern@,
            s.wf(),
    {
        let n = pattern.len();
        let mut adj: Vec<Vec<u8>> = Vec::new();
        for i in 0..n
            invariant
                n == pattern.len(),
                adj.len() == i,
                forall|a: int| 0 <= a < i ==> #[trigger] adj[a]@.len() == n,
                forall|a: int, b: int|
                    0 <= a < i && 0 <= b < n ==> #[trigger] adj[a]@[b] == (if rhymes(pattern@, a, b) { 1u8 } else { 0u8 }),
        {
            let mut row: Vec<u8> = Vec::new();
            for j in 0..n
                invariant
                    n == pattern.len(),
                    i < n,
                    row.len() == j,
                    forall|b: int| 0 <= b < j ==> #[trigger] row@[b] == (if rhymes(pattern@, i as int, b) { 1u8 } else { 0u8 }),
            {
                if i != j && pattern[i] == pattern[j] {
                    row.push(1u8);
                } else {
                    row.push(0u8);
                }
            }
            adj.push(row);
        }
        let s = RhymeScheme { pattern, adjacency: adj };
        proof {
            let m = s.adjacency@.map_values(|row: Vec<u8>| row@);
            assert forall|i: int| 0 <= i < n implies #[trigger] m[i].len() == n by {
                assert(m[i] == s.adjacency@[i]@);
            }
            assert forall|i: int, j: int| 0 <= i < n && 0 <= j < n implies #[trigger] m[i][j] == (if rhymes(s.pattern@, i, j) { 1u8 } else { 0u8 }) by {
                assert(m[i] == s.adjacency@[i]@);
            }
        }
        s
    }

    /// Parses a textual scheme like "ABAB", "AABB" or "ABBA"; characters other than
    /// ASCII letters are skipped.
    pub fn from_str(s: &str) -> (r: Self)
        ensures
            r.pattern@ == pattern_of_text(s@),
            r.wf(),
            letters_fit(r.pattern@),
    {
        let mut pattern: Vec<usize> = Vec::new();
        proof {
            assert(s@.take(0) =~= Seq::<char>::empty());
            reveal(Seq::filter);
            assert(pattern_of_text(Seq::<char>::empty()) =~= Seq::<usize>::empty());
        }
        for c in iter: s.chars()
            invariant
                iter.seq() == s@,
                pattern@ == pattern_of_text(iter.seq().take(iter.index() as int)),
                forall|k: int| 0 <= k < pattern@.len() ==> #[trigger] pattern@[k] <= 57,
        {
            proof {
                assert(iter.seq().take(iter.index() + 1) =~= iter.seq().take(iter.index() as int).push(c));
                lemma_pattern_of_text_push(iter.seq().take(iter.index() as int), c);
            }
            if is_ascii_letter_exec(c) {
                let code: u32 = c as u32;
                pattern.push((code - 65) as usize);
            }
        }
        proof {
            assert(s@.take(s@.len() as int) =~= s@);
        }
        Self::new(pattern)
    }

    /// Number of lines.
    pub fn line_count(&self) -> (n: usize)
        ensures
            n == self.pattern@.len(),
    {
        self.pattern.len()
    }

    /// Number of distinct rhyme classes.
    pub fn rhyme_class_count(&self) -> (c: usize)
        ensures
            c == self.pattern@.to_set().len(),
    {
        let n = self.pattern.len();
        let mut count: usize = 0;
        proof {
            assert(self.pattern@.take(0).to_set() =~= Set::<usize>::empty());
        }
        for i in 0..n
            invariant
                n == self.pattern@.len(),
                count == self.pattern@.take(i as int).to_set().len(),
                count <= i,
        {
            let v = self.pattern[i];
            let mut seen = false;
            for j in 0..i
                invariant
                    i < n,
                    n == self.pattern@.len(),
                    v == self.pattern@[i as int],
                    seen <==> exists|k: int| 0 <= k < j && self.pattern@[k] == v,
            {
                if self.pattern[j] == v {
                    seen = true;
                }
            }
            proof {
                let prev = self.pattern@.take(i as int);
                assert(self.pattern@.take(i + 1) =~= prev.push(v));
                assert(prev.push(v).to_set() =~= prev.to_set().insert(v)) by {
                    assert forall|x: usize| prev.push(v).to_set().contains(x) <==> prev.to_set().insert(v).contains(x) by {
                        if prev.push(v).contains(x) && x != v {
                            let k = choose|k: int| 0 <= k < prev.push(v).len() && prev.push(v)[k] == x;
                            assert(prev[k] == x);
                        }
                        if prev.contains(x) {
                            let k = choose|k: int| 0 <= k < prev.len() && prev[k] == x;
                            assert(prev.push(v)[k] == x);
                        }
                        assert(prev.push(v)[prev.len() as int] == v);
                    }
                }
                vstd::seq_lib::seq_to_set_is_finite(prev);
                if seen {
                    let k = choose|k: int| 0 <= k < i && self.pattern@[k] == v;
                    assert(prev[k] == v);
                    assert(prev.to_set().contains(v));
                } else {
                    assert(!prev.to_set().contains(v)) by {
                        if prev.contains(v) {
                            let k = choose|k: int| 0 <= k < prev.len() && prev[k] == v;
                            assert(self.pattern@[k] == v);
                        }
                    }
                }
            }
            if !seen {
                count = count + 1;
            }
        }
        proof {
            assert(self.pattern@.take(n as int) =~= self.pattern@);
        }
        count
    }

    /// Number of rhyming pairs of distinct lines.
    pub fn rhyme_pair_count(&self) -> (c: usize)
        requires
            rhyme_pairs(self.pattern@) <= usize::MAX,
        ensures
            c == rhyme_pairs(self.pattern@),
    {
        let n = self.pattern.len();
        let ghost p = self.pattern@;
        let mut count: usize = 0;
        for i in 0..n
            invariant
                n == p.len(),
                p == self.pattern@,
                rhyme_pairs(p) <= usize::MAX,
                count == rhyme_pairs_below(p, i as int),
        {
            let mut j = i + 1;
            while j < n
                invariant
                    i < n,
                    n == p.len(),
                    p == self.pattern@,
                    i + 1 <= j <= n,
                    rhyme_pairs(p) <= usize::MAX,
                    count == rhyme_pairs_below(p, i as int) + later_rhymes(p, i as int, j as int),
                decreases n - j,
            {
                proof {
                    lemma_later_rhymes_mono(p, i as int, j + 1, n as int);
                    lemma_pairs_below_mono(p, i + 1, n as int);
                }
                if self.pattern[i] == self.pattern[j] {
                    count = count + 1;
                }
                j = j + 1;
            }
        }
        count
    }

    /// The graph Laplacian `L = D - A` of the adjacency matrix, over the scheme's lines.
    pub fn laplacian(&self) -> (lap: Vec<Vec<i64>>)
        requires
            self.adjacency@.len() >= self.pattern@.len(),
            forall|i: int| 0 <= i < self.pattern@.len() ==> #[trigger] self.adjacency@[i]@.len() >= self.pattern@.len(),
            forall|i: int| 0 <= i < self.pattern@.len() ==> row_total(#[trigger] self.adjacency@[i]@) <= i64::MAX,
        ensures
            lap@.len() == self.pattern@.len(),
            forall|i: int| 0 <= i < lap@.len() ==> #[trigger] lap@[i]@.len() == lap@.len(),
            forall|i: int, j: int|
                0 <= i < lap@.len() && 0 <= j < lap@.len() ==> #[trigger] lap@[i]@[j] == laplacian_entry(adjacency_rows(self.adjacency@), i, j),
    {
        let n = self.line_count();
        let ghost adj = adjacency_rows(self.adjacency@);
        let mut lap: Vec<Vec<i64>> = Vec::new();
        for i in 0..n
            invariant
                n == self.pattern@.len(),
                adj == adjacency_rows(self.adjacency@),
                self.adjacency@.len() >= n,
                forall|a: int| 0 <= a < n ==> #[trigger] self.adjacency@[a]@.len() >= n,
                forall|a: int| 0 <= a < n ==> row_total(#[trigger] self.adjacency@[a]@) <= i64::MAX,
                lap.len() == i,
                forall|a: int| 0 <= a < i ==> #[trigger] lap@[a]@.len() == n,
                forall|a: int, b: int| 0 <= a < i && 0 <= b < n ==> #[trigger] lap@[a]@[b] == laplacian_entry(adj, a, b),
        {
            let row = &self.adjacency[i];
            assert(adj[i as int] == row@);
            let mut deg: i64 = 0;
            for k in 0..row.len()
                invariant
                    i < n,
                    row@.len() >= n,
                    row@ == adj[i as int],
                    row_total(row@) <= i64::MAX,
                    deg == row_total(row@.take(k as int)) - (if i < k { row@[i as int] as int } else { 0 }),
            {
                proof {
                    assert(row@.take(k + 1).drop_last() =~= row@.take(k as int));
                    lemma_row_total_prefix_mono(row@, k + 1);
                }
                if k != i {
                    deg = deg + row[k] as i64;
                }
            }
            proof {
                assert(row@.take(row@.len() as int) =~= row@);
            }
            let mut lrow: Vec<i64> = Vec::new();
            for j in 0..n
                invariant
                    i < n,
                    row@ == adj[i as int],
                    row@.len() >= n,
                    deg == row_total(row@) - row@[i as int],
                    lrow.len() == j,
                    forall|b: int| 0 <= b < j ==> #[trigger] lrow@[b] == laplacian_entry(adj, i as int, b),
            {
                if i == j {
                    lrow.push(deg);
                } else {
                    lrow.push(-(row[j] as i64));
                }
            }
            lap.push(lrow);
        }
        lap
    }

    /// Classifies the scheme: free verse when no lines rhyme, otherwise by its
    /// textual form (ABAB, AABB, ABBA, or any other form kept as text).
    pub fn classify(&self) -> (t: RhymeType)
        requires
            letters_fit(self.pattern@),
            rhyme_pairs(self.pattern@) <= usize::MAX,
        ensures
            rhyme_pairs(self.pattern@) == 0 ==> t == RhymeType::FreeVerse,
            rhyme_pairs(self.pattern@) != 0 ==> rhyme_type_matches(t, pattern_letters(self.pattern@)),
    {
        let n = self.pattern.len();
        let mut s = String::new();
        for i in 0..n
            invariant
                n == self.pattern@.len(),
                letters_fit(self.pattern@),
                s@ == pattern_letters(self.pattern@.take(i as int)),
        {
            let c = self.pattern[i];
            assert(c % 256 <= 190);
            let b: u8 = #[verifier::truncate] (c as u8);
            assert(b == c % 256) by (bit_vector)
                requires
                    b == #[verifier::truncate] (c as u8),
            ;
            let code: u8 = 65u8 + b;
            let ch: char = code as char;
            proof {
                assert(self.pattern@.take(i + 1) =~= self.pattern@.take(i as int).push(c));
                assert(pattern_letters(self.pattern@.take(i + 1)) =~= pattern_letters(self.pattern@.take(i as int)).push(class_letter(c)));
            }
            push_char(&mut s, ch);
        }
        proof {
            assert(self.pattern@.take(n as int) =~= self.pattern@);
        }
        if self.rhyme_pair_count() == 0 {
            RhymeType::FreeVerse
        } else if s == String::from_str("ABAB") {
            RhymeType::Alternating
        } else if s == String::from_str("AABB") {
            RhymeType::Coupled
        } else if s == String::from_str("ABBA") {
            RhymeType::Enclosed
        } else {
            RhymeType::Other(s)
        }
    }
}

/// Rhyme scheme classification.
#[derive(Clone, Debug, PartialEq)]
pub enum RhymeType {
    /// ABAB
    Alternating,
    /// AABB
    Coupled,
    /// ABBA
    Enclosed,
    /// No rhymes.
    FreeVerse,
    /// Any other rhyming form, kept as its letters.
    Other(String),
}

/// The kind of a rhyming scheme with the given letters: one of the three named
/// quatrain forms, or `Other` holding exactly those letters.
pub open spec fn rhyme_type_matches(t: RhymeType, letters: Seq<char>) -> bool {
    if letters == "ABAB"@ {
        t == RhymeType::Alternating
    } else if letters == "AABB"@ {
        t == RhymeType::Coupled
    } else if letters == "ABBA"@ {
        t == RhymeType::Enclosed
    } else {
        t is Other && t->Other_0@ == letters
    }
}

/// Number of lines among the first `m` of a pattern whose class is `c`.
pub open spec fn class_members(p: Seq<usize>, c: usize, m: int) -> nat
    decreases m,
{
    if m <= 0 {
        0
    } else {
        class_members(p, c, m - 1) + (if p[m - 1] == c { 1nat } else { 0nat })
    }
}

/// Number of lines in the rhyme class of line `i`, the line itself included.
pub open spec fn class_size(p: Seq<usize>, i: int) -> nat {
    class_members(p, p[i], p.len() as int)
}

/// Number of lines among the first `m` whose rhyme class has exactly `k` lines.
pub open spec fn lines_in_classes_of_size_upto(p: Seq<usize>, k: nat, m: int) -> nat
    decreases m,
{
    if m <= 0 {
        0
    } else {
        lines_in_classes_of_size_upto(p, k, m - 1) + (if class_size(p, m - 1) == k { 1nat } else { 0nat })
    }
}

/// Number of lines whose rhyme class has exactly `k` lines: `k` times the number
/// of such classes.
pub open spec fn lines_in_classes_of_size(p: Seq<usize>, k: nat) -> nat {
    lines_in_classes_of_size_upto(p, k, p.len() as int)
}

/// Number of rhyme classes with exactly `k` lines.
pub open spec fn classes_of_size(p: Seq<usize>, k: nat) -> nat {
    if k == 0 {
        0
    } else {
        lines_in_classes_of_size(p, k) / k
    }
}

/// No line rhymes with another: every class holds a single line, so the
/// adjacency matrix, and with it every eigenvalue, is zero.
pub open spec fn rhymeless(p: Seq<usize>) -> bool {
    lines_in_classes_of_size(p, 1) == p.len()
}

/// Four lines in two rhyming pairs: the spectrum `{1, 1, -1, -1}` shared by ABAB,
/// AABB and ABBA.
pub open spec fn two_couplets(p: Seq<usize>) -> bool {
    p.len() == 4 && lines_in_classes_of_size(p, 2) == 4
}

/// `c` classes of size `k`, each written as the decimal `k`, joined by `+`; a
/// leading `+` when something was written before.
pub open spec fn size_run(k: nat, c: nat, started: bool) -> Seq<char>
    decreases c,
{
    if c == 0 {
        Seq::empty()
    } else {
        (if started { seq!['+'] } else { Seq::<char>::empty() }) + decimal(k) + size_run(k, (c - 1) as nat, true)
    }
}

/// The class sizes of at most `k` lines, largest first, joined by `+`.
pub open spec fn shape_text_from(p: Seq<usize>, k: nat, started: bool) -> Seq<char>
    decreases k,
{
    if k == 0 {
        Seq::empty()
    } else {
        size_run(k, classes_of_size(p, k), started) + shape_text_from(p, (k - 1) as nat, started || classes_of_size(p, k) > 0)
    }
}

/// The class sizes of a pattern, largest first, joined by `+` (ABCA gives `2+1+1`).
pub open spec fn shape_text(p: Seq<usize>) -> Seq<char> {
    shape_text_from(p, p.len(), false)
}

proof fn lemma_class_members_bounds(p: Seq<usize>, c: usize, m: int, i: int)
    requires
        0 <= m <= p.len(),
    ensures
        class_members(p, c, m) <= m,
        0 <= i < m && p[i] == c ==> class_members(p, c, m) >= 1,
    decreases m,
{
    if m > 0 {
        lemma_class_members_bounds(p, c, m - 1, i);
    }
}

proof fn lemma_lines_upto_bound(p: Seq<usize>, k: nat, m: int)
    requires
        0 <= m,
    ensures
        lines_in_classes_of_size_upto(p, k, m) <= m,
    decreases m,
{
    if m > 0 {
        lemma_lines_upto_bound(p, k, m - 1);
    }
}

/// The number of lines in classes of each size `1..=n`: entry `k - 1` counts the
/// lines whose class has `k` lines.
fn class_size_profile(pattern: &Vec<usize>) -> (counts: Vec<usize>)
    ensures
        counts@.len() == pattern@.len(),
        forall|k: int| 1 <= k <= pattern@.len() ==> #[trigger] counts@[k - 1] == lines_in_classes_of_size(pattern@, k as nat),
{
    let n = pattern.len();
    let ghost p = pattern@;
    let mut counts: Vec<usize> = Vec::new();
    for i in 0..n
        invariant
            counts@.len() == i,
            forall|k: int| 0 <= k < i ==> #[trigger] counts@[k] == 0,
    {
        counts.push(0);
    }
    for i in 0..n
        invariant
            n == p.len(),
            p == pattern@,
            counts@.len() == n,
            forall|k: int| 1 <= k <= n ==> #[trigger] counts@[k - 1] == lines_in_classes_of_size_upto(p, k as nat, i as int),
    {
        let c = pattern[i];
        let mut size: usize = 0;
        for j in 0..n
            invariant
                n == p.len(),
                p == pattern@,
                i < n,
                c == p[i as int],
                size == class_members(p, c, j as int),
                size <= j,
        {
            if pattern[j] == c {
                size = size + 1;
            }
        }
        proof {
            lemma_class_members_bounds(p, c, n as int, i as int);
            assert(size == class_size(p, i as int));
            lemma_lines_upto_bound(p, size as nat, i as int);
        }
        let old_count = counts[size - 1];
        assert(old_count == lines_in_classes_of_size_upto(p, size as nat, i as int));
        let ghost before = counts@;
        counts.set(size - 1, old_count + 1);
        proof {
            assert forall|k: int| 1 <= k <= n implies #[trigger] counts@[k - 1] == lines_in_classes_of_size_upto(p, k as nat, i + 1) by {
                if k != size {
                    assert(counts@[k - 1] == before[k - 1]);
                }
            }
        }
    }
    counts
}

/// Classifies a rhyme scheme from its spectral properties alone.
///
/// The adjacency of a scheme is a disjoint union of cliques, one per rhyme class,
/// and a class of `k` lines contributes the eigenvalue `k - 1` once and `-1`
/// `k - 1` times. So the spectrum is fixed by the number of lines in classes of
/// each size, and that is all this function reads: no rhyme at all (a zero
/// spectrum) is free verse; four lines in two rhyming pairs, the spectrum of ABAB,
/// AABB and ABBA alike, is alternating; any other spectrum is named by its class
/// sizes, largest first, joined by `+`.
pub fn classify_by_spectrum(scheme: &RhymeScheme) -> (t: RhymeType)
    ensures
        rhymeless(scheme.pattern@) ==> t == RhymeType::FreeVerse,
        !rhymeless(scheme.pattern@) && two_couplets(scheme.pattern@) ==> t == RhymeType::Alternating,
        !rhymeless(scheme.pattern@) && !two_couplets(scheme.pattern@) ==> t is Other && t->Other_0@ == shape_text(scheme.pattern@),
        t == RhymeType::Alternating ==> scheme.pattern@.len() == 4
            && forall|i: int| 0 <= i < 4 ==> #[trigger] class_size(scheme.pattern@, i) == 2,
        t == RhymeType::FreeVerse <==> forall|i: int| 0 <= i < scheme.pattern@.len() ==> #[trigger] class_size(scheme.pattern@, i) == 1,
{
    proof {
        lemma_two_couplets_shape(scheme.pattern@);
        lemma_rhymeless_shape(scheme.pattern@);
    }
    let ghost p = scheme.pattern@;
    let n = scheme.pattern.len();
    let counts = class_size_profile(&scheme.pattern);
    if n == 0 {
        return RhymeType::FreeVerse;
    }
    assert(counts@[1 - 1] == lines_in_classes_of_size(p, 1));
    if counts[0] == n {
        return RhymeType::FreeVerse;
    }
    if n == 4 {
        assert(counts@[2 - 1] == lines_in_classes_of_size(p, 2));
        if counts[1] == 4 {
            return RhymeType::Alternating;
        }
    }
    let mut s = String::new();
    let mut started = false;
    let mut k = n;
    while k > 0
        invariant
            k <= n,
            n == p.len(),
            p == scheme.pattern@,
            counts@.len() == n,
            forall|q: int| 1 <= q <= n ==> #[trigger] counts@[q - 1] == lines_in_classes_of_size(p, q as nat),
            s@ + shape_text_from(p, k as nat, started) == shape_text(p),
        decreases k,
    {
        assert(counts@[k - 1] == lines_in_classes_of_size(p, k as nat));
        let c = counts[k - 1] / k;
        assert(c == classes_of_size(p, k as nat));
        let ghost rest = shape_text_from(p, (k - 1) as nat, started || c > 0);
        let ghost started0 = started;
        let mut r: usize = 0;
        while r < c
            invariant
                r <= c,
                k >= 1,
                started == (started0 || r > 0),
                s@ + size_run(k as nat, (c - r) as nat, started) + rest == shape_text(p),
            decreases c - r,
        {
            let ghost before = s@;
            let ghost was = started;
            if started {
                push_char(&mut s, '+');
            }
            append_decimal(&mut s, k);
            started = true;
            proof {
                let tail = size_run(k as nat, (c - r - 1) as nat, true);
                let lead = if was { seq!['+'] } else { Seq::<char>::empty() };
                assert(size_run(k as nat, (c - r) as nat, was) == lead + decimal(k as nat) + tail);
                assert(s@ =~= before + lead + decimal(k as nat));
                assert(before + (lead + decimal(k as nat) + tail) + rest =~= s@ + tail + rest);
            }
            r = r + 1;
        }
        proof {
            assert(size_run(k as nat, 0, started) =~= Seq::<char>::empty());
            assert(s@ + Seq::<char>::empty() =~= s@);
        }
        k = k - 1;
    }
    proof {
        assert(s@ + Seq::<char>::empty() =~= s@);
    }
    RhymeType::Other(s)
}

proof fn lemma_members_zero(p: Seq<usize>, c: usize, m: int)
    requires
        0 <= m <= p.len(),
        forall|k: int| 0 <= k < m ==> p[k] != c,
    ensures
        class_members(p, c, m) == 0,
    decreases m,
{
    if m > 0 {
        lemma_members_zero(p, c, m - 1);
    }
}

proof fn lemma_members_two(p: Seq<usize>, c: usize, m: int, i: int, j: int)
    requires
        0 <= i < j < m <= p.len(),
        p[i] == c,
        p[j] == c,
    ensures
        class_members(p, c, m) >= 2,
    decreases m,
{
    if m > j + 1 {
        lemma_members_two(p, c, m - 1, i, j);
    } else {
        lemma_class_members_bounds(p, c, j, i);
    }
}

proof fn lemma_members_unique(p: Seq<usize>, c: usize, m: int, i: int)
    requires
        p.no_duplicates(),
        0 <= i < m <= p.len(),
        p[i] == c,
    ensures
        class_members(p, c, m) == 1,
    decreases m,
{
    if m - 1 == i {
        lemma_members_zero(p, c, i);
    } else {
        lemma_members_unique(p, c, m - 1, i);
        assert(p[m - 1] != p[i]);
    }
}

proof fn lemma_lines_all_of_size(p: Seq<usize>, k: nat, m: int)
    requires
        0 <= m <= p.len(),
    ensures
        lines_in_classes_of_size_upto(p, k, m) == m <==> forall|i: int| 0 <= i < m ==> #[trigger] class_size(p, i) == k,
    decreases m,
{
    if m > 0 {
        lemma_lines_all_of_size(p, k, m - 1);
        lemma_lines_upto_bound(p, k, m - 1);
    }
}

/// The spectrum of two rhyming pairs is that of exactly four lines each rhyming
/// with exactly one other line: no other scheme shares it.
pub proof fn lemma_two_couplets_shape(p: Seq<usize>)
    ensures
        two_couplets(p) <==> p.len() == 4 && forall|i: int| 0 <= i < 4 ==> #[trigger] class_size(p, i) == 2,
{
    if p.len() == 4 {
        lemma_lines_all_of_size(p, 2, 4);
    }
}

/// A zero spectrum belongs exactly to the schemes in which every line is alone in
/// its rhyme class.
pub proof fn lemma_rhymeless_shape(p: Seq<usize>)
    ensures
        rhymeless(p) <==> forall|i: int| 0 <= i < p.len() ==> #[trigger] class_size(p, i) == 1,
{
    lemma_lines_all_of_size(p, 1, p.len() as int);
}

/// No two lines rhyme exactly when every rhyme class holds a single line: the
/// spectral classification finds free verse exactly where no rhyming pair is.
pub proof fn lemma_rhymeless_iff_no_pairs(p: Seq<usize>)
    ensures
        rhymeless(p) <==> rhyme_pairs(p) == 0,
{
    lemma_free_verse_iff_distinct_classes(p);
    lemma_lines_all_of_size(p, 1, p.len() as int);
    if p.no_duplicates() {
        assert forall|i: int| 0 <= i < p.len() implies #[trigger] class_size(p, i) == 1 by {
            lemma_members_unique(p, p[i], p.len() as int, i);
        }
    } else {
        let (i, j) = choose|i: int, j: int| 0 <= i < p.len() && 0 <= j < p.len() && i != j && p[i] == p[j];
        if i < j {
            lemma_members_two(p, p[i], p.len() as int, i, j);
        } else {
            lemma_members_two(p, p[i], p.len() as int, j, i);
        }
        assert(class_size(p, i) != 1);
    }
}

/// Schemes whose lines fall into classes of the same sizes have the same
/// adjacency spectrum, and are classified alike by `classify_by_spectrum`.
pub proof fn lemma_spectral_class_follows_class_sizes(a: RhymeScheme, b: RhymeScheme)
    requires
        a.pattern@.len() == b.pattern@.len(),
        forall|k: nat| 1 <= k <= a.pattern@.len() ==> #[trigger] lines_in_classes_of_size(a.pattern@, k) == lines_in_classes_of_size(b.pattern@, k),
    ensures
        rhymeless(a.pattern@) == rhymeless(b.pattern@),
        two_couplets(a.pattern@) == two_couplets(b.pattern@),
        shape_text(a.pattern@) == shape_text(b.pattern@),
{
    let pa = a.pattern@;
    let pb = b.pattern@;
    if pa.len() > 0 {
        assert(lines_in_classes_of_size(pa, 1) == lines_in_classes_of_size(pb, 1));
    }
    if pa.len() == 4 {
        assert(lines_in_classes_of_size(pa, 2) == lines_in_classes_of_size(pb, 2));
    }
    lemma_shape_text_from_follows_sizes(pa, pb, pa.len(), false);
}

proof fn lemma_shape_text_from_follows_sizes(pa: Seq<usize>, pb: Seq<usize>, k: nat, started: bool)
    requires
        k <= pa.len(),
        forall|q: nat| 1 <= q <= pa.len() ==> #[trigger] lines_in_classes_of_size(pa, q) == lines_in_classes_of_size(pb, q),
    ensures
        shape_text_from(pa, k, started) == shape_text_from(pb, k, started),
    decreases k,
{
    if k > 0 {
        assert(lines_in_classes_of_size(pa, k) == lines_in_classes_of_size(pb, k));
        lemma_shape_text_from_follows_sizes(pa, pb, (k - 1) as nat, true);
        lemma_shape_text_from_follows_sizes(pa, pb, (k - 1) as nat, started);
    }
}

proof fn lemma_pattern_of_four_letters(s: Seq<char>)
    requires
        s.len() == 4,
        forall|i: int| 0 <= i < 4 ==> 'A' <= #[trigger] s[i] <= 'Z',
    ensures
        pattern_of_text(s) == seq![letter_class(s[0]), letter_class(s[1]), letter_class(s[2]), letter_class(s[3])],
{
    let f = |c: char| is_ascii_letter(c);
    assert(s.filter(f) =~= s) by {
        reveal_with_fuel(Seq::filter, 5);
        assert(s.take(0) =~= Seq::<char>::empty());
        assert(s.take(1).drop_last() =~= s.take(0));
        assert(s.take(2).drop_last() =~= s.take(1));
        assert(s.take(3).drop_last() =~= s.take(2));
        assert(s.drop_last() =~= s.take(3));
        assert(s.take(1).filter(f) =~= s.take(1));
        assert(s.take(2).filter(f) =~= s.take(2));
        assert(s.take(3).filter(f) =~= s.take(3));
    }
    assert(pattern_of_text(s) =~= seq![letter_class(s[0]), letter_class(s[1]), letter_class(s[2]), letter_class(s[3])]);
}

/// The common four-line schemes: ABAB, AABB, ABBA and the rhymeless ABCD.
pub fn common_schemes() -> (v: Vec<RhymeScheme>)
    ensures
        v@.len() == 4,
        forall|k: int| 0 <= k < 4 ==> (#[trigger] v@[k]).wf(),
        v@[0].pattern@ == seq![0usize, 1, 0, 1],
        v@[1].pattern@ == seq![0usize, 0, 1, 1],
        v@[2].pattern@ == seq![0usize, 1, 1, 0],
        v@[3].pattern@ == seq![0usize, 1, 2, 3],
{
    proof {
        reveal_strlit("ABAB");
        reveal_strlit("AABB");
        reveal_strlit("ABBA");
        reveal_strlit("ABCD");
        lemma_pattern_of_four_letters("ABAB"@);
        lemma_pattern_of_four_letters("AABB"@);
        lemma_pattern_of_four_letters("ABBA"@);
        lemma_pattern_of_four_letters("ABCD"@);
    }
    let mut v: Vec<RhymeScheme> = Vec::new();
    v.push(RhymeScheme::from_str("ABAB"));
    v.push(RhymeScheme::from_str("AABB"));
    v.push(RhymeScheme::from_str("ABBA"));
    v.push(RhymeScheme::from_str("ABCD"));
    v
}

} // verus!
