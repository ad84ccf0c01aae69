//! Phrase segmentation: the combinatorial part of cutting a prosody graph into
//! phrases along its Fiedler vector. Nodes are ranked by their Fiedler value,
//! cut where the value changes sign, and, when that gives too few phrases, also
//! at the widest gaps between neighbouring values.

use vstd::prelude::*;
use std::collections::BTreeSet;
use vstd::std_specs::btree::increasing_seq;
use vstd::string::StringExecFns;
use crate::text::{append_decimal, decimal};
use crate::error::{require_nodes, ProsodyError};

verus! {

/// Whether position `a` ranks before position `b`: by key (ascending, or descending
/// when asked), and by position among equal keys.
pub open spec fn ranks_before(keys: Seq<u64>, descending: bool, a: int, b: int) -> bool {
    if keys[a] == keys[b] {
        a < b
    } else if descending {
        keys[a] > keys[b]
    } else {
        keys[a] < keys[b]
    }
}

/// `order` lists every position of `keys` once, ranked by `ranks_before`; this is
/// what a stable sort by key yields.
pub open spec fn is_stable_order(keys: Seq<u64>, descending: bool, order: Seq<usize>) -> bool {
    &&& order.len() == keys.len()
    &&& forall|i: int| 0 <= i < order.len() ==> #[trigger] order[i] < keys.len()
    &&& forall|x: int| 0 <= x < keys.len() ==> #[trigger] order.contains(x as usize)
    &&& forall|i: int, j: int|
        0 <= i < j < order.len() ==> ranks_before(keys, descending, #[trigger] order[i] as int, #[trigger] order[j] as int)
}

/// There is only one stable order of a key sequence.
pub proof fn lemma_stable_order_unique(keys: Seq<u64>, descending: bool, o1: Seq<usize>, o2: Seq<usize>)
    requires
        is_stable_order(keys, descending, o1),
        is_stable_order(keys, descending, o2),
    ensures
        o1 == o2,
{
    if o1 != o2 {
        assert(!(o1 =~= o2));
        let i = choose|i: int| 0 <= i < o1.len() && o1[i] != o2[i];
        let i = lemma_first_difference(o1, o2, i);
        let a = o1[i];
        let b = o2[i];
        assert(o1.contains((b as int) as usize));
        assert(o2.contains((a as int) as usize));
        let j = choose|j: int| 0 <= j < o1.len() && o1[j] == b;
        let m = choose|m: int| 0 <= m < o2.len() && o2[m] == a;
        if j < i {
            assert(o2[j] == b);
            assert(ranks_before(keys, descending, o2[j] as int, o2[i] as int));
        }
        if m < i {
            assert(o1[m] == a);
            assert(ranks_before(keys, descending, o1[m] as int, o1[i] as int));
        }
        assert(j > i);
        assert(m > i);
        assert(ranks_before(keys, descending, o1[i] as int, o1[j] as int));
        assert(ranks_before(keys, descending, o2[i] as int, o2[m] as int));
    }
}

proof fn lemma_first_difference(o1: Seq<usize>, o2: Seq<usize>, i: int) -> (f: int)
    requires
        o1.len() == o2.len(),
        0 <= i < o1.len(),
        o1[i] != o2[i],
    ensures
        0 <= f <= i,
        o1[f] != o2[f],
        forall|k: int| 0 <= k < f ==> o1[k] == o2[k],
    decreases i,
{
    if exists|k: int| 0 <= k < i && o1[k] != o2[k] {
        let k = choose|k: int| 0 <= k < i && o1[k] != o2[k];
        lemma_first_difference(o1, o2, k)
    } else {
        i
    }
}

proof fn lemma_ranks_before_transitive(keys: Seq<u64>, descending: bool, a: int, b: int, c: int)
    requires
        ranks_before(keys, descending, a, b),
        ranks_before(keys, descending, b, c),
    ensures
        ranks_before(keys, descending, a, c),
{
}

fn goes_before(keys: &Vec<u64>, descending: bool, a: usize, b: usize) -> (r: bool)
    requires
        a < keys.len(),
        b < keys.len(),
    ensures
        r == ranks_before(keys@, descending, a as int, b as int),
{
    if keys[a] == keys[b] {
        a < b
    } else if descending {
        keys[a] > keys[b]
    } else {
        keys[a] < keys[b]
    }
}

/// The positions of `keys` in the order a stable sort by key gives (ascending, or
/// descending when asked; equal keys keep their positions' order).
pub fn stable_order(keys: &Vec<u64>, descending: bool) -> (order: Vec<usize>)
    ensures
        is_stable_order(keys@, descending, order@),
{
    let n = keys.len();
    let mut order: Vec<usize> = Vec::new();
    for i in 0..n
        invariant
            n == keys.len(),
            order.len() == i,
            forall|a: int| 0 <= a < order.len() ==> #[trigger] order@[a] < i,
            forall|x: int| 0 <= x < i ==> #[trigger] order@.contains(x as usize),
            forall|a: int, b: int|
                0 <= a < b < order.len() ==> ranks_before(keys@, descending, #[trigger] order@[a] as int, #[trigger] order@[b] as int),
    {
        let mut p: usize = 0;
        while p < order.len() && !goes_before(keys, descending, i, order[p])
            invariant
                n == keys.len(),
                i < n,
                order.len() == i,
                p <= order.len(),
                forall|a: int| 0 <= a < order.len() ==> #[trigger] order@[a] < i,
                forall|a: int| 0 <= a < p ==> ranks_before(keys@, descending, #[trigger] order@[a] as int, i as int),
            decreases order.len() - p,
        {
            proof {
                assert(order@[p as int] != i);
            }
            p = p + 1;
        }
        let ghost old_order = order@;
        order.insert(p, i);
        proof {
            assert(order@ =~= old_order.take(p as int).push(i).add(old_order.skip(p as int)));
            assert forall|x: int| 0 <= x < i + 1 implies #[trigger] order@.contains(x as usize) by {
                if x == i {
                    assert(order@[p as int] == i);
                } else {
                    assert(old_order.contains(x as usize));
                    let k = choose|k: int| 0 <= k < old_order.len() && old_order[k] == x as usize;
                    if k < p {
                        assert(order@[k] == x as usize);
                    } else {
                        assert(order@[k + 1] == x as usize);
                    }
                }
            }
            assert forall|a: int, b: int|
                0 <= a < b < order.len() implies ranks_before(keys@, descending, #[trigger] order@[a] as int, #[trigger] order@[b] as int) by {
                if b < p {
                    assert(order@[a] == old_order[a]);
                    assert(order@[b] == old_order[b]);
                } else if b == p {
                    assert(order@[a] == old_order[a]);
                } else if a < p {
                    assert(order@[a] == old_order[a]);
                    assert(order@[b] == old_order[b - 1]);
                    assert(ranks_before(keys@, descending, old_order[a] as int, i as int));
                    if p < old_order.len() {
                        assert(ranks_before(keys@, descending, i as int, old_order[p as int] as int));
                        if b - 1 > p {
                            assert(ranks_before(keys@, descending, old_order[p as int] as int, old_order[b - 1] as int));
                            lemma_ranks_before_transitive(keys@, descending, i as int, old_order[p as int] as int, old_order[b - 1] as int);
                        }
                    }
                    lemma_ranks_before_transitive(keys@, descending, old_order[a] as int, i as int, old_order[b - 1] as int);
                } else if a == p {
                    assert(order@[b] == old_order[b - 1]);
                    assert(ranks_before(keys@, descending, i as int, old_order[p as int] as int));
                    if b - 1 > p {
                        assert(ranks_before(keys@, descending, old_order[p as int] as int, old_order[b - 1] as int));
                        lemma_ranks_before_transitive(keys@, descending, i as int, old_order[p as int] as int, old_order[b - 1] as int);
                    }
                } else {
                    assert(order@[a] == old_order[a - 1]);
                    assert(order@[b] == old_order[b - 1]);
                }
            }
        }
    }
    order
}


/// A sequence of cut positions that increases strictly.
pub open spec fn strictly_increasing(s: Seq<usize>) -> bool {
    forall|i: int, j: int| 0 <= i < j < s.len() ==> #[trigger] s[i] < #[trigger] s[j]
}

/// Scanning the signs of the ranked Fiedler values: after the first `m` nodes, the
/// sign of the current run and the ranks where a new non-zero sign began.
pub open spec fn sign_scan(signs: Seq<i8>, m: int) -> (i8, Seq<usize>)
    decreases m,
{
    if m <= 1 {
        (signs[0], Seq::empty())
    } else {
        let (prev, cuts) = sign_scan(signs, m - 1);
        let cur = signs[m - 1];
        if cur != prev && cur != 0 {
            (cur, cuts.push((m - 1) as usize))
        } else {
            (prev, cuts)
        }
    }
}

/// The ranks at which the sign of the ranked Fiedler values changes.
pub open spec fn sign_cuts(signs: Seq<i8>) -> Seq<usize> {
    sign_scan(signs, signs.len() as int).1
}

/// Adds candidate cuts, in order, until there are `limit` cuts or no candidates left.
pub open spec fn gap_fill(cuts: Set<usize>, candidates: Seq<usize>, limit: nat) -> Set<usize>
    decreases candidates.len(),
{
    if candidates.len() == 0 || cuts.len() >= limit {
        cuts
    } else {
        gap_fill(cuts.insert(candidates[0]), candidates.drop_first(), limit)
    }
}

/// The stable order of a key sequence.
pub open spec fn stable_order_of(keys: Seq<u64>, descending: bool) -> Seq<usize> {
    choose|o: Seq<usize>| is_stable_order(keys, descending, o)
}

/// Candidate cuts at the gaps between neighbouring ranked values, widest first:
/// gap `p` lies between ranks `p` and `p + 1`, so cutting there starts a phrase at rank `p + 1`.
pub open spec fn widest_gap_cuts(gap_keys: Seq<u64>) -> Seq<usize> {
    stable_order_of(gap_keys, true).map_values(|p: usize| (p + 1) as usize)
}

/// At most this many cuts are made: one less than the number of phrases allowed.
pub open spec fn cut_limit(max_phrases: usize) -> nat {
    if max_phrases > 0 { (max_phrases - 1) as nat } else { 0 }
}

/// The set of cuts chosen: the sign changes, topped up from the widest gaps when
/// there are fewer than the limit, or the first of them up to the limit otherwise.
pub open spec fn phrase_cut_set(max_phrases: usize, signs: Seq<i8>, gap_keys: Seq<u64>) -> Set<usize> {
    let sc = sign_cuts(signs);
    let limit = cut_limit(max_phrases);
    if sc.len() < limit {
        gap_fill(sc.to_set(), widest_gap_cuts(gap_keys), limit)
    } else {
        sc.take(limit as int).to_set()
    }
}

proof fn lemma_gap_fill_keeps(cuts: Set<usize>, candidates: Seq<usize>, limit: nat)
    ensures
        cuts.subset_of(gap_fill(cuts, candidates, limit)),
    decreases candidates.len(),
{
    if !(candidates.len() == 0 || cuts.len() >= limit) {
        lemma_gap_fill_keeps(cuts.insert(candidates[0]), candidates.drop_first(), limit);
    }
}

proof fn lemma_sign_scan_tracks_sign(signs: Seq<i8>, m: int)
    requires
        1 <= m <= signs.len(),
        signs[m - 1] != 0,
    ensures
        sign_scan(signs, m).0 == signs[m - 1],
{
}

proof fn lemma_sign_scan_grows_to(signs: Seq<i8>, m: int, q: int, k: usize)
    requires
        1 <= m <= q <= signs.len(),
        sign_scan(signs, m).1.contains(k),
    ensures
        sign_scan(signs, q).1.contains(k),
    decreases q - m,
{
    if q > m {
        lemma_sign_scan_grows_to(signs, m, q - 1, k);
        let prev = sign_scan(signs, q - 1).1;
        let j = choose|j: int| 0 <= j < prev.len() && prev[j] == k;
        if sign_scan(signs, q).1 != prev {
            assert(sign_scan(signs, q).1 == prev.push((q - 1) as usize));
            assert(sign_scan(signs, q).1[j] == k);
        }
    }
}

/// Where two neighbouring ranks carry opposite non-zero signs, the ranking changes
/// sign there: the later rank is a sign-change cut.
pub proof fn lemma_opposite_neighbours_cut(signs: Seq<i8>, k: int)
    requires
        1 <= k < signs.len(),
        signs.len() <= usize::MAX,
        signs[k - 1] != 0,
        signs[k] != 0,
        signs[k - 1] != signs[k],
    ensures
        sign_cuts(signs).contains(k as usize),
{
    lemma_sign_scan_tracks_sign(signs, k);
    let c = sign_scan(signs, k + 1).1;
    assert(c == sign_scan(signs, k).1.push(k as usize));
    assert(c[c.len() - 1] == k as usize);
    lemma_sign_scan_grows_to(signs, k + 1, signs.len() as int, k as usize);
}

/// Sign changes come first: when they give fewer cuts than allowed, every one of
/// them is kept and only topped up from the widest gaps; when they give enough,
/// only sign-change cuts are made.
pub proof fn lemma_sign_cuts_kept(max_phrases: usize, signs: Seq<i8>, gap_keys: Seq<u64>)
    ensures
        sign_cuts(signs).len() < cut_limit(max_phrases) ==> sign_cuts(signs).to_set().subset_of(
            phrase_cut_set(max_phrases, signs, gap_keys),
        ),
        sign_cuts(signs).len() >= cut_limit(max_phrases) ==> phrase_cut_set(max_phrases, signs, gap_keys).subset_of(
            sign_cuts(signs).to_set(),
        ),
{
    let sc = sign_cuts(signs);
    let limit = cut_limit(max_phrases);
    if sc.len() < limit {
        lemma_gap_fill_keeps(sc.to_set(), widest_gap_cuts(gap_keys), limit);
    } else {
        assert forall|y: usize| sc.take(limit as int).to_set().contains(y) implies sc.to_set().contains(y) by {
            let j = choose|j: int| 0 <= j < sc.take(limit as int).len() && sc.take(limit as int)[j] == y;
            assert(sc[j] == y);
        }
    }
}

/// With room for more cuts than the sign changes give, a rank whose neighbour
/// before it carries the opposite non-zero sign always starts a phrase.
pub proof fn lemma_opposite_neighbours_start_phrase(max_phrases: usize, signs: Seq<i8>, gap_keys: Seq<u64>, k: int)
    requires
        1 <= k < signs.len(),
        signs.len() <= usize::MAX,
        signs[k - 1] != 0,
        signs[k] != 0,
        signs[k - 1] != signs[k],
        sign_cuts(signs).len() < cut_limit(max_phrases),
    ensures
        phrase_cut_set(max_phrases, signs, gap_keys).contains(k as usize),
{
    lemma_opposite_neighbours_cut(signs, k);
    lemma_sign_cuts_kept(max_phrases, signs, gap_keys);
    assert(sign_cuts(signs).to_set().contains(k as usize));
}

proof fn lemma_sign_scan_shape(signs: Seq<i8>, m: int)
    requires
        1 <= m <= signs.len(),
        signs.len() <= usize::MAX,
    ensures
        strictly_increasing(sign_scan(signs, m).1),
        forall|i: int| 0 <= i < sign_scan(signs, m).1.len() ==> 1 <= #[trigger] sign_scan(signs, m).1[i] < m,
    decreases m,
{
    if m > 1 {
        lemma_sign_scan_shape(signs, m - 1);
        let (prev, cuts) = sign_scan(signs, m - 1);
        let cur = signs[m - 1];
        if cur != prev && cur != 0 {
            let c2 = cuts.push((m - 1) as usize);
            assert(sign_scan(signs, m).1 == c2);
            assert forall|i: int, j: int| 0 <= i < j < c2.len() implies #[trigger] c2[i] < #[trigger] c2[j] by {
                if j < cuts.len() {
                    assert(c2[i] == cuts[i] && c2[j] == cuts[j]);
                } else {
                    assert(c2[i] == cuts[i]);
                }
            }
            assert forall|i: int| 0 <= i < c2.len() implies 1 <= #[trigger] c2[i] < m by {
                if i < cuts.len() {
                    assert(c2[i] == cuts[i]);
                }
            }
        } else {
            assert(sign_scan(signs, m).1 == cuts);
        }
    }
}

proof fn lemma_strict_no_duplicates(s: Seq<usize>)
    requires
        strictly_increasing(s),
    ensures
        s.no_duplicates(),
        s.to_set().len() == s.len(),
{
    assert forall|i: int, j: int| 0 <= i < s.len() && 0 <= j < s.len() && i != j implies s[i] != s[j] by {
        if i < j {
            assert(s[i] < s[j]);
        } else {
            assert(s[j] < s[i]);
        }
    }
    s.unique_seq_to_set();
}

/// Cut positions are `usize`, whose order a sorted set of cuts relies on: a
/// sequence of cuts the set reports as increasing increases strictly.
proof fn lemma_cut_positions_ordered()
    ensures
        vstd::laws_cmp::obeys_cmp::<usize>(),
        vstd::std_specs::btree::key_obeys_cmp_spec::<usize>(),
        forall|s: Seq<&usize>| #[trigger] increasing_seq(s) ==> strictly_increasing(s.unref()),
{
    broadcast use vstd::laws_cmp::group_laws_cmp;
    broadcast use vstd::std_specs::btree::group_btree_axioms;
    assert forall|s: Seq<&usize>| #[trigger] increasing_seq(s) implies strictly_increasing(s.unref()) by {
        assert forall|i: int, j: int| 0 <= i < j < s.unref().len() implies #[trigger] s.unref()[i] < #[trigger] s.unref()[j] by {
            assert(vstd::std_specs::cmp::OrdSpec::cmp_spec(&s[i], &s[j]) is Less);
        }
    }
}

/// The ranks `1..n` as a set of positions: finite, with `n - 1` members.
proof fn lemma_inner_ranks(n: int)
    requires
        1 <= n,
        n - 1 <= usize::MAX,
    ensures
        Set::new(|x: usize| 1 <= x < n).finite(),
        Set::new(|x: usize| 1 <= x < n).len() == n - 1,
    decreases n,
{
    let r = Set::new(|x: usize| 1 <= x < n);
    if n == 1 {
        assert(r =~= Set::<usize>::empty());
    } else {
        lemma_inner_ranks(n - 1);
        let prev = Set::new(|x: usize| 1 <= x < n - 1);
        assert(r =~= prev.insert((n - 1) as usize));
    }
}

/// The cuts of a set, in increasing order.
fn sorted_cuts(cuts: &BTreeSet<usize>) -> (v: Vec<usize>)
    ensures
        strictly_increasing(v@),
        v@.to_set() == cuts@,
{
    proof {
        lemma_cut_positions_ordered();
    }
    broadcast use vstd::std_specs::btree::group_btree_axioms;
    let ghost keys = vstd::std_specs::iter::IteratorSpec::remaining(&vstd::std_specs::btree::spec_btree_keys_iter(cuts)).unref();
    let mut v: Vec<usize> = Vec::new();
    for x in it: cuts.iter()
        invariant
            it.seq().unref() == keys,
            v@ == keys.take(it.index() as int),
    {
        v.push(*x);
        proof {
            assert(keys.take(it.index() + 1) =~= keys.take(it.index() as int).push(*x));
        }
    }
    proof {
        assert(v@ =~= keys);
    }
    v
}

/// Segments nodes into phrases.
pub struct PhraseSegmenter {
    /// Maximum number of phrases to extract (none at all when zero).
    pub max_phrases: usize,
    /// Number of rhythm layers to use for clustering context.
    pub num_layers: usize,
}

impl Default for PhraseSegmenter {
    /// At most eight phrases, with five rhythm layers.
    fn default() -> (s: Self)
        ensures
            s.max_phrases == 8,
            s.num_layers == 5,
    {
        PhraseSegmenter { max_phrases: 8, num_layers: 5 }
    }
}

impl PhraseSegmenter {
    /// A segmenter for at most `max_phrases` phrases, using twice as many rhythm layers.
    pub fn new(max_phrases: usize) -> (s: Self)
        requires
            max_phrases <= usize::MAX / 2,
        ensures
            s.max_phrases == max_phrases,
            s.num_layers == max_phrases * 2,
    {
        PhraseSegmenter { max_phrases, num_layers: max_phrases * 2 }
    }

    /// Whether the sign changes alone give fewer cuts than allowed, so that the
    /// widest gaps are ranked to top them up.
    pub fn needs_gap_ranking(&self, signs: &Vec<i8>) -> (b: bool)
        requires
            signs.len() >= 1,
        ensures
            b == (sign_cuts(signs@).len() < cut_limit(self.max_phrases)),
    {
        let n = signs.len();
        let mut count: usize = 0;
        let mut prev = signs[0];
        for k in 1..n
            invariant
                n == signs.len(),
                prev == sign_scan(signs@, k as int).0,
                count == sign_scan(signs@, k as int).1.len(),
                count < k,
        {
            let cur = signs[k];
            if cur != prev && cur != 0 {
                count = count + 1;
                prev = cur;
            }
        }
        count < self.max_phrases.saturating_sub(1)
    }

    /// The ranks at which phrases start (besides the first), given the sign of the
    /// Fiedler value at each rank and the widths of the gaps between neighbouring ranks
    /// (as keys ordered like the widths).
    pub fn phrase_cuts(&self, signs: &Vec<i8>, gap_keys: &Vec<u64>) -> (cuts: Vec<usize>)
        requires
            signs.len() >= 1,
            gap_keys.len() + 1 == signs.len(),
        ensures
            strictly_increasing(cuts@),
            forall|i: int| 0 <= i < cuts@.len() ==> 1 <= #[trigger] cuts@[i] < signs.len(),
            cuts@.len() <= cut_limit(self.max_phrases),
            cuts@.len() == (if cut_limit(self.max_phrases) <= signs.len() - 1 { cut_limit(self.max_phrases) as int } else { signs.len() - 1 }),
            cuts@.to_set() == phrase_cut_set(self.max_phrases, signs@, gap_keys@),
            sign_cuts(signs@).len() < cut_limit(self.max_phrases) ==> sign_cuts(signs@).to_set().subset_of(cuts@.to_set()),
            sign_cuts(signs@).len() >= cut_limit(self.max_phrases) ==> cuts@.to_set().subset_of(sign_cuts(signs@).to_set()),
    {
        proof {
            lemma_sign_cuts_kept(self.max_phrases, signs@, gap_keys@);
        }
        let n = signs.len();
        let limit = self.max_phrases.saturating_sub(1);
        let mut cuts: Vec<usize> = Vec::new();
        let mut prev = signs[0];
        for k in 1..n
            invariant
                n == signs.len(),
                (prev, cuts@) == sign_scan(signs@, k as int),
        {
            let cur = signs[k];
            if cur != prev && cur != 0 {
                cuts.push(k);
                prev = cur;
            }
        }
        proof {
            lemma_sign_scan_shape(signs@, n as int);
            lemma_strict_no_duplicates(cuts@);
        }
        let ghost sc = cuts@;
        let ghost ranks = Set::new(|x: usize| 1 <= x < n);
        proof {
            lemma_inner_ranks(n as int);
            vstd::seq_lib::seq_to_set_is_finite(sc);
            assert(sc.to_set().subset_of(ranks)) by {
                assert forall|y: usize| sc.to_set().contains(y) implies ranks.contains(y) by {
                    let j = choose|j: int| 0 <= j < sc.len() && sc[j] == y;
                }
            }
            vstd::set_lib::lemma_len_subset(sc.to_set(), ranks);
        }
        if cuts.len() < limit {
            let order = stable_order(gap_keys, true);
            let ghost cand = widest_gap_cuts(gap_keys@);
            proof {
                lemma_stable_order_unique(gap_keys@, true, order@, stable_order_of(gap_keys@, true));
                lemma_cut_positions_ordered();
            }
            broadcast use vstd::std_specs::btree::group_btree_axioms;
            let mut all: BTreeSet<usize> = BTreeSet::new();
            for k in 0..cuts.len()
                invariant
                    sc == cuts@,
                    all@ == sc.take(k as int).to_set(),
            {
                all.insert(cuts[k]);
                proof {
                    assert(sc.take(k + 1) =~= sc.take(k as int).push(sc[k as int]));
                    assert(sc.take(k + 1).to_set() =~= sc.take(k as int).to_set().insert(sc[k as int])) by {
                        let prev = sc.take(k as int);
                        assert forall|y: usize| prev.push(sc[k as int]).contains(y) <==> prev.contains(y) || y == sc[k as int] by {
                            if prev.push(sc[k as int]).contains(y) && y != sc[k as int] {
                                let j = choose|j: int| 0 <= j < prev.push(sc[k as int]).len() && prev.push(sc[k as int])[j] == y;
                                assert(prev[j] == y);
                            }
                            if prev.contains(y) {
                                let j = choose|j: int| 0 <= j < prev.len() && prev[j] == y;
                                assert(prev.push(sc[k as int])[j] == y);
                            }
                            assert(prev.push(sc[k as int])[prev.len() as int] == sc[k as int]);
                        }
                    }
                }
            }
            proof {
                assert(sc.take(sc.len() as int) =~= sc);
                vstd::seq_lib::seq_to_set_is_finite(sc);
                assert forall|y: usize| all@.contains(y) implies 1 <= y < n by {
                    let j = choose|j: int| 0 <= j < sc.len() && sc[j] == y;
                }
            }
            let mut t: usize = 0;
            proof {
                assert(cand.skip(0) =~= cand);
            }
            while t < order.len() && all.len() < limit
                invariant
                    n == signs.len(),
                    gap_keys.len() + 1 == n,
                    is_stable_order(gap_keys@, true, order@),
                    cand == order@.map_values(|p: usize| (p + 1) as usize),
                    t <= order.len(),
                    all@.finite(),
                    forall|y: usize| all@.contains(y) ==> 1 <= y < n,
                    forall|j: int| 0 <= j < t ==> all@.contains(#[trigger] cand[j]),
                    ranks == Set::new(|x: usize| 1 <= x < n),
                    all@.len() <= limit,
                    limit == cut_limit(self.max_phrases),
                    gap_fill(sc.to_set(), cand, limit as nat) == gap_fill(all@, cand.skip(t as int), limit as nat),
                decreases order.len() - t,
            {
                let x = order[t] + 1;
                proof {
                    lemma_cut_positions_ordered();
                    assert(cand.skip(t as int).drop_first() =~= cand.skip(t + 1));
                    assert(cand.skip(t as int)[0] == x);
                }
                all.insert(x);
                t = t + 1;
            }
            proof {
                lemma_cut_positions_ordered();
                lemma_inner_ranks(n as int);
                assert(all@.subset_of(ranks));
                vstd::set_lib::lemma_len_subset(all@, ranks);
                if t == order.len() {
                    assert(cand.skip(t as int).len() == 0);
                    assert forall|y: usize| ranks.contains(y) implies all@.contains(y) by {
                        let x = (y - 1) as usize;
                        assert(order@.contains(((y - 1) as int) as usize));
                        let j = choose|j: int| 0 <= j < order@.len() && order@[j] == x;
                        assert(cand[j] == y);
                    }
                    assert(all@ =~= ranks);
                }
            }
            cuts = sorted_cuts(&all);
            proof {
                lemma_strict_no_duplicates(cuts@);
                assert forall|i: int| 0 <= i < cuts@.len() implies 1 <= #[trigger] cuts@[i] < n by {
                    assert(cuts@.to_set().contains(cuts@[i]));
                }
            }
        } else {
            cuts.truncate(limit);
            proof {
                assert(cuts@ =~= sc.take(limit as int));
            }
        }
        cuts
    }
}


/// Two strictly increasing sequences with the same elements are equal.
pub proof fn lemma_strictly_increasing_unique(a: Seq<usize>, b: Seq<usize>)
    requires
        strictly_increasing(a),
        strictly_increasing(b),
        a.to_set() == b.to_set(),
    ensures
        a == b,
{
    lemma_strict_no_duplicates(a);
    lemma_strict_no_duplicates(b);
    if a != b {
        assert(!(a =~= b));
        let i = choose|i: int| 0 <= i < a.len() && a[i] != b[i];
        let i = lemma_first_difference(a, b, i);
        assert(a.to_set().contains(b[i]));
        assert(b.to_set().contains(a[i]));
        let j = choose|j: int| 0 <= j < a.len() && a[j] == b[i];
        let m = choose|m: int| 0 <= m < b.len() && b[m] == a[i];
        if j < i {
            assert(b[j] == a[j]);
            assert(b[j] < b[i]);
        }
        if m < i {
            assert(a[m] == b[m]);
            assert(a[m] < a[i]);
        }
        if j > i {
            assert(a[i] < a[j]);
        }
        if m > i {
            assert(b[i] < b[m]);
        }
    }
}

/// The cuts chosen for a segmenter and a ranking, as an increasing sequence.
pub open spec fn chosen_cuts(max_phrases: usize, signs: Seq<i8>, gap_keys: Seq<u64>) -> Seq<usize> {
    choose|c: Seq<usize>| strictly_increasing(c) && c.to_set() == phrase_cut_set(max_phrases, signs, gap_keys)
}

/// The rank at which span `i` begins: 0 for the first, the cuts in between, and `n`
/// past the last.
pub open spec fn span_bound(cuts: Seq<usize>, n: nat, i: int) -> int {
    if i <= 0 {
        0
    } else if i > cuts.len() {
        n as int
    } else {
        cuts[i - 1] as int
    }
}

/// The label of the `i`-th phrase.
pub open spec fn phrase_label(i: nat) -> Seq<char> {
    "phrase_"@ + decimal(i)
}

/// A run of consecutive ranked nodes forming one phrase.
pub struct PhraseSpan {
    /// Smallest node index in the phrase.
    pub start_idx: usize,
    /// Largest node index in the phrase.
    pub end_idx: usize,
    /// The node indices of the phrase, in rank order.
    pub members: Vec<usize>,
    /// The phrase's label.
    pub label: String,
}

/// `span` is the `index`-th phrase and holds exactly `members`.
pub open spec fn describes_span(span: PhraseSpan, members: Seq<usize>, index: nat) -> bool {
    &&& span.members@ == members
    &&& span.label@ == phrase_label(index)
    &&& members.contains(span.start_idx)
    &&& members.contains(span.end_idx)
    &&& forall|k: int| 0 <= k < members.len() ==> span.start_idx <= #[trigger] members[k] <= span.end_idx
}

/// The spans are the runs of `order` between consecutive cuts.
pub open spec fn spans_follow_cuts(spans: Seq<PhraseSpan>, order: Seq<usize>, cuts: Seq<usize>) -> bool {
    &&& spans.len() == cuts.len() + 1
    &&& forall|i: int| 0 <= i < spans.len() ==> describes_span(
        #[trigger] spans[i],
        order.subrange(span_bound(cuts, order.len(), i), span_bound(cuts, order.len(), i + 1)),
        i as nat,
    )
}

fn make_span(order: &Vec<usize>, start: usize, end: usize, index: usize) -> (span: PhraseSpan)
    requires
        start < end <= order.len(),
    ensures
        describes_span(span, order@.subrange(start as int, end as int), index as nat),
{
    let mut members: Vec<usize> = Vec::new();
    let mut lo = order[start];
    let mut hi = order[start];
    let mut k = start;
    while k < end
        invariant
            start <= k <= end <= order.len(),
            start < end,
            members@ == order@.subrange(start as int, k as int),
            k > start ==> members@.contains(lo) && members@.contains(hi),
            k == start ==> lo == order@[start as int] && hi == order@[start as int],
            forall|a: int| 0 <= a < members@.len() ==> lo <= #[trigger] members@[a] <= hi,
        decreases end - k,
    {
        let v = order[k];
        proof {
            assert(order@.subrange(start as int, k + 1) =~= members@.push(v));
        }
        if v < lo {
            lo = v;
        }
        if v > hi {
            hi = v;
        }
        members.push(v);
        proof {
            assert(members@[members@.len() - 1] == v);
            if k == start {
                assert(members@[0] == v);
            }
        }
        k = k + 1;
    }
    let mut label = String::from_str("phrase_");
    append_decimal(&mut label, index);
    PhraseSpan { start_idx: lo, end_idx: hi, members, label }
}

impl PhraseSegmenter {
    /// Segmentation needs at least two nodes.
    pub fn check_node_count(&self, n: usize) -> (r: Result<(), ProsodyError>)
        ensures
            r is Ok <==> n >= 2,
            r is Err ==> r == Err::<(), ProsodyError>(ProsodyError::InsufficientNodes { got: n, need: 2 }),
    {
        require_nodes(n, 2)
    }

    /// The phrases over all `n` nodes when there is no spectrum to cut by: one phrase
    /// holding every node, or none when the segmenter allows none.
    pub fn whole_spans(&self, n: usize) -> (spans: Vec<PhraseSpan>)
        requires
            n >= 1,
        ensures
            self.max_phrases == 0 ==> spans@.len() == 0,
            self.max_phrases >= 1 ==> spans@.len() == 1 && spans@[0].start_idx == 0 && spans@[0].end_idx == n - 1
                && spans@[0].members@ == Seq::new(n as nat, |i: int| i as usize) && spans@[0].label@ == phrase_label(0),
    {
        let mut spans: Vec<PhraseSpan> = Vec::new();
        if self.max_phrases == 0 {
            return spans;
        }
        let mut members: Vec<usize> = Vec::new();
        for i in 0..n
            invariant
                members@ == Seq::new(i as nat, |k: int| k as usize),
        {
            members.push(i);
            proof {
                assert(members@ =~= Seq::new((i + 1) as nat, |k: int| k as usize));
            }
        }
        let mut label = String::from_str("phrase_");
        append_decimal(&mut label, 0);
        spans.push(PhraseSpan { start_idx: 0, end_idx: n - 1, members, label });
        spans
    }

    /// Cuts the ranked nodes into phrases: as many as the segmenter allows, or one
    /// per node when there are fewer nodes.
    ///
    /// `order` lists the nodes by ascending Fiedler value, `signs[k]` is the sign of
    /// the value at rank `k`, and `gap_keys[p]` orders the width of the gap between
    /// ranks `p` and `p + 1` (a wider gap has a larger key).
    pub fn plan(&self, order: &Vec<usize>, signs: &Vec<i8>, gap_keys: &Vec<u64>) -> (spans: Vec<PhraseSpan>)
        requires
            order.len() >= 1,
            signs.len() == order.len(),
            gap_keys.len() + 1 == order.len(),
        ensures
            is_phrase_plan(self.max_phrases, order@, signs@, gap_keys@, spans@),
            self.max_phrases >= 1 ==> spans@.len() == (if self.max_phrases <= order.len() { self.max_phrases as int } else { order.len() as int }),
    {
        if self.max_phrases == 0 {
            return Vec::new();
        }
        let cuts = self.phrase_cuts(signs, gap_keys);
        proof {
            let c = chosen_cuts(self.max_phrases, signs@, gap_keys@);
            assert(strictly_increasing(cuts@) && cuts@.to_set() == phrase_cut_set(self.max_phrases, signs@, gap_keys@));
            lemma_strictly_increasing_unique(cuts@, c);
        }
        let n = order.len();
        let mut spans: Vec<PhraseSpan> = Vec::new();
        let mut start: usize = 0;
        for t in 0..cuts.len()
            invariant
                n == order.len(),
                strictly_increasing(cuts@),
                forall|i: int| 0 <= i < cuts@.len() ==> 1 <= #[trigger] cuts@[i] < n,
                spans@.len() == t,
                start == span_bound(cuts@, n as nat, t as int),
                forall|i: int| 0 <= i < t ==> describes_span(
                    #[trigger] spans@[i],
                    order@.subrange(span_bound(cuts@, n as nat, i), span_bound(cuts@, n as nat, i + 1)),
                    i as nat,
                ),
        {
            let b = cuts[t];
            let end = b.saturating_sub(1);
            proof {
                if t > 0 {
                    assert(cuts@[t - 1] < cuts@[t as int]);
                }
            }
            if end >= start {
                let span = make_span(order, start, end + 1, spans.len());
                spans.push(span);
            }
            start = b;
        }
        if start < n {
            let span = make_span(order, start, n, spans.len());
            spans.push(span);
        }
        proof {
            if cuts@.len() > 0 {
                assert(cuts@[cuts@.len() - 1] < n);
            }
            let c = chosen_cuts(self.max_phrases, signs@, gap_keys@);
            assert(c == cuts@);
        }
        spans
    }
}


/// `spans` is the segmentation of the ranking `order` that a segmenter allowing
/// `max_phrases` phrases produces: none when it allows none; otherwise the chosen cuts
/// are increasing ranks inside the ranking, at most the limit in number, and the
/// spans are the runs between them.
pub open spec fn is_phrase_plan(
    max_phrases: usize,
    order: Seq<usize>,
    signs: Seq<i8>,
    gap_keys: Seq<u64>,
    spans: Seq<PhraseSpan>,
) -> bool {
    let cuts = chosen_cuts(max_phrases, signs, gap_keys);
    if max_phrases == 0 {
        spans.len() == 0
    } else {
        &&& strictly_increasing(cuts)
        &&& forall|i: int| 0 <= i < cuts.len() ==> 1 <= #[trigger] cuts[i] < order.len()
        &&& cuts.len() <= cut_limit(max_phrases)
        &&& spans_follow_cuts(spans, order, cuts)
    }
}

/// The members of the spans, one span after another.
pub open spec fn joined_members(spans: Seq<PhraseSpan>) -> Seq<usize>
    decreases spans.len(),
{
    if spans.len() == 0 {
        Seq::empty()
    } else {
        joined_members(spans.drop_last()) + spans.last().members@
    }
}

proof fn lemma_span_bounds_increase(cuts: Seq<usize>, n: nat, i: int)
    requires
        strictly_increasing(cuts),
        forall|k: int| 0 <= k < cuts.len() ==> 1 <= #[trigger] cuts[k] < n,
        0 <= i <= cuts.len(),
        n >= 1,
    ensures
        0 <= span_bound(cuts, n, i) < span_bound(cuts, n, i + 1) <= n,
{
    if 1 <= i && i + 1 <= cuts.len() {
        assert(cuts[i - 1] < cuts[i]);
    }
}

proof fn lemma_joined_prefix(spans: Seq<PhraseSpan>, order: Seq<usize>, cuts: Seq<usize>, m: int)
    requires
        spans_follow_cuts(spans, order, cuts),
        strictly_increasing(cuts),
        forall|k: int| 0 <= k < cuts.len() ==> 1 <= #[trigger] cuts[k] < order.len(),
        0 <= m <= spans.len(),
        order.len() >= 1,
    ensures
        joined_members(spans.take(m)) == order.subrange(0, span_bound(cuts, order.len(), m)),
    decreases m,
{
    let n = order.len();
    if m == 0 {
        assert(spans.take(0) =~= Seq::<PhraseSpan>::empty());
        assert(order.subrange(0, 0) =~= Seq::<usize>::empty());
    } else {
        lemma_joined_prefix(spans, order, cuts, m - 1);
        lemma_span_bounds_increase(cuts, n, m - 1);
        if m >= 2 {
            lemma_span_bounds_increase(cuts, n, m - 2);
        }
        assert(spans.take(m).drop_last() =~= spans.take(m - 1));
        assert(spans.take(m).last() == spans[m - 1]);
        let lo = span_bound(cuts, n, m - 1);
        let hi = span_bound(cuts, n, m);
        assert(describes_span(spans[m - 1], order.subrange(lo, hi), (m - 1) as nat));
        assert(order.subrange(0, lo) + order.subrange(lo, hi) =~= order.subrange(0, hi));
    }
}

/// A segmentation never has more phrases than the segmenter allows, and each phrase's
/// start index is at most its end index. When any phrase is allowed it covers the
/// ranking exactly: its phrases, joined in order, give back every node once, in rank
/// order, and there is at least one.
pub proof fn lemma_plan_partitions_ranking(
    max_phrases: usize,
    order: Seq<usize>,
    signs: Seq<i8>,
    gap_keys: Seq<u64>,
    spans: Seq<PhraseSpan>,
)
    requires
        order.len() >= 1,
        is_phrase_plan(max_phrases, order, signs, gap_keys, spans),
    ensures
        spans.len() <= max_phrases,
        max_phrases >= 1 ==> joined_members(spans) == order && spans.len() >= 1,
        forall|i: int| 0 <= i < spans.len() ==> (#[trigger] spans[i]).start_idx <= spans[i].end_idx,
{
    if max_phrases == 0 {
        return;
    }
    let cuts = chosen_cuts(max_phrases, signs, gap_keys);
    lemma_joined_prefix(spans, order, cuts, spans.len() as int);
    assert(spans.take(spans.len() as int) =~= spans);
    assert(order.subrange(0, order.len() as int) =~= order);
    assert forall|i: int| 0 <= i < spans.len() implies (#[trigger] spans[i]).start_idx <= spans[i].end_idx by {
        let members = order.subrange(span_bound(cuts, order.len(), i), span_bound(cuts, order.len(), i + 1));
        assert(describes_span(spans[i], members, i as nat));
        let k = choose|k: int| 0 <= k < members.len() && members[k] == spans[i].end_idx;
    }
}

} // verus!
