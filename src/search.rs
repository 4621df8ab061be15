//! The per-query scan of the dictionary: pruning by length, prefix reuse
//! between consecutive words, and tracking of the best distance and its ties.
use vstd::prelude::*;
use crate::edit::{dist, lemma_dist_length_gap};
use crate::matrix::DistanceMatrix;
use crate::word::{SVecC, MAX_LEN};

verus! {

/// The characters of each word of a dictionary.
pub open spec fn words(d: Seq<SVecC>) -> Seq<Seq<char>> {
    d.map_values(|w: SVecC| w@)
}

/// Smallest distance from `q` to the first `n` words of `d`; `None` when
/// there are none.
pub open spec fn best(q: Seq<char>, d: Seq<Seq<char>>, n: int) -> Option<int>
    decreases n,
{
    if n <= 0 {
        None
    } else {
        let x = dist(q, d[n - 1]);
        match best(q, d, n - 1) {
            None => Some(x),
            Some(m) => Some(if x < m { x } else { m }),
        }
    }
}

/// Positions, in increasing order, of the words among the first `n` of `d`
/// that lie at distance `m` from `q`.
pub open spec fn positions(q: Seq<char>, d: Seq<Seq<char>>, m: int, n: int) -> Seq<usize>
    decreases n,
{
    if n <= 0 {
        Seq::<usize>::empty()
    } else {
        let p = positions(q, d, m, n - 1);
        if dist(q, d[n - 1]) == m {
            p.push((n - 1) as usize)
        } else {
            p
        }
    }
}

/// Smallest distance from `q` to a word of `d`; `None` for an empty dictionary.
pub open spec fn min_distance_of(q: Seq<char>, d: Seq<Seq<char>>) -> Option<int> {
    best(q, d, d.len() as int)
}

/// Positions of the words of `d` at the smallest distance from `q`, in
/// dictionary order.
pub open spec fn ties_of(q: Seq<char>, d: Seq<Seq<char>>) -> Seq<usize> {
    match min_distance_of(q, d) {
        None => Seq::<usize>::empty(),
        Some(m) => positions(q, d, m, d.len() as int),
    }
}

/// The words of `d` at the smallest distance from `q`, in dictionary order.
pub open spec fn tied_words(q: Seq<char>, d: Seq<Seq<char>>) -> Seq<Seq<char>> {
    ties_of(q, d).map_values(|p: usize| d[p as int])
}

/// A distance held in a byte, as an integer.
pub open spec fn widen(o: Option<u8>) -> Option<int> {
    match o {
        None => None,
        Some(x) => Some(x as int),
    }
}

/// The outcome of the search for one query word.
pub struct MatchResult {
    /// The query word.
    pub query: SVecC,
    /// Smallest distance to a dictionary word; `None` when the dictionary is
    /// empty.
    pub min_distance: Option<u8>,
    /// Positions in the dictionary of the words at that distance, in scan order.
    pub ties: Vec<usize>,
}

impl MatchResult {
    /// `self` is the outcome of searching the dictionary `d` for `q`.
    pub open spec fn reports(&self, q: Seq<char>, d: Seq<Seq<char>>) -> bool {
        &&& self.query@ == q
        &&& widen(self.min_distance) == min_distance_of(q, d)
        &&& self.ties@ == ties_of(q, d)
    }
}

proof fn lemma_best_is_min(q: Seq<char>, d: Seq<Seq<char>>, n: int)
    requires
        0 <= n <= d.len(),
    ensures
        n == 0 <==> best(q, d, n) is None,
        best(q, d, n) matches Some(m) ==> (forall|k: int|
            0 <= k < n ==> dist(q, #[trigger] d[k]) >= m) && exists|k: int|
            0 <= k < n && dist(q, #[trigger] d[k]) == m,
    decreases n,
{
    if n > 0 {
        lemma_best_is_min(q, d, n - 1);
        let x = dist(q, d[n - 1]);
        match best(q, d, n - 1) {
            None => {
                assert(dist(q, d[n - 1]) == x);
            },
            Some(m) => {
                if x < m {
                    assert(dist(q, d[n - 1]) == x);
                } else {
                    let k = choose|k: int| 0 <= k < n - 1 && dist(q, #[trigger] d[k]) == m;
                    assert(0 <= k < n && dist(q, d[k]) == m);
                }
            },
        }
    }
}

proof fn lemma_positions_contain(q: Seq<char>, d: Seq<Seq<char>>, m: int, n: int)
    requires
        0 <= n <= d.len(),
        n <= usize::MAX,
    ensures
        forall|x: usize| #[trigger]
            positions(q, d, m, n).contains(x) <==> (x < n && dist(q, d[x as int]) == m),
    decreases n,
{
    if n > 0 {
        lemma_positions_contain(q, d, m, n - 1);
        let p = positions(q, d, m, n - 1);
        let last = (n - 1) as usize;
        if dist(q, d[n - 1]) == m {
            assert forall|x: usize| #[trigger]
                positions(q, d, m, n).contains(x) <==> (x < n && dist(q, d[x as int]) == m) by {
                assert(p.push(last)[p.len() as int] == last);
                if p.push(last).contains(x) && x != last {
                    let j = choose|j: int| 0 <= j < p.len() + 1 && #[trigger] p.push(last)[j] == x;
                    assert(p[j] == x);
                }
                if p.contains(x) {
                    let j = choose|j: int| 0 <= j < p.len() && #[trigger] p[j] == x;
                    assert(p.push(last)[j] == x);
                }
            }
        }
    }
}

proof fn lemma_positions_empty(q: Seq<char>, d: Seq<Seq<char>>, m: int, n: int)
    requires
        0 <= n <= d.len(),
        forall|k: int| 0 <= k < n ==> dist(q, #[trigger] d[k]) > m,
    ensures
        positions(q, d, m, n) == Seq::<usize>::empty(),
    decreases n,
{
    if n > 0 {
        lemma_positions_empty(q, d, m, n - 1);
    }
}

/// Searches `dictionary` for the words nearest to `query`, using `matrix` as
/// scratch space. The outcome does not depend on what `matrix` held before.
pub fn search_with(matrix: &mut DistanceMatrix, query: &SVecC, dictionary: &Vec<SVecC>) -> (r:
    MatchResult)
    requires
        old(matrix).wf(),
    ensures
        final(matrix).wf(),
        r.reports(query@, words(dictionary@)),
{
    let ghost q = query@;
    let ghost d = words(dictionary@);
    let l1 = query.len();
    let n = dictionary.len();
    let mut min_dist: Option<u8> = None;
    let mut ties: Vec<usize> = Vec::new();
    let mut prev: Option<usize> = None;
    let mut i: usize = 0;
    while i < n
        invariant
            i <= n,
            n == dictionary@.len(),
            d == words(dictionary@),
            d.len() == n,
            q == query@,
            l1 == q.len(),
            l1 <= MAX_LEN,
            matrix.wf(),
            match prev {
                None => true,
                Some(k) => k < i && matrix.agrees(q, d[k as int], l1 as int, d[k as int].len() as int),
            },
            widen(min_dist) == best(q, d, i as int),
            ties@ == match best(q, d, i as int) {
                None => Seq::<usize>::empty(),
                Some(m) => positions(q, d, m, i as int),
            },
        decreases n - i,
    {
        let word = &dictionary[i];
        let l2 = word.len();
        proof {
            assert(d[i as int] == word@);
            lemma_best_is_min(q, d, i as int);
        }
        let gap = if l1 > l2 {
            l1 - l2
        } else {
            l2 - l1
        };
        let pruned = match min_dist {
            None => false,
            Some(m) => gap > m as usize,
        };
        if pruned {
            proof {
                lemma_dist_length_gap(q, word@);
                let m = best(q, d, i as int)->Some_0;
                assert(positions(q, d, m, i + 1) == positions(q, d, m, i as int));
            }
        } else {
            let reuse = match prev {
                None => {
                    proof {
                        matrix.lemma_base_column(q, word@, l1 as int);
                    }
                    0
                },
                Some(k) => {
                    let r = dictionary[k].common_prefix(word);
                    proof {
                        assert(d[k as int] == dictionary@[k as int]@);
                        matrix.lemma_shared_prefix(q, d[k as int], word@, r as int);
                    }
                    r
                },
            };
            let x = matrix.compute(query, word, reuse);
            match min_dist {
                None => {
                    proof {
                        assert(i == 0);
                        lemma_positions_empty(q, d, x as int, 0);
                        assert(positions(q, d, x as int, 1) =~= seq![0usize]);
                    }
                    min_dist = Some(x);
                    ties = vec![i];
                },
                Some(m) => {
                    if x < m {
                        proof {
                            lemma_positions_empty(q, d, x as int, i as int);
                            assert(positions(q, d, x as int, i + 1) =~= seq![i]);
                        }
                        min_dist = Some(x);
                        ties = vec![i];
                    } else if x == m {
                        ties.push(i);
                    }
                },
            }
            prev = Some(i);
        }
        i = i + 1;
    }
    MatchResult { query: *query, min_distance: min_dist, ties }
}

/// Searches `dictionary` for the words nearest to `query`.
pub fn search(query: &SVecC, dictionary: &Vec<SVecC>) -> (r: MatchResult)
    ensures
        r.reports(query@, words(dictionary@)),
{
    let mut matrix = DistanceMatrix::new();
    search_with(&mut matrix, query, dictionary)
}

/// Searches `dictionary` for each of `queries` in turn, reusing one grid, and
/// returns the outcomes in query order.
pub fn search_all(dictionary: &Vec<SVecC>, queries: &Vec<SVecC>) -> (r: Vec<MatchResult>)
    ensures
        r.len() == queries.len(),
        forall|k: int|
            0 <= k < queries.len() ==> #[trigger] r[k].reports(queries[k]@, words(dictionary@)),
{
    let mut matrix = DistanceMatrix::new();
    let mut out: Vec<MatchResult> = Vec::with_capacity(queries.len());
    let mut k: usize = 0;
    while k < queries.len()
        invariant
            k <= queries.len(),
            out.len() == k,
            matrix.wf(),
            forall|j: int| 0 <= j < k ==> #[trigger] out[j].reports(queries[j]@, words(dictionary@)),
        decreases queries.len() - k,
    {
        let r = search_with(&mut matrix, &queries[k], dictionary);
        out.push(r);
        k = k + 1;
    }
    out
}

/// Reordering the dictionary changes neither the smallest distance found nor
/// the set of words that reach it; only the order of the ties follows the scan.
pub proof fn lemma_order_irrelevant(q: Seq<char>, d1: Seq<Seq<char>>, d2: Seq<Seq<char>>)
    requires
        d1.to_multiset() == d2.to_multiset(),
        d1.len() <= usize::MAX,
    ensures
        min_distance_of(q, d1) == min_distance_of(q, d2),
        tied_words(q, d1).to_set() == tied_words(q, d2).to_set(),
{
    broadcast use vstd::seq_lib::group_to_multiset_ensures;

    assert(d1.len() == d1.to_multiset().len());
    assert(d2.len() == d2.to_multiset().len());
    assert forall|w: Seq<char>| d1.contains(w) <==> d2.contains(w) by {
        assert(d1.contains(w) <==> d1.to_multiset().count(w) > 0);
        assert(d2.contains(w) <==> d2.to_multiset().count(w) > 0);
    }
    lemma_best_is_min(q, d1, d1.len() as int);
    lemma_best_is_min(q, d2, d2.len() as int);
    if d1.len() > 0 {
        let m1 = min_distance_of(q, d1)->Some_0;
        let m2 = min_distance_of(q, d2)->Some_0;
        let k1 = choose|k: int| 0 <= k < d1.len() && dist(q, #[trigger] d1[k]) == m1;
        let k2 = choose|k: int| 0 <= k < d2.len() && dist(q, #[trigger] d2[k]) == m2;
        assert(d1.contains(d1[k1]));
        assert(d2.contains(d2[k2]));
        let j2 = choose|j: int| 0 <= j < d2.len() && d2[j] == d1[k1];
        let j1 = choose|j: int| 0 <= j < d1.len() && d1[j] == d2[k2];
        assert(dist(q, d2[j2]) >= m2);
        assert(dist(q, d1[j1]) >= m1);
        lemma_tied_words_are(q, d1, m1);
        lemma_tied_words_are(q, d2, m1);
        assert(tied_words(q, d1).to_set() =~= tied_words(q, d2).to_set());
    } else {
        assert(tied_words(q, d1).to_set() =~= tied_words(q, d2).to_set());
    }
}

proof fn lemma_tied_words_are(q: Seq<char>, d: Seq<Seq<char>>, m: int)
    requires
        min_distance_of(q, d) == Some(m),
        d.len() <= usize::MAX,
    ensures
        forall|w: Seq<char>| #[trigger]
            tied_words(q, d).to_set().contains(w) <==> (d.contains(w) && dist(q, w) == m),
{
    let n = d.len() as int;
    let ps = positions(q, d, m, n);
    lemma_positions_contain(q, d, m, n);
    assert forall|w: Seq<char>| #[trigger]
        tied_words(q, d).to_set().contains(w) <==> (d.contains(w) && dist(q, w) == m) by {
        let tw = tied_words(q, d);
        if tw.to_set().contains(w) {
            assert(tw.contains(w));
            let j = choose|j: int| 0 <= j < tw.len() && #[trigger] tw[j] == w;
            assert(ps.contains(ps[j]));
            assert(d[ps[j] as int] == w);
        }
        if d.contains(w) && dist(q, w) == m {
            let k = choose|k: int| 0 <= k < d.len() && #[trigger] d[k] == w;
            assert(ps.contains(k as usize));
            let j = choose|j: int| 0 <= j < ps.len() && #[trigger] ps[j] == k as usize;
            assert(tw[j] == w);
            assert(tw.contains(w));
        }
    }
}

/// Running the same search twice gives the same outcome: what is reported is
/// fixed by the query and the dictionary alone.
pub proof fn lemma_rerun_same(r1: MatchResult, r2: MatchResult, q: Seq<char>, d: Seq<Seq<char>>)
    requires
        r1.reports(q, d),
        r2.reports(q, d),
    ensures
        r1.query@ == r2.query@,
        r1.min_distance == r2.min_distance,
        r1.ties@ == r2.ties@,
{
}

/// Every reported position lies inside the dictionary.
pub proof fn lemma_ties_in_range(q: Seq<char>, d: Seq<Seq<char>>)
    requires
        d.len() <= usize::MAX,
    ensures
        forall|j: int| 0 <= j < ties_of(q, d).len() ==> #[trigger] ties_of(q, d)[j] < d.len(),
{
    if let Some(m) = min_distance_of(q, d) {
        let ps = positions(q, d, m, d.len() as int);
        lemma_positions_contain(q, d, m, d.len() as int);
        assert forall|j: int| 0 <= j < ps.len() implies #[trigger] ps[j] < d.len() by {
            assert(ps.contains(ps[j]));
        }
    }
}

} // verus!
