//! A whole run: an input stream in, one report line per query out.
use vstd::prelude::*;
use crate::input::{parse, parse_input, InputError};
use crate::output::line_of;
use crate::search::{lemma_ties_in_range, min_distance_of, search_all, tied_words, words};

verus! {

/// The report line for query `q` against dictionary `d`.
pub open spec fn report(q: Seq<char>, d: Seq<Seq<char>>) -> Seq<char> {
    line_of(q, min_distance_of(q, d), tied_words(q, d))
}

/// Reads the input stream `bytes` and returns the report line of each query,
/// in query order, or the reason the stream cannot be read.
pub fn run(bytes: &Vec<u8>) -> (r: Result<Vec<Vec<char>>, InputError>)
    ensures
        match parse(bytes@) {
            Ok((d, qs)) => r matches Ok(lines) && lines.len() == qs.len() && forall|k: int|
                0 <= k < qs.len() ==> #[trigger] lines[k]@ == report(qs[k], d),
            Err(e) => r matches Err(x) && x == e,
        },
{
    let lists = match parse_input(bytes) {
        Err(e) => {
            return Err(e);
        },
        Ok(l) => l,
    };
    let ghost d = words(lists.dictionary@);
    let ghost qs = words(lists.queries@);
    let results = search_all(&lists.dictionary, &lists.queries);
    let mut lines: Vec<Vec<char>> = Vec::with_capacity(results.len());
    let mut k: usize = 0;
    while k < results.len()
        invariant
            k <= results.len(),
            results.len() == lists.queries.len(),
            d == words(lists.dictionary@),
            d.len() == lists.dictionary.len(),
            qs == words(lists.queries@),
            forall|j: int|
                0 <= j < lists.queries.len() ==> #[trigger] results[j].reports(
                    lists.queries[j]@,
                    d,
                ),
            lines.len() == k,
            forall|j: int| 0 <= j < k ==> #[trigger] lines[j]@ == report(qs[j], d),
        decreases results.len() - k,
    {
        let ghost q = lists.queries[k as int]@;
        proof {
            assert(results[k as int].reports(q, d));
            lemma_ties_in_range(q, d);
            assert(results[k as int].ties@.map_values(
                |p: usize| lists.dictionary@[p as int]@,
            ) =~= tied_words(q, d));
            assert(qs[k as int] == q);
        }
        let line = results[k].line(&lists.dictionary);
        lines.push(line);
        k = k + 1;
    }
    Ok(lines)
}

} // verus!
