//! The input stream: newline-ended records, a dictionary section, a record
//! beginning with `#`, then a query section.
use vstd::prelude::*;
use crate::decode::{decode_record, decode_word, WordFault};
use crate::search::words;
use crate::word::SVecC;

verus! {

/// Ends a record.
pub const NEWLINE: u8 = 0x0a;

/// First byte of the record that ends the dictionary section.
pub const SEPARATOR: u8 = 0x23;

/// Why an input stream cannot be read as a dictionary and queries.
#[derive(Debug, Clone, Copy, PartialEq, Eq, Structural)]
pub enum InputError {
    /// No record begins with `#`.
    MissingSeparator,
    /// The stream ends inside a query record, which has no newline.
    UnterminatedRecord { record: usize },
    /// A record does not decode to a word; records count from 0.
    BadWord { record: usize, fault: WordFault },
}

/// The words that an input stream holds.
pub struct WordLists {
    /// The dictionary words, in stream order.
    pub dictionary: Vec<SVecC>,
    /// The query words, in stream order.
    pub queries: Vec<SVecC>,
}

/// The complete records of `b`, without their newlines, and the bytes after
/// the last newline.
pub open spec fn split(b: Seq<u8>) -> (Seq<Seq<u8>>, Seq<u8>)
    decreases b.len(),
{
    if b.len() == 0 {
        (Seq::<Seq<u8>>::empty(), Seq::<u8>::empty())
    } else {
        let (rs, cur) = split(b.drop_last());
        if b.last() == NEWLINE {
            (rs.push(cur), Seq::<u8>::empty())
        } else {
            (rs, cur.push(b.last()))
        }
    }
}

/// The record begins with `#`.
pub open spec fn is_separator(r: Seq<u8>) -> bool {
    r.len() > 0 && r[0] == SEPARATOR
}

/// Position of the first separator among the first `n` records.
pub open spec fn first_separator(rs: Seq<Seq<u8>>, n: int) -> Option<int>
    decreases n,
{
    if n <= 0 {
        None
    } else {
        match first_separator(rs, n - 1) {
            Some(k) => Some(k),
            None => if is_separator(rs[n - 1]) {
                Some(n - 1)
            } else {
                None
            },
        }
    }
}

/// The words of records `lo..hi`, or the fault of the first that makes none.
pub open spec fn decode_all(rs: Seq<Seq<u8>>, lo: int, hi: int) -> Result<Seq<Seq<char>>, InputError>
    decreases hi - lo,
{
    if hi <= lo {
        Ok(Seq::<Seq<char>>::empty())
    } else {
        match decode_all(rs, lo, hi - 1) {
            Err(e) => Err(e),
            Ok(ws) => match decode_word(rs[hi - 1]) {
                Err(f) => Err(InputError::BadWord { record: (hi - 1) as usize, fault: f }),
                Ok(w) => Ok(ws.push(w)),
            },
        }
    }
}

/// The dictionary and the queries that the stream `b` holds, or why it holds
/// none. Records before the first separator are the dictionary, records after
/// it the queries; when the separator is the last, unterminated record there
/// are no queries.
pub open spec fn parse(b: Seq<u8>) -> Result<(Seq<Seq<char>>, Seq<Seq<char>>), InputError> {
    let (rs, rest) = split(b);
    match first_separator(rs, rs.len() as int) {
        Some(k) => if rest.len() > 0 {
            Err(InputError::UnterminatedRecord { record: rs.len() as usize })
        } else {
            match decode_all(rs, 0, k) {
                Err(e) => Err(e),
                Ok(d) => match decode_all(rs, k + 1, rs.len() as int) {
                    Err(e) => Err(e),
                    Ok(q) => Ok((d, q)),
                },
            }
        },
        None => if is_separator(rest) {
            match decode_all(rs, 0, rs.len() as int) {
                Err(e) => Err(e),
                Ok(d) => Ok((d, Seq::<Seq<char>>::empty())),
            }
        } else {
            Err(InputError::MissingSeparator)
        },
    }
}

/// The bytes of each record.
pub open spec fn records_view(rs: Seq<Vec<u8>>) -> Seq<Seq<u8>> {
    rs.map_values(|r: Vec<u8>| r@)
}

/// Splits `bytes` at its newlines into complete records and a remainder.
pub fn split_records(bytes: &Vec<u8>) -> (r: (Vec<Vec<u8>>, Vec<u8>))
    ensures
        (records_view(r.0@), r.1@) == split(bytes@),
{
    let mut recs: Vec<Vec<u8>> = Vec::new();
    let mut cur: Vec<u8> = Vec::new();
    let mut i: usize = 0;
    while i < bytes.len()
        invariant
            i <= bytes.len(),
            (records_view(recs@), cur@) == split(bytes@.subrange(0, i as int)),
        decreases bytes.len() - i,
    {
        let b = bytes[i];
        proof {
            assert(bytes@.subrange(0, i + 1).drop_last() =~= bytes@.subrange(0, i as int));
        }
        if b == NEWLINE {
            let done = cur;
            cur = Vec::new();
            let ghost before = recs@;
            recs.push(done);
            proof {
                assert(records_view(recs@) =~= records_view(before).push(done@));
                assert(cur@ =~= Seq::<u8>::empty());
            }
        } else {
            cur.push(b);
        }
        i = i + 1;
    }
    proof {
        assert(bytes@.subrange(0, bytes.len() as int) =~= bytes@);
    }
    (recs, cur)
}

fn separator_at(record: &Vec<u8>) -> (r: bool)
    ensures
        r == is_separator(record@),
{
    record.len() > 0 && record[0] == SEPARATOR
}

/// Position of the first record that begins with `#`, if any.
pub fn find_separator(recs: &Vec<Vec<u8>>) -> (r: Option<usize>)
    ensures
        match first_separator(records_view(recs@), recs.len() as int) {
            None => r is None,
            Some(k) => 0 <= k < recs.len() && r == Some(k as usize),
        },
{
    let ghost rs = records_view(recs@);
    proof {
        lemma_first_separator_range(rs, recs.len() as int);
    }
    let mut i: usize = 0;
    while i < recs.len()
        invariant
            i <= recs.len(),
            rs == records_view(recs@),
            first_separator(rs, i as int) is None,
        decreases recs.len() - i,
    {
        proof {
            assert(rs[i as int] == recs@[i as int]@);
        }
        if separator_at(&recs[i]) {
            proof {
                lemma_first_separator_stays(rs, i as int + 1, recs.len() as int);
            }
            return Some(i);
        }
        i = i + 1;
    }
    None
}

proof fn lemma_first_separator_range(rs: Seq<Seq<u8>>, n: int)
    ensures
        first_separator(rs, n) matches Some(k) ==> 0 <= k < n,
    decreases n,
{
    if n > 0 {
        lemma_first_separator_range(rs, n - 1);
    }
}

proof fn lemma_first_separator_stays(rs: Seq<Seq<u8>>, n: int, m: int)
    requires
        0 <= n <= m,
        first_separator(rs, n) is Some,
    ensures
        first_separator(rs, m) == first_separator(rs, n),
    decreases m - n,
{
    if m > n {
        lemma_first_separator_stays(rs, n, m - 1);
    }
}

proof fn lemma_decode_all_fails_on(rs: Seq<Seq<u8>>, lo: int, j: int, hi: int)
    requires
        lo <= j <= hi,
        decode_all(rs, lo, j) is Err,
    ensures
        decode_all(rs, lo, hi) == decode_all(rs, lo, j),
    decreases hi - j,
{
    if hi > j {
        lemma_decode_all_fails_on(rs, lo, j, hi - 1);
    }
}

/// Decodes records `lo..hi` into words, stopping at the first that makes none.
pub fn decode_records(recs: &Vec<Vec<u8>>, lo: usize, hi: usize) -> (r: Result<Vec<SVecC>, InputError>)
    requires
        lo <= hi <= recs.len(),
    ensures
        match decode_all(records_view(recs@), lo as int, hi as int) {
            Ok(ws) => r matches Ok(v) && words(v@) == ws,
            Err(e) => r == Err::<Vec<SVecC>, InputError>(e),
        },
{
    let ghost rs = records_view(recs@);
    let mut out: Vec<SVecC> = Vec::new();
    proof {
        assert(words(out@) =~= Seq::<Seq<char>>::empty());
    }
    let mut j: usize = lo;
    while j < hi
        invariant
            lo <= j <= hi,
            hi <= recs.len(),
            rs == records_view(recs@),
            decode_all(rs, lo as int, j as int) == Ok::<Seq<Seq<char>>, InputError>(words(out@)),
        decreases hi - j,
    {
        proof {
            assert(rs[j as int] == recs@[j as int]@);
        }
        match decode_record(&recs[j]) {
            Err(f) => {
                proof {
                    lemma_decode_all_fails_on(rs, lo as int, j + 1, hi as int);
                }
                return Err(InputError::BadWord { record: j, fault: f });
            },
            Ok(w) => {
                let ghost before = out@;
                out.push(w);
                proof {
                    assert(words(out@) =~= words(before).push(w@));
                }
            },
        }
        j = j + 1;
    }
    Ok(out)
}

/// Reads an input stream into its dictionary and its queries.
pub fn parse_input(bytes: &Vec<u8>) -> (r: Result<WordLists, InputError>)
    ensures
        match parse(bytes@) {
            Ok((d, q)) => r matches Ok(lists) && words(lists.dictionary@) == d && words(
                lists.queries@,
            ) == q,
            Err(e) => r matches Err(x) && x == e,
        },
{
    let (recs, rest) = split_records(bytes);
    let ghost rs = records_view(recs@);
    match find_separator(&recs) {
        Some(k) => {
            if rest.len() > 0 {
                return Err(InputError::UnterminatedRecord { record: recs.len() });
            }
            let dictionary = match decode_records(&recs, 0, k) {
                Err(e) => {
                    return Err(e);
                },
                Ok(v) => v,
            };
            let queries = match decode_records(&recs, k + 1, recs.len()) {
                Err(e) => {
                    return Err(e);
                },
                Ok(v) => v,
            };
            Ok(WordLists { dictionary, queries })
        },
        None => {
            if separator_at(&rest) {
                let dictionary = match decode_records(&recs, 0, recs.len()) {
                    Err(e) => {
                        return Err(e);
                    },
                    Ok(v) => v,
                };
                let queries: Vec<SVecC> = Vec::new();
                proof {
                    assert(words(queries@) =~= Seq::<Seq<char>>::empty());
                }
                Ok(WordLists { dictionary, queries })
            } else {
                Err(InputError::MissingSeparator)
            }
        },
    }
}

} // verus!
