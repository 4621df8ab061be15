//! The text line that reports one search outcome:
//! `<query> (<distance>) <tie> <tie> ...`, or `<query> (<no-match>)` when the
//! dictionary is empty.
use vstd::prelude::*;
use crate::search::{widen, MatchResult};
use crate::word::SVecC;

verus! {

/// The decimal digit for `n`, which is below ten.
pub open spec fn digit(n: int) -> char {
    seq!['0', '1', '2', '3', '4', '5', '6', '7', '8', '9'][n]
}

/// The decimal numeral of `n`, without leading zeros.
pub open spec fn decimal(n: nat) -> Seq<char>
    decreases n,
{
    if n < 10 {
        seq![digit(n as int)]
    } else {
        decimal(n / 10).push(digit((n % 10) as int))
    }
}

/// What stands in place of the distance when nothing was found.
pub open spec fn no_match_marker() -> Seq<char> {
    seq!['<', 'n', 'o', '-', 'm', 'a', 't', 'c', 'h', '>']
}

/// Each word preceded by one space.
pub open spec fn joined(ws: Seq<Seq<char>>) -> Seq<char>
    decreases ws.len(),
{
    if ws.len() == 0 {
        Seq::<char>::empty()
    } else {
        joined(ws.drop_last()) + seq![' '] + ws.last()
    }
}

/// The report line for query `q`, smallest distance `m` and tied words `ties`.
pub open spec fn line_of(q: Seq<char>, m: Option<int>, ties: Seq<Seq<char>>) -> Seq<char> {
    q + seq![' ', '('] + match m {
        None => no_match_marker(),
        Some(x) => decimal(x as nat),
    } + seq![')'] + joined(ties)
}

fn digit_char(n: u8) -> (c: char)
    requires
        n < 10,
    ensures
        c == digit(n as int),
{
    let table: [char; 10] = ['0', '1', '2', '3', '4', '5', '6', '7', '8', '9'];
    proof {
        assert(table@ =~= seq!['0', '1', '2', '3', '4', '5', '6', '7', '8', '9']);
    }
    table[n as usize]
}

fn append_chars(out: &mut Vec<char>, s: &Vec<char>)
    ensures
        final(out)@ == old(out)@ + s@,
{
    let ghost start = out@;
    let mut i: usize = 0;
    while i < s.len()
        invariant
            i <= s.len(),
            out@ == start + s@.subrange(0, i as int),
        decreases s.len() - i,
    {
        out.push(s[i]);
        i = i + 1;
        proof {
            assert(out@ =~= start + s@.subrange(0, i as int));
        }
    }
    proof {
        assert(s@.subrange(0, s.len() as int) =~= s@);
    }
}

fn decimal_chars(n: u8) -> (r: Vec<char>)
    ensures
        r@ == decimal(n as nat),
{
    let mut out: Vec<char> = Vec::new();
    if n >= 100 {
        out.push(digit_char(n / 100));
    }
    if n >= 10 {
        out.push(digit_char((n / 10) % 10));
    }
    out.push(digit_char(n % 10));
    proof {
        let k = n as nat;
        if k >= 100 {
            assert(decimal(k / 100) == seq![digit((k / 100) as int)]);
            assert(k / 10 / 10 == k / 100);
            assert(decimal(k / 10) == decimal(k / 100).push(digit(((k / 10) % 10) as int)));
            assert(out@ =~= decimal(k));
        } else if k >= 10 {
            assert(decimal(k / 10) == seq![digit((k / 10) as int)]);
            assert(out@ =~= decimal(k));
        } else {
            assert(out@ =~= decimal(k));
        }
    }
    out
}

impl MatchResult {
    /// The report line of this outcome, naming the tied words as they stand in
    /// `dictionary`.
    pub fn line(&self, dictionary: &Vec<SVecC>) -> (r: Vec<char>)
        requires
            forall|j: int| 0 <= j < self.ties.len() ==> #[trigger] self.ties[j] < dictionary.len(),
        ensures
            r@ == line_of(
                self.query@,
                widen(self.min_distance),
                self.ties@.map_values(|p: usize| dictionary@[p as int]@),
            ),
    {
        let mut out = self.query.chars();
        out.push(' ');
        out.push('(');
        match self.min_distance {
            None => {
                let marker: Vec<char> = vec!['<', 'n', 'o', '-', 'm', 'a', 't', 'c', 'h', '>'];
                proof {
                    assert(marker@ =~= no_match_marker());
                }
                append_chars(&mut out, &marker);
            },
            Some(x) => {
                let digits = decimal_chars(x);
                append_chars(&mut out, &digits);
            },
        }
        out.push(')');
        let ghost head = out@;
        let ghost tied = self.ties@.map_values(|p: usize| dictionary@[p as int]@);
        let mut j: usize = 0;
        while j < self.ties.len()
            invariant
                j <= self.ties.len(),
                tied == self.ties@.map_values(|p: usize| dictionary@[p as int]@),
                forall|k: int| 0 <= k < self.ties.len() ==> #[trigger] self.ties[k] < dictionary.len(),
                out@ == head + joined(tied.subrange(0, j as int)),
            decreases self.ties.len() - j,
        {
            out.push(' ');
            let w = dictionary[self.ties[j]].chars();
            append_chars(&mut out, &w);
            proof {
                let prefix = tied.subrange(0, j + 1);
                assert(prefix.drop_last() =~= tied.subrange(0, j as int));
                assert(prefix.last() == tied[j as int]);
            }
            j = j + 1;
        }
        proof {
            assert(tied.subrange(0, self.ties.len() as int) =~= tied);
        }
        out
    }
}

} // verus!
