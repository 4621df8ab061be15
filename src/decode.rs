//! Decoding of one record's bytes into a word.
//!
//! The lead byte `0xC3` and the byte after it stand for one of three accented
//! letters; a carriage return is dropped; any other byte stands for the
//! character with that code.
use vstd::prelude::*;
use crate::word::{SVecC, MAX_LEN};

verus! {

/// Lead byte of a two-byte accented letter.
pub const ACCENT_LEAD: u8 = 0xc3;

/// Carriage return, dropped from records.
pub const CARRIAGE_RETURN: u8 = 0x0d;

/// Why the bytes of a record do not make a word.
#[derive(Debug, Clone, Copy, PartialEq, Eq, Structural)]
pub enum WordFault {
    /// The record ends right after a lead byte.
    TruncatedSequence,
    /// A lead byte is followed by a byte that names no known letter.
    UnknownSequence(u8),
    /// The record decodes to more than `MAX_LEN` characters.
    TooLong,
}

/// The letter that the byte after a lead byte stands for.
pub open spec fn accent_of(b: u8) -> Option<char> {
    if b == 0xa5 {
        Some('å')
    } else if b == 0xa4 {
        Some('ä')
    } else if b == 0xb6 {
        Some('ö')
    } else {
        None
    }
}

/// `s` followed by what `rest` decodes to, or the fault of `rest`.
pub open spec fn prefixed(s: Seq<char>, rest: Result<Seq<char>, WordFault>) -> Result<
    Seq<char>,
    WordFault,
> {
    match rest {
        Ok(t) => Ok(s + t),
        Err(f) => Err(f),
    }
}

/// What the bytes of `r` from position `i` on decode to, before any bound
/// on the length.
pub open spec fn decode_from(r: Seq<u8>, i: int) -> Result<Seq<char>, WordFault>
    decreases r.len() - i,
{
    if i < 0 || i >= r.len() {
        Ok(Seq::<char>::empty())
    } else if r[i] == CARRIAGE_RETURN {
        decode_from(r, i + 1)
    } else if r[i] == ACCENT_LEAD {
        if i + 1 >= r.len() {
            Err(WordFault::TruncatedSequence)
        } else {
            match accent_of(r[i + 1]) {
                None => Err(WordFault::UnknownSequence(r[i + 1])),
                Some(c) => prefixed(seq![c], decode_from(r, i + 2)),
            }
        }
    } else {
        prefixed(seq![r[i] as char], decode_from(r, i + 1))
    }
}

/// The word that the bytes of a record make, or why they make none.
pub open spec fn decode_word(r: Seq<u8>) -> Result<Seq<char>, WordFault> {
    match decode_from(r, 0) {
        Ok(s) => if s.len() > MAX_LEN {
            Err(WordFault::TooLong)
        } else {
            Ok(s)
        },
        Err(f) => Err(f),
    }
}

fn accent(b: u8) -> (r: Option<char>)
    ensures
        r == accent_of(b),
{
    if b == 0xa5 {
        Some('å')
    } else if b == 0xa4 {
        Some('ä')
    } else if b == 0xb6 {
        Some('ö')
    } else {
        None
    }
}

proof fn lemma_prefixed_assoc(s: Seq<char>, c: char, rest: Result<Seq<char>, WordFault>)
    ensures
        prefixed(s, prefixed(seq![c], rest)) == prefixed(s.push(c), rest),
{
    if let Ok(t) = rest {
        assert(s + (seq![c] + t) =~= s.push(c) + t);
    }
}

/// Decodes the bytes of one record into a word.
pub fn decode_record(record: &Vec<u8>) -> (r: Result<SVecC, WordFault>)
    ensures
        match decode_word(record@) {
            Ok(w) => r matches Ok(x) && x@ == w,
            Err(f) => r == Err::<SVecC, WordFault>(f),
        },
{
    let ghost b = record@;
    let n = record.len();
    let mut out: Vec<char> = Vec::new();
    let mut i: usize = 0;
    while i < n
        invariant
            n == b.len(),
            b == record@,
            i <= n,
            decode_from(b, 0) == prefixed(out@, decode_from(b, i as int)),
        decreases n - i,
    {
        let byte = record[i];
        if byte == CARRIAGE_RETURN {
            i = i + 1;
        } else if byte == ACCENT_LEAD {
            if i + 1 >= n {
                return Err(WordFault::TruncatedSequence);
            }
            match accent(record[i + 1]) {
                None => {
                    return Err(WordFault::UnknownSequence(record[i + 1]));
                },
                Some(c) => {
                    proof {
                        lemma_prefixed_assoc(out@, c, decode_from(b, i + 2));
                    }
                    out.push(c);
                    i = i + 2;
                },
            }
        } else {
            proof {
                lemma_prefixed_assoc(out@, byte as char, decode_from(b, i + 1));
            }
            out.push(byte as char);
            i = i + 1;
        }
    }
    proof {
        assert(out@ + Seq::<char>::empty() =~= out@);
    }
    if out.len() > MAX_LEN {
        return Err(WordFault::TooLong);
    }
    let mut word = SVecC::new();
    let mut j: usize = 0;
    while j < out.len()
        invariant
            j <= out.len(),
            out.len() <= MAX_LEN,
            word@ == out@.subrange(0, j as int),
        decreases out.len() - j,
    {
        let pushed = word.push(out[j]);
        proof {
            assert(pushed is Ok);
            assert(out@.subrange(0, j + 1) =~= out@.subrange(0, j as int).push(out@[j as int]));
        }
        j = j + 1;
    }
    proof {
        assert(out@.subrange(0, out.len() as int) =~= out@);
    }
    Ok(word)
}

} // verus!
