//! Bounded words: short sequences of decoded characters with a fixed capacity.
use vstd::prelude::*;

verus! {

/// Largest number of characters that a word may hold.
pub const MAX_LEN: usize = 40;

/// The word could not take one more character.
#[derive(Debug, Clone, Copy, PartialEq, Eq, Structural)]
pub struct CapacityError;

/// A word of at most `MAX_LEN` decoded characters, held in a fixed buffer.
#[derive(Clone, Copy)]
pub struct SVecC {
    inner: [char; 40],
    len: usize,
}

impl View for SVecC {
    type V = Seq<char>;

    closed spec fn view(&self) -> Seq<char> {
        self.inner@.subrange(0, self.len as int)
    }
}

impl SVecC {
    #[verifier::type_invariant]
    spec fn bounded(&self) -> bool {
        self.len <= MAX_LEN
    }

    /// The empty word.
    pub fn new() -> (r: SVecC)
        ensures
            r@ == Seq::<char>::empty(),
    {
        let r = SVecC { inner: ['\0'; 40], len: 0 };
        proof {
            assert(r@ =~= Seq::<char>::empty());
        }
        r
    }

    /// Number of characters held; never above `MAX_LEN`.
    pub fn len(&self) -> (r: usize)
        ensures
            r == self@.len(),
            r <= MAX_LEN,
    {
        proof {
            use_type_invariant(self);
        }
        self.len
    }

    /// The characters of the word, in order.
    pub fn chars(&self) -> (r: Vec<char>)
        ensures
            r@ == self@,
    {
        let n = self.len();
        let mut out: Vec<char> = Vec::with_capacity(n);
        let mut i: usize = 0;
        while i < n
            invariant
                n == self@.len(),
                i <= n,
                out@ == self@.subrange(0, i as int),
            decreases n - i,
        {
            out.push(self.index(i));
            i = i + 1;
            proof {
                assert(out@ =~= self@.subrange(0, i as int));
            }
        }
        proof {
            assert(out@ =~= self@);
        }
        out
    }

    /// Appends `c`, or fails without change when the word is full.
    pub fn push(&mut self, c: char) -> (r: Result<(), CapacityError>)
        ensures
            old(self)@.len() < MAX_LEN ==> r is Ok && final(self)@ == old(self)@.push(c),
            old(self)@.len() >= MAX_LEN ==> r is Err && final(self)@ == old(self)@,
    {
        proof {
            use_type_invariant(&*self);
        }
        let n = self.len();
        if n < MAX_LEN {
            let mut buf = self.inner;
            buf[n] = c;
            proof {
                assert(buf@ == old(self).inner@.update(n as int, c));
                assert(buf@.len() == 40);
            }
            *self = SVecC { inner: buf, len: n + 1 };
            proof {
                assert(self@ =~= old(self)@.push(c));
            }
            Ok(())
        } else {
            Err(CapacityError)
        }
    }

    /// Removes every character.
    pub fn clear(&mut self)
        ensures
            final(self)@ == Seq::<char>::empty(),
    {
        *self = SVecC::new();
    }

    /// The character at position `i`.
    pub fn index(&self, i: usize) -> (r: char)
        requires
            i < self@.len(),
        ensures
            r == self@[i as int],
    {
        proof {
            use_type_invariant(self);
        }
        self.inner[i]
    }

    /// Length of the longest common prefix of the two words.
    pub fn common_prefix(&self, other: &SVecC) -> (r: usize)
        ensures
            r <= self@.len(),
            r <= other@.len(),
            self@.subrange(0, r as int) == other@.subrange(0, r as int),
            r < self@.len() && r < other@.len() ==> self@[r as int] != other@[r as int],
    {
        let n = if self.len() < other.len() {
            self.len()
        } else {
            other.len()
        };
        let mut i: usize = 0;
        while i < n
            invariant
                i <= n,
                n <= self@.len(),
                n <= other@.len(),
                n == self@.len() || n == other@.len(),
                self@.subrange(0, i as int) == other@.subrange(0, i as int),
            decreases n - i,
        {
            if self.index(i) != other.index(i) {
                return i;
            }
            proof {
                assert(self@.subrange(0, i + 1) =~= self@.subrange(0, i as int).push(self@[i as int]));
                assert(other@.subrange(0, i + 1) =~= other@.subrange(0, i as int).push(other@[i as int]));
            }
            i = i + 1;
        }
        i
    }
}

} // verus!
