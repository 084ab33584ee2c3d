//! A cursor over the characters of a source text, with one character of lookahead.

use vstd::prelude::*;

verus! {

/// The characters of a source text that have not been consumed yet.
#[derive(Debug)]
pub struct Scanner {
    chars: Vec<char>,
    position: usize,
}

impl Scanner {
    #[verifier::type_invariant]
    spec fn in_bounds(&self) -> bool {
        self.position <= self.chars.len()
    }

    /// The characters still to come, in order.
    pub closed spec fn remaining(&self) -> Seq<char> {
        self.chars@.skip(self.position as int)
    }

    /// A scanner positioned before the first character of `source`.
    pub fn new(source: &str) -> (scanner: Scanner)
        ensures
            scanner.remaining() == source@,
            source@.len() <= usize::MAX,
    {
        let mut chars: Vec<char> = Vec::new();
        for c in it: source.chars()
            invariant
                chars@ == it.seq().take(it.index() as int),
                it.seq() == source@,
        {
            chars.push(c);
        }
        Scanner { chars, position: 0 }
    }

    /// The next character, which stays in place; `None` at the end.
    pub fn peek(&self) -> (c: Option<char>)
        ensures
            c == (if self.remaining().len() > 0 {
                Some(self.remaining()[0])
            } else {
                None
            }),
    {
        proof {
            use_type_invariant(self);
        }
        if self.position < self.chars.len() {
            Some(self.chars[self.position])
        } else {
            None
        }
    }

    /// Consumes and returns the next character; `None` at the end, where nothing changes.
    pub fn next(&mut self) -> (c: Option<char>)
        ensures
            old(self).remaining().len() > 0 ==> c == Some(old(self).remaining()[0])
                && final(self).remaining() == old(self).remaining().drop_first(),
            old(self).remaining().len() == 0 ==> c.is_none() && final(self).remaining() == old(
                self,
            ).remaining(),
            final(self).remaining().len() < usize::MAX,
    {
        proof {
            use_type_invariant(&*self);
        }
        if self.position < self.chars.len() {
            let c = self.chars[self.position];
            self.position = self.position + 1;
            assert(self.remaining() =~= old(self).remaining().drop_first());
            Some(c)
        } else {
            None
        }
    }
}

} // verus!
