//! A peekable iterator over the characters of a string and their byte
//! indices, which can be reset to any character boundary.
use vstd::prelude::*;

use crate::lines::is_boundary;
use crate::strings::byte_offset;
use crate::strings::char_len_utf8;
use crate::strings::chars_of;
use crate::strings::lemma_byte_offset_mono;
use crate::strings::lemma_byte_offset_step;
use crate::strings::utf8_len;

verus! {

/// What was peeked: nothing yet, or the next character (`None` at the end).
#[derive(Debug, Clone, Copy)]
enum Peeked {
    NotPeeked,
    Peeked(Option<(usize, char)>),
}

/// The characters of a string with their byte indices. `peek` shows the
/// next one without consuming it, and `reset_to` moves to any boundary.
pub struct ResettablePeekableCharIndices<'a> {
    original: &'a str,
    chars: Vec<char>,
    /// The character index of the next character.
    pos: usize,
    /// The byte index of the next character.
    front_offset: usize,
    peeked: Peeked,
}

impl<'a> ResettablePeekableCharIndices<'a> {
    /// The characters of the string.
    pub closed spec fn text(&self) -> Seq<char> {
        self.chars@
    }

    /// The index of the next character.
    pub closed spec fn position(&self) -> int {
        self.pos as int
    }

    /// The byte index and character at character index `i`, or `None` past
    /// the end.
    pub open spec fn item_at(&self, i: int) -> Option<(usize, char)> {
        if 0 <= i < self.text().len() {
            Some((byte_offset(self.text(), i) as usize, self.text()[i]))
        } else {
            None
        }
    }

    /// The characters that `count` still counts: after a peek of a
    /// character, that character is no longer among them.
    pub closed spec fn uncounted(&self) -> int {
        match self.peeked {
            Peeked::Peeked(Some(_)) => 1,
            _ => 0,
        }
    }

    pub closed spec fn wf(&self) -> bool {
        &&& self.chars@ == self.original@
        &&& utf8_len(self.chars@) <= usize::MAX
        &&& self.pos <= self.chars.len()
        &&& self.front_offset == byte_offset(self.chars@, self.pos as int)
        &&& match self.peeked {
            Peeked::NotPeeked => true,
            Peeked::Peeked(p) => p == self.item_at(self.pos as int),
        }
    }

    /// An iterator at the start of `s`.
    pub fn new(s: &'a str) -> (r: Self)
        requires
            utf8_len(s@) <= usize::MAX,
        ensures
            r.wf(),
            r.text() == s@,
            r.position() == 0,
            r.uncounted() == 0,
    {
        let chars = chars_of(s);
        assert(chars@.take(0) =~= Seq::<char>::empty());
        ResettablePeekableCharIndices { original: s, chars, pos: 0, front_offset: 0, peeked: Peeked::NotPeeked }
    }

    /// The next character with its byte index, consumed; `None` at the end.
    pub fn next(&mut self) -> (r: Option<(usize, char)>)
        requires
            old(self).wf(),
        ensures
            final(self).wf(),
            final(self).text() == old(self).text(),
            r == old(self).item_at(old(self).position()),
            final(self).position() == if r is Some {
                old(self).position() + 1
            } else {
                old(self).position()
            },
            final(self).uncounted() == 0,
    {
        proof {
            if self.pos < self.chars.len() {
                lemma_byte_offset_step(self.chars@, self.pos as int);
                lemma_byte_offset_mono(self.chars@, self.pos + 1, self.chars.len() as int);
                crate::strings::lemma_byte_offset_end(self.chars@);
            }
        }
        self.peeked = Peeked::NotPeeked;
        if self.pos < self.chars.len() {
            let c = self.chars[self.pos];
            let index = self.front_offset;
            self.front_offset = self.front_offset + char_len_utf8(c) as usize;
            self.pos = self.pos + 1;
            Some((index, c))
        } else {
            None
        }
    }

    /// The next character with its byte index, not consumed; `None` at the
    /// end.
    pub fn peek(&mut self) -> (r: Option<(usize, char)>)
        requires
            old(self).wf(),
        ensures
            final(self).wf(),
            final(self).text() == old(self).text(),
            final(self).position() == old(self).position(),
            r == old(self).item_at(old(self).position()),
            final(self).uncounted() == if r is Some {
                1int
            } else {
                0
            },
    {
        let p = if self.pos < self.chars.len() {
            Some((self.front_offset, self.chars[self.pos]))
        } else {
            None
        };
        self.peeked = Peeked::Peeked(p);
        p
    }

    /// Resets the iterator to the byte index `index`, which must be a
    /// character boundary.
    pub fn reset_to(&mut self, index: usize)
        requires
            old(self).wf(),
            is_boundary(old(self).text(), index as int),
        ensures
            final(self).wf(),
            final(self).text() == old(self).text(),
            byte_offset(final(self).text(), final(self).position()) == index,
            final(self).uncounted() == 0,
    {
        let ghost s = self.chars@;
        let mut i: usize = 0;
        let mut offset: usize = 0;
        assert(s.take(0) =~= Seq::<char>::empty());
        while offset < index && i < self.chars.len()
            invariant
                s == self.chars@,
                utf8_len(s) <= usize::MAX,
                is_boundary(s, index as int),
                i <= s.len(),
                offset == byte_offset(s, i as int),
                offset <= index,
            decreases s.len() - i,
        {
            proof {
                lemma_byte_offset_step(s, i as int);
                let k = choose|k: int| 0 <= k <= s.len() && #[trigger] byte_offset(s, k) == index;
                if k <= i {
                    lemma_byte_offset_mono(s, k, i as int);
                } else {
                    lemma_byte_offset_mono(s, i + 1, k);
                }
            }
            offset = offset + char_len_utf8(self.chars[i]) as usize;
            i = i + 1;
        }
        proof {
            let k = choose|k: int| 0 <= k <= s.len() && #[trigger] byte_offset(s, k) == index;
            if offset < index {
                lemma_byte_offset_mono(s, k, s.len() as int);
            }
        }
        self.pos = i;
        self.front_offset = offset;
        self.peeked = Peeked::NotPeeked;
    }

    /// The byte index of the next character.
    pub fn current_byte_index(&self) -> (r: usize)
        requires
            self.wf(),
        ensures
            r == byte_offset(self.text(), self.position()),
    {
        self.front_offset
    }

    /// The number of characters left, but for one that was peeked.
    pub fn count(self) -> (r: usize)
        requires
            self.wf(),
        ensures
            r == self.text().len() - self.position() - self.uncounted(),
    {
        let left = self.chars.len() - self.pos;
        match self.peeked {
            Peeked::Peeked(Some(_)) => left - 1,
            _ => left,
        }
    }
}

} // verus!
