use std::ops::Range;

use vstd::prelude::*;

use crate::lines::final_line_starts;
use crate::lines::is_boundary;
use crate::lines::lemma_final_line_starts;
use crate::lines::lemma_scanned_line_starts;
use crate::lines::scanned_line_starts;
use crate::lines::valid_line_starts;
use crate::strings::byte_offset;
use crate::strings::char_len_utf16;
use crate::strings::char_len_utf8;
use crate::strings::chars_of;
use crate::strings::lemma_byte_offset_end;
use crate::strings::lemma_byte_offset_mono;
use crate::strings::lemma_byte_offset_step;
use crate::strings::lemma_str_len;
use crate::strings::lemma_subrange_len;
use crate::strings::lemma_subrange_step;
use crate::strings::lemma_utf16_le_utf8;
use crate::strings::lemma_utf16_mono;
use crate::strings::lemma_utf8_len_concat;
use crate::strings::slice_chars;
use crate::strings::utf16_len;
use crate::strings::utf16_width;
use crate::strings::utf8_len;
use crate::strings::utf8_width;

verus! {

/// A location is an opaque value that is used to represent a position in the
/// source text: the byte index of that position in the UTF-8 encoding of the
/// text. It can be mapped to UTF-8 or UTF-16 line and column indices using
/// [SourceTextInfo].
#[derive(Clone, Copy, PartialEq, Eq, Structural, Debug)]
pub struct Location(pub u32);

impl Location {
    /// The byte index that the location stands for.
    pub open spec fn byte(self) -> int {
        self.0 as int
    }

    pub fn new_for_test(byte: u32) -> (r: Location)
        ensures
            r.byte() == byte,
    {
        Location(byte)
    }

    pub fn inner_byte_index_for_test(&self) -> (r: u32)
        ensures
            r == self.byte(),
    {
        self.0
    }

    pub(crate) fn inner(&self) -> (r: u32)
        ensures
            r == self.byte(),
    {
        self.0
    }

    pub(crate) fn dummy() -> (r: Location)
        ensures
            r.byte() == 0,
    {
        Location(0)
    }

    /// The location after the UTF-8 encoding of `s` placed at this location.
    pub fn add_str(self, s: &str) -> (r: Location)
        requires
            self.byte() + utf8_len(s@) <= u32::MAX,
        ensures
            r.byte() == self.byte() + utf8_len(s@),
    {
        proof {
            lemma_str_len(s);
        }
        Location(self.0 + s.len() as u32)
    }

    /// The location after the UTF-8 encoding of `c` placed at this location.
    pub fn add_char(self, c: char) -> (r: Location)
        requires
            self.byte() + utf8_width(c) <= u32::MAX,
        ensures
            r.byte() == self.byte() + utf8_width(c),
    {
        Location(self.0 + char_len_utf8(c))
    }

    /// The location `len` bytes after this location.
    pub fn add_len(self, len: LengthShort) -> (r: Location)
        requires
            self.byte() + len.0 <= u32::MAX,
        ensures
            r.byte() == self.byte() + len.0,
    {
        Location(self.0 + len.0 as u32)
    }
}

/// A span is a pair of [Location]s that represent a range in the source text.
///
/// The start location is inclusive, and the end location is exclusive. A span
/// with the same start and end location is considered empty.
#[derive(Clone, Copy, PartialEq, Eq, Structural, Debug)]
pub struct Span {
    pub start: Location,
    pub end: Location,
}

impl Span {
    /// Whether the start of the span is not after its end.
    pub open spec fn valid(self) -> bool {
        self.start.byte() <= self.end.byte()
    }

    /// Creates a new span from a range of [Location]s. The range must be
    /// valid: the start location must not be after the end location.
    pub fn new(range: Range<Location>) -> (r: Span)
        requires
            range.start.byte() <= range.end.byte(),
        ensures
            r.start == range.start,
            r.end == range.end,
    {
        Span { start: range.start, end: range.end }
    }

    /// Whether the span contains the given [Location].
    pub fn contains_loc(&self, loc: Location) -> (r: bool)
        ensures
            r == (self.start.byte() <= loc.byte() && loc.byte() < self.end.byte()),
    {
        self.start.0 <= loc.0 && self.end.0 > loc.0
    }

    /// Whether the span fully contains the given span. This includes the case
    /// where the spans are equal.
    pub fn contains(&self, other: &Span) -> (r: bool)
        ensures
            r == (self.start.byte() <= other.start.byte() && other.end.byte()
                <= self.end.byte()),
    {
        self.start.0 <= other.start.0 && self.end.0 >= other.end.0
    }

    /// Whether the span is empty.
    pub fn is_empty(&self) -> (r: bool)
        ensures
            r == (self.start == self.end),
    {
        self.start.0 == self.end.0
    }
}

/// Something that covers a [Span] of the source text.
pub trait Spanned {
    /// The locations that `span` computes fit in a [Location].
    spec fn fits(&self) -> bool;

    /// The span that `span` returns.
    spec fn spec_span(&self) -> Span;

    fn span(&self) -> (r: Span)
        requires
            self.fits(),
        ensures
            r == self.spec_span(),
    ;
}

/// A short length (maximum u16).
#[derive(Clone, Copy, Debug)]
pub struct LengthShort(pub u16);

impl LengthShort {
    /// The length of the range, truncated to 16 bits.
    pub fn new(range: Range<Location>) -> (r: LengthShort)
        requires
            range.start.byte() <= range.end.byte(),
        ensures
            r.0 == (range.end.byte() - range.start.byte()) as u16,
    {
        LengthShort((range.end.0 - range.start.0) as u16)
    }

    /// The byte length of `s`, truncated to 16 bits.
    pub fn new_from_str(s: &str) -> (r: LengthShort)
        requires
            utf8_len(s@) <= usize::MAX,
        ensures
            r.0 == utf8_len(s@) as u16,
            r.0 <= utf8_len(s@),
            utf8_len(s@) <= 0xFFFF ==> r.0 == utf8_len(s@),
    {
        proof {
            lemma_str_len(s);
        }
        let n = s.len();
        let r = n as u16;
        assert(r <= n) by (bit_vector)
            requires
                r == n as u16,
        ;
        assert(n <= 0xFFFF ==> r == n) by (bit_vector)
            requires
                r == n as u16,
        ;
        LengthShort(r)
    }

    pub fn inner(&self) -> (r: u16)
        ensures
            r == self.0,
    {
        self.0
    }
}

/// A line and column index pair, both 0-based, for the UTF-8 encoding of the
/// source text.
#[derive(Clone, Copy, PartialEq, Eq, Structural, Debug)]
pub struct LineColUtf8 {
    pub line: u32,
    pub col: u32,
}

/// A line and column index pair, both 0-based, for the UTF-16 encoding of the
/// source text.
#[derive(Clone, Copy, PartialEq, Eq, Structural, Debug)]
pub struct LineColUtf16 {
    pub line: u32,
    pub col: u32,
}

/// Largest index `a` with `v[a] <= x`, for a strictly increasing `v` whose
/// first element is at most `x`.
fn last_at_most(v: &Vec<u32>, x: u32) -> (a: usize)
    requires
        v.len() >= 1,
        v[0] <= x,
        forall|i: int, j: int| 0 <= i < j < v.len() ==> v[i] < v[j],
    ensures
        a < v.len(),
        v[a as int] <= x,
        a + 1 < v.len() ==> x < v[a + 1],
{
    let mut lo: usize = 0;
    let mut hi: usize = v.len();
    while hi - lo > 1
        invariant
            0 <= lo < hi <= v.len(),
            v[lo as int] <= x,
            hi < v.len() ==> x < v[hi as int],
            forall|i: int, j: int| 0 <= i < j < v.len() ==> v[i] < v[j],
        decreases hi - lo,
    {
        let mid = lo + (hi - lo) / 2;
        if v[mid] <= x {
            lo = mid;
        } else {
            hi = mid;
        }
    }
    lo
}

proof fn lemma_increasing_ge_index(v: Seq<u32>, i: int)
    requires
        0 <= i < v.len(),
        forall|a: int, b: int| 0 <= a < b < v.len() ==> v[a] < v[b],
    ensures
        i <= v[i],
    decreases i,
{
    if i > 0 {
        lemma_increasing_ge_index(v, i - 1);
    }
}

/// `offsets` holds the byte offset of every character boundary of `s`.
pub open spec fn offsets_of(s: Seq<char>, offsets: Seq<u32>) -> bool {
    &&& offsets.len() == s.len() + 1
    &&& forall|i: int| 0 <= i <= s.len() ==> #[trigger] offsets[i] == byte_offset(s, i)
}

pub proof fn lemma_offsets_increasing(s: Seq<char>, offsets: Seq<u32>)
    requires
        offsets_of(s, offsets),
    ensures
        forall|i: int, j: int| 0 <= i < j < offsets.len() ==> offsets[i] < offsets[j],
{
    assert forall|i: int, j: int| 0 <= i < j < offsets.len() implies offsets[i] < offsets[j] by {
        lemma_byte_offset_mono(s, i, j);
    }
}

/// The byte offsets of all character boundaries of `chars`.
pub fn compute_offsets(chars: &Vec<char>) -> (r: Vec<u32>)
    requires
        utf8_len(chars@) <= u32::MAX,
    ensures
        offsets_of(chars@, r@),
{
    let n = chars.len();
    let mut offsets: Vec<u32> = Vec::new();
    let mut off: u32 = 0;
    offsets.push(0);
    proof {
        assert(chars@.take(0) =~= Seq::<char>::empty());
        lemma_byte_offset_end(chars@);
    }
    for i in 0..n
        invariant
            n == chars.len(),
            offsets.len() == i + 1,
            forall|j: int| 0 <= j <= i ==> #[trigger] offsets[j] == byte_offset(chars@, j),
            off == byte_offset(chars@, i as int),
            byte_offset(chars@, n as int) <= u32::MAX,
    {
        proof {
            lemma_byte_offset_step(chars@, i as int);
            lemma_byte_offset_mono(chars@, i + 1, n as int);
        }
        off = off + char_len_utf8(chars[i]);
        offsets.push(off);
    }
    offsets
}

/// Index `i` with `offsets[i] == b`, for a boundary `b`.
fn char_index_of(offsets: &Vec<u32>, b: u32, Ghost(s): Ghost<Seq<char>>) -> (i: usize)
    requires
        offsets_of(s, offsets@),
        is_boundary(s, b as int),
    ensures
        i <= s.len(),
        offsets[i as int] == b,
        byte_offset(s, i as int) == b,
{
    proof {
        lemma_offsets_increasing(s, offsets@);
        assert(offsets[0] == byte_offset(s, 0));
        assert(s.take(0) =~= Seq::<char>::empty());
    }
    let i = last_at_most(offsets, b);
    proof {
        let k = choose|k: int| 0 <= k <= s.len() && #[trigger] byte_offset(s, k) == b;
        assert(offsets[k] == b);
        if k > i {
            assert(offsets[i + 1] <= offsets[k]);
        } else if k < i {
            assert(offsets[k] < offsets[i as int]);
        }
    }
    i
}

type Peek = Option<(Location, char)>;

enum Peeked {
    Empty,
    Single(Peek),
    Double((Location, char), Peek),
}

/// The source text, represented as a series of `char`s.
///
/// The source text maintains the offset of characters in the original string
/// and provides methods to iterate over the characters. It provides a method
/// to advance the iterator, and a method to peek the next character.
pub struct SourceTextIterator<'text> {
    original: &'text str,
    chars: Vec<char>,
    offsets: Vec<u32>,
    front_loc: Location,
    str_index: u32,
    iter_idx: usize,
    peeked: Peeked,
    utf8_line_starts: Vec<u32>,
    prev_char_was_cr: bool,
    high: Ghost<int>,
}

impl<'text> SourceTextIterator<'text> {
    /// The characters of the source text.
    pub closed spec fn text(&self) -> Seq<char> {
        self.chars@
    }

    /// Index of the character that `next` returns.
    pub closed spec fn pos(&self) -> int {
        match self.peeked {
            Peeked::Empty => self.iter_idx as int,
            Peeked::Single(Some(_)) => self.iter_idx - 1,
            Peeked::Single(None) => self.iter_idx as int,
            Peeked::Double(_, Some(_)) => self.iter_idx - 2,
            Peeked::Double(_, None) => self.iter_idx - 1,
        }
    }

    /// Number of characters read ahead from the text so far.
    pub closed spec fn scanned(&self) -> int {
        self.iter_idx as int
    }

    closed spec fn core_wf(&self) -> bool {
        let n = self.chars.len() as int;
        let hi = self.high@;
        let sc = scanned_line_starts(self.chars@, hi);
        &&& self.chars@ == self.original@
        &&& utf8_len(self.chars@) <= u32::MAX
        &&& offsets_of(self.chars@, self.offsets@)
        &&& self.iter_idx <= hi <= n
        &&& self.str_index == self.offsets[self.iter_idx as int]
        &&& self.prev_char_was_cr == (self.iter_idx > 0 && self.chars[self.iter_idx - 1]
            == '\r')
        &&& self.utf8_line_starts.len() == sc.len()
        &&& forall|m: int|
            0 <= m < sc.len() ==> #[trigger] self.utf8_line_starts[m] == self.offsets[sc[m]]
    }

    closed spec fn peek_wf(&self) -> bool {
        let n = self.chars.len() as int;
        let k = self.iter_idx as int;
        let f = self.pos();
        &&& 0 <= f <= n
        &&& self.front_loc.byte() == self.offsets[f]
        &&& match self.peeked {
            Peeked::Empty => true,
            Peeked::Single(Some((l, c))) => f < n && l.byte() == self.offsets[f] && c
                == self.chars[f],
            Peeked::Single(None) => k == n,
            Peeked::Double((l1, c1), Some((l2, c2))) => f + 1 < n && l1.byte()
                == self.offsets[f] && c1 == self.chars[f] && l2.byte() == self.offsets[f + 1]
                && c2 == self.chars[f + 1],
            Peeked::Double((l1, c1), None) => f < n && k == n && l1.byte() == self.offsets[f]
                && c1 == self.chars[f],
        }
    }

    /// The iterator's internal state is consistent.
    pub closed spec fn wf(&self) -> bool {
        self.core_wf() && self.peek_wf()
    }

    /// Whether `loc` falls on a character boundary of the text.
    pub open spec fn is_boundary(&self, b: int) -> bool {
        is_boundary(self.text(), b)
    }

    /// The character at index `i` with its location, or `None` past the end.
    pub open spec fn char_at(&self, i: int) -> Peek {
        if 0 <= i < self.text().len() {
            Some((Location(byte_offset(self.text(), i) as u32), self.text()[i]))
        } else {
            None
        }
    }

    pub proof fn lemma_wf(&self)
        requires
            self.wf(),
        ensures
            0 <= self.pos() <= self.scanned() <= self.text().len(),
            utf8_len(self.text()) <= u32::MAX,
    {
    }

    pub fn new(s: &'text str) -> (r: Self)
        requires
            utf8_len(s@) <= u32::MAX,
        ensures
            r.wf(),
            r.text() == s@,
            r.pos() == 0,
            r.scanned() == 0,
    {
        let chars = chars_of(s);
        let offsets = compute_offsets(&chars);
        let mut starts: Vec<u32> = Vec::new();
        starts.push(0);
        proof {
            assert(offsets[0] == byte_offset(chars@, 0));
            assert(chars@.take(0) =~= Seq::<char>::empty());
        }
        SourceTextIterator {
            original: s,
            chars,
            offsets,
            front_loc: Location(0),
            str_index: 0,
            iter_idx: 0,
            peeked: Peeked::Empty,
            utf8_line_starts: starts,
            prev_char_was_cr: false,
            high: Ghost(0),
        }
    }

    /// Resets the iterator to the given location.
    ///
    /// The location reset to must not be after the current location, so that
    /// line start tracking stays correct, and must fall on a character
    /// boundary.
    pub fn reset_to(&mut self, loc: Location)
        requires
            old(self).wf(),
            loc.byte() <= byte_offset(old(self).text(), old(self).pos()),
            old(self).is_boundary(loc.byte()),
        ensures
            final(self).wf(),
            final(self).text() == old(self).text(),
            byte_offset(final(self).text(), final(self).pos()) == loc.byte(),
            final(self).pos() <= old(self).pos(),
            final(self).scanned() == final(self).pos(),
    {
        let i = char_index_of(&self.offsets, loc.0, Ghost(self.chars@));
        proof {
            lemma_offsets_increasing(self.chars@, self.offsets@);
            if i > self.pos() {
                assert(self.offsets[self.pos()] < self.offsets[i as int]);
            }
        }
        self.front_loc = loc;
        self.str_index = loc.0;
        self.iter_idx = i;
        self.peeked = Peeked::Empty;
        self.prev_char_was_cr = i > 0 && self.chars[i - 1] == '\r';
    }

    fn iter_next(&mut self) -> (r: Option<char>)
        requires
            old(self).core_wf(),
        ensures
            final(self).core_wf(),
            final(self).chars == old(self).chars,
            final(self).offsets == old(self).offsets,
            final(self).original == old(self).original,
            final(self).front_loc == old(self).front_loc,
            final(self).peeked == old(self).peeked,
            old(self).iter_idx < old(self).chars.len() ==> r == Some(
                old(self).chars[old(self).iter_idx as int],
            ) && final(self).iter_idx == old(self).iter_idx + 1,
            old(self).iter_idx == old(self).chars.len() ==> r.is_none() && final(self).iter_idx
                == old(self).iter_idx,
    {
        let n = self.chars.len();
        if self.iter_idx >= n {
            return None;
        }
        let k = self.iter_idx;
        let ch = self.chars[k];
        let ghost s = self.chars@;
        let ghost hi = self.high@;
        proof {
            lemma_offsets_increasing(s, self.offsets@);
            lemma_scanned_line_starts(s, hi);
            lemma_scanned_line_starts(s, k as int);
            lemma_byte_offset_step(s, k as int);
            lemma_byte_offset_mono(s, k + 1, n as int);
            lemma_byte_offset_end(s);
        }
        let ghost sc = scanned_line_starts(s, hi);
        let last_idx = self.utf8_line_starts.len() - 1;
        let last = self.utf8_line_starts[last_idx];
        proof {
            assert(last == self.offsets[sc.last()]);
        }
        if ch == '\n' {
            if last < self.str_index + 1 {
                proof {
                    if k < hi {
                        if k + 1 < hi {
                            assert(crate::lines::is_line_start(s, k + 1));
                            let a = choose|a: int| 0 <= a < sc.len() && sc[a] == k + 1;
                            assert(sc[a] <= sc.last());
                            assert(self.offsets[k + 1] <= self.offsets[sc.last()]);
                        } else {
                            assert(sc.last() == hi);
                        }
                    }
                    assert(k == hi);
                }
                self.utf8_line_starts.push(self.str_index + 1);
            } else {
                proof {
                    if k == hi {
                        assert(sc.last() <= k);
                        assert(self.offsets[sc.last()] <= self.offsets[k as int]);
                    }
                }
            }
            self.prev_char_was_cr = false;
        } else {
            if self.prev_char_was_cr && last < self.str_index {
                proof {
                    if k < hi {
                        assert(crate::lines::is_line_start(s, k as int));
                        let a = choose|a: int| 0 <= a < sc.len() && sc[a] == k;
                        assert(sc[a] <= sc.last());
                        assert(self.offsets[k as int] <= self.offsets[sc.last()]);
                    }
                    assert(k == hi);
                }
                self.utf8_line_starts.push(self.str_index);
            } else {
                proof {
                    if k == hi && self.prev_char_was_cr {
                        assert(sc.last() < k);
                        assert(self.offsets[sc.last()] < self.offsets[k as int]);
                    }
                }
            }
            self.prev_char_was_cr = ch == '\r';
        }
        self.str_index = self.str_index + char_len_utf8(ch);
        self.iter_idx = k + 1;
        proof {
            if k == hi {
                self.high = Ghost(hi + 1);
            }
            let sc2 = scanned_line_starts(s, self.high@);
            assert forall|m: int| 0 <= m < sc2.len() implies #[trigger] self.utf8_line_starts[m]
                == self.offsets[sc2[m]] by {
                if m < sc.len() {
                    assert(sc2[m] == sc[m]);
                }
            }
        }
        Some(ch)
    }

    pub fn next(&mut self) -> (r: Peek)
        requires
            old(self).wf(),
        ensures
            final(self).wf(),
            final(self).text() == old(self).text(),
            r == old(self).char_at(old(self).pos()),
            final(self).pos() == if old(self).pos() < old(self).text().len() {
                old(self).pos() + 1
            } else {
                old(self).pos()
            },
            final(self).scanned() == vstd::math::max(old(self).scanned(), final(self).pos()),
    {
        proof {
            lemma_byte_offset_end(self.chars@);
        }
        match self.peeked {
            Peeked::Empty => {
                let r = self.iter_next();
                match r {
                    Some(ch) => {
                        let loc = self.front_loc;
                        self.front_loc = Location(self.str_index);
                        Some((loc, ch))
                    },
                    None => None,
                }
            },
            Peeked::Single(None) => None,
            Peeked::Single(Some(peek)) => {
                self.front_loc = Location(self.str_index);
                self.peeked = Peeked::Empty;
                Some(peek)
            },
            Peeked::Double(peek, None) => {
                self.front_loc = Location(self.str_index);
                self.peeked = Peeked::Empty;
                Some(peek)
            },
            Peeked::Double(peek1, Some(peek2)) => {
                self.front_loc = peek2.0;
                self.peeked = Peeked::Single(Some(peek2));
                Some(peek1)
            },
        }
    }

    pub fn peek(&mut self) -> (r: Peek)
        requires
            old(self).wf(),
        ensures
            final(self).wf(),
            final(self).text() == old(self).text(),
            final(self).pos() == old(self).pos(),
            r == old(self).char_at(old(self).pos()),
            final(self).scanned() == vstd::math::max(
                old(self).scanned(),
                vstd::math::min(old(self).pos() + 1, old(self).text().len() as int),
            ),
    {
        match self.peeked {
            Peeked::Single(peek) => peek,
            Peeked::Double(peek, _) => Some(peek),
            Peeked::Empty => {
                let loc = self.front_loc;
                let r = self.iter_next();
                let peeked = match r {
                    Some(ch) => Some((loc, ch)),
                    None => None,
                };
                self.peeked = Peeked::Single(peeked);
                peeked
            },
        }
    }

    pub fn peek2(&mut self) -> (r: Peek)
        requires
            old(self).wf(),
        ensures
            final(self).wf(),
            final(self).text() == old(self).text(),
            final(self).pos() == old(self).pos(),
            r == (if old(self).pos() < old(self).text().len() {
                old(self).char_at(old(self).pos() + 1)
            } else {
                None
            }),
            final(self).scanned() == vstd::math::max(
                old(self).scanned(),
                vstd::math::min(old(self).pos() + 2, old(self).text().len() as int),
            ),
    {
        if let Peeked::Double(_, peek) = self.peeked {
            return peek;
        }
        match self.peek() {
            None => None,
            Some(peek1) => {
                let loc = Location(self.str_index);
                let r = self.iter_next();
                let peek2 = match r {
                    Some(ch2) => Some((loc, ch2)),
                    None => None,
                };
                self.peeked = Peeked::Double(peek1, peek2);
                peek2
            },
        }
    }

    pub fn current_location(&self) -> (r: Location)
        requires
            self.wf(),
        ensures
            r.byte() == byte_offset(self.text(), self.pos()),
    {
        self.front_loc
    }

    pub fn start_location(&self) -> (r: Location)
        ensures
            r.byte() == 0,
    {
        Location(0)
    }

    pub fn end_location(&self) -> (r: Location)
        requires
            self.wf(),
        ensures
            r.byte() == utf8_len(self.text()),
            r.byte() == byte_offset(self.text(), self.text().len() as int),
    {
        proof {
            lemma_str_len(self.original);
            lemma_byte_offset_end(self.chars@);
        }
        Location(self.original.len() as u32)
    }

    /// The text between two character boundaries.
    pub fn slice(&self, range: Range<Location>) -> (r: &'text str)
        requires
            self.wf(),
            self.is_boundary(range.start.byte()),
            self.is_boundary(range.end.byte()),
            range.start.byte() <= range.end.byte(),
        ensures
            exists|i: int, j: int|
                0 <= i <= j <= self.text().len() && byte_offset(self.text(), i)
                    == range.start.byte() && byte_offset(self.text(), j) == range.end.byte()
                    && r@ == self.text().subrange(i, j),
    {
        let i = char_index_of(&self.offsets, range.start.0, Ghost(self.chars@));
        let j = char_index_of(&self.offsets, range.end.0, Ghost(self.chars@));
        proof {
            if j < i {
                lemma_byte_offset_mono(self.chars@, j as int, i as int);
            }
        }
        slice_chars(
            self.original,
            range.start.0 as usize,
            range.end.0 as usize,
            Ghost(i as int),
            Ghost(j as int),
        )
    }

    /// Finishes reading and gives the information gathered about the text.
    pub fn into_info(self) -> (r: SourceTextInfo<'text>)
        requires
            self.wf(),
            self.scanned() == self.text().len(),
        ensures
            r.wf(),
            r.chars() == self.text(),
    {
        let mut starts = self.utf8_line_starts;
        let ghost s = self.chars@;
        let ghost n = s.len() as int;
        proof {
            lemma_scanned_line_starts(s, n);
            lemma_final_line_starts(s);
            lemma_offsets_increasing(s, self.offsets@);
        }
        let ghost sc = scanned_line_starts(s, n);
        let last = starts[starts.len() - 1];
        if self.prev_char_was_cr && last < self.str_index {
            starts.push(self.str_index);
        } else {
            proof {
                if self.prev_char_was_cr {
                    assert(sc.last() < n);
                    assert(self.offsets[sc.last()] < self.offsets[n]);
                }
            }
        }
        let ghost idx = final_line_starts(s);
        proof {
            assert forall|m: int| 0 <= m < idx.len() implies #[trigger] starts[m]
                == self.offsets[idx[m]] by {
                if m < sc.len() {
                    assert(idx[m] == sc[m]);
                }
            }
        }
        SourceTextInfo {
            text: self.original,
            chars: self.chars,
            offsets: self.offsets,
            utf8_line_starts: starts,
            line_start_idx: Ghost(idx),
        }
    }
}

/// A view onto the source text, with additional information about the source
/// text that was derived during parsing.
///
/// This struct provides methods to convert between opaque [Location] values,
/// UTF-8 line and column indices, and UTF-16 line and column indices. It also
/// provides methods to calculate the length of a span in UTF-8 bytes or UTF-16
/// code units.
pub struct SourceTextInfo<'text> {
    text: &'text str,
    chars: Vec<char>,
    offsets: Vec<u32>,
    utf8_line_starts: Vec<u32>,
    line_start_idx: Ghost<Seq<int>>,
}

impl<'text> SourceTextInfo<'text> {
    /// The characters of the source text.
    pub closed spec fn chars(&self) -> Seq<char> {
        self.chars@
    }

    /// The character indices at which the lines of the text start.
    pub closed spec fn line_starts(&self) -> Seq<int> {
        self.line_start_idx@
    }

    pub closed spec fn inv(&self) -> bool {
        let idx = self.line_start_idx@;
        &&& self.chars@ == self.text@
        &&& utf8_len(self.chars@) <= u32::MAX
        &&& offsets_of(self.chars@, self.offsets@)
        &&& self.utf8_line_starts.len() == idx.len()
        &&& forall|m: int|
            0 <= m < idx.len() ==> #[trigger] self.utf8_line_starts[m] == self.offsets[idx[m]]
        &&& valid_line_starts(self.chars@, idx)
    }

    /// The information is consistent with its text: in particular, the line
    /// starts are exactly the starts of the lines of the text.
    pub open spec fn wf(&self) -> bool {
        &&& self.inv()
        &&& valid_line_starts(self.chars(), self.line_starts())
        &&& utf8_len(self.chars()) <= u32::MAX
    }

    /// Byte offset of the start of line `m`.
    pub open spec fn line_start_byte(&self, m: int) -> int {
        byte_offset(self.chars(), self.line_starts()[m]) as int
    }

    /// Character index of the end of line `m` (the start of the next line, or
    /// the end of the text), line terminators included.
    pub open spec fn line_end_index(&self, m: int) -> int {
        if m + 1 < self.line_starts().len() {
            self.line_starts()[m + 1]
        } else {
            self.chars().len() as int
        }
    }

    /// `m` is the line that contains byte offset `b`.
    pub open spec fn is_line_of(&self, m: int, b: int) -> bool {
        &&& 0 <= m < self.line_starts().len()
        &&& self.line_start_byte(m) <= b
        &&& m + 1 < self.line_starts().len() ==> b < self.line_start_byte(m + 1)
    }

    /// The line that contains byte offset `b`.
    pub open spec fn line_of(&self, b: int) -> int {
        choose|m: int| self.is_line_of(m, b)
    }

    /// A byte offset lies in one line only.
    pub proof fn lemma_line_unique(&self, m1: int, m2: int, b: int)
        requires
            self.wf(),
            self.is_line_of(m1, b),
            self.is_line_of(m2, b),
        ensures
            m1 == m2,
    {
        let ls = self.line_starts();
        if m1 < m2 {
            assert(ls[m1 + 1] <= ls[m2]);
            assert(0 <= ls[m2] <= self.chars().len());
            assert(0 <= ls[m1 + 1]);
            lemma_byte_offset_mono(self.chars(), ls[m1 + 1], ls[m2]);
        } else if m2 < m1 {
            assert(ls[m2 + 1] <= ls[m1]);
            assert(0 <= ls[m1] <= self.chars().len());
            assert(0 <= ls[m2 + 1]);
            lemma_byte_offset_mono(self.chars(), ls[m2 + 1], ls[m1]);
        }
    }

    /// The number of lines of the text.
    pub open spec fn line_count(&self) -> int {
        self.line_starts().len() as int
    }

    /// The UTF-16 position (line and column) of the boundary at byte `b`.
    pub open spec fn utf16_pos_of(&self, b: int) -> (int, int) {
        let line = self.line_of(b);
        (line, utf16_len(self.chars().subrange(self.line_starts()[line], self.index_of(b))) as int)
    }

    /// A UTF-16 line and column of a boundary are its position.
    pub proof fn lemma_utf16_pos_of(&self, b: int, line: int, col: int)
        requires
            self.wf(),
            self.utf16_line_col_of(b, line, col),
        ensures
            self.utf16_pos_of(b) == (line, col),
            0 <= line < self.line_count(),
    {
        self.lemma_line_of(line, b);
    }

    /// Column 0 of a line is the start of the line.
    pub proof fn lemma_line_start_loc(&self, line: int, r: int)
        requires
            self.wf(),
            0 <= line < self.line_count(),
            self.utf16_loc_of(line, 0, r),
        ensures
            r == self.line_start_byte(line),
            is_boundary(self.chars(), r),
            0 <= self.line_starts()[line] <= self.chars().len(),
    {
        let s = self.chars();
        let i0 = self.line_starts()[line];
        let i1 = self.line_end_index(line);
        assert(0 <= i0 <= s.len());
        let j = choose|j: int|
            i0 <= j <= i1 && r == byte_offset(s, j) && utf16_len(#[trigger] s.subrange(i0, j)) <= 0
                && (j < i1 ==> utf16_len(s.subrange(i0, j + 1)) > 0);
        if j > i0 {
            if line + 1 < self.line_starts().len() {
                assert(0 <= self.line_starts()[line + 1] <= s.len());
            }
            lemma_subrange_len(s, i0, j);
            lemma_utf16_mono(s, i0, j);
        }
    }

    /// A line starts no later than the next one.
    pub proof fn lemma_line_starts_ordered(&self, line: int)
        requires
            self.wf(),
            0 <= line,
            line + 1 < self.line_count(),
        ensures
            self.line_start_byte(line) < self.line_start_byte(line + 1),
            0 <= self.line_starts()[line] < self.line_starts()[line + 1] <= self.chars().len(),
            self.line_end_index(line) == self.line_starts()[line + 1],
            is_boundary(self.chars(), self.line_start_byte(line + 1)),
            self.index_of(self.line_start_byte(line + 1)) == self.line_starts()[line + 1],
    {
        let s = self.chars();
        let ls = self.line_starts();
        assert(0 <= ls[line] <= s.len());
        assert(0 <= ls[line + 1] <= s.len());
        lemma_byte_offset_mono(s, ls[line], ls[line + 1]);
        self.lemma_index_of(self.line_start_byte(line + 1), ls[line + 1]);
    }

    /// The last character boundary at or before `loc`: a location inside a
    /// character is taken back to the start of that character, and one past
    /// the end of the text back to its end.
    pub fn boundary_at_or_before(&self, loc: Location) -> (r: Location)
        requires
            self.wf(),
        ensures
            is_boundary(self.chars(), r.byte()),
            r.byte() <= loc.byte(),
            forall|b: int| r.byte() < b <= loc.byte() ==> !is_boundary(self.chars(), b),
    {
        let mut l = loc;
        while l.0 > 0 && !self.is_char_boundary(l)
            invariant
                self.wf(),
                l.byte() <= loc.byte(),
                forall|b: int| l.byte() < b <= loc.byte() ==> !is_boundary(self.chars(), b),
            decreases l.0,
        {
            l = Location(l.0 - 1);
        }
        proof {
            if l.0 == 0 {
                assert(self.chars().take(0) =~= Seq::<char>::empty());
                assert(byte_offset(self.chars(), 0) == 0);
                assert(is_boundary(self.chars(), 0));
            }
        }
        l
    }

    /// Whether `loc` falls on a character boundary of the text.
    pub fn is_char_boundary(&self, loc: Location) -> (r: bool)
        requires
            self.wf(),
        ensures
            r == is_boundary(self.chars(), loc.byte()),
    {
        proof {
            self.lemma_inv();
            lemma_offsets_increasing(self.chars@, self.offsets@);
            assert(self.offsets[0] == byte_offset(self.chars@, 0));
            assert(self.chars@.take(0) =~= Seq::<char>::empty());
        }
        let i = last_at_most(&self.offsets, loc.0);
        let r = self.offsets[i] == loc.0;
        proof {
            let s = self.chars@;
            assert(self.offsets@[i as int] == byte_offset(s, i as int));
            if !r {
                if is_boundary(s, loc.byte()) {
                    let k = choose|k: int| 0 <= k <= s.len() && #[trigger] byte_offset(s, k) == loc.byte();
                    assert(self.offsets@[k] == loc.0);
                    if k <= i {
                        if k < i {
                            assert(self.offsets@[k] < self.offsets@[i as int]);
                        }
                    } else {
                        assert(self.offsets@[i + 1] <= self.offsets@[k]);
                    }
                }
            }
        }
        r
    }

    /// The line that `is_line_of` holds of is `line_of`.
    pub proof fn lemma_line_of(&self, m: int, b: int)
        requires
            self.wf(),
            self.is_line_of(m, b),
        ensures
            self.line_of(b) == m,
    {
        self.lemma_line_unique(self.line_of(b), m, b);
    }

    /// `(line, col)` is the UTF-8 line and column of byte offset `b`.
    pub open spec fn utf8_line_col_of(&self, b: int, line: int, col: int) -> bool {
        self.is_line_of(line, b) && col == b - self.line_start_byte(line)
    }

    /// `(line, col)` is the UTF-16 line and column of the boundary at byte
    /// offset `b`.
    pub open spec fn utf16_line_col_of(&self, b: int, line: int, col: int) -> bool {
        &&& self.is_line_of(line, b)
        &&& col == utf16_len(self.chars().subrange(self.line_starts()[line], self.index_of(b)))
    }

    /// `b` is the location of UTF-8 line `line` and column `col`: past the
    /// last line it is the end of the text; otherwise it is the last
    /// character boundary of the line whose column is at most `col`.
    pub open spec fn utf8_loc_of(&self, line: int, col: int, b: int) -> bool {
        if line >= self.line_starts().len() {
            b == utf8_len(self.chars())
        } else {
            let i0 = self.line_starts()[line];
            let i1 = self.line_end_index(line);
            exists|i: int|
                i0 <= i <= i1 && b == byte_offset(self.chars(), i) && utf8_len(
                    #[trigger] self.chars().subrange(i0, i),
                ) <= col && (i < i1 ==> utf8_len(self.chars().subrange(i0, i + 1)) > col)
        }
    }

    /// `b` is the location of UTF-16 line `line` and column `col`, in the same
    /// way as for [Self::utf8_loc_of] with columns counted in UTF-16 units.
    pub open spec fn utf16_loc_of(&self, line: int, col: int, b: int) -> bool {
        if line >= self.line_starts().len() {
            b == utf8_len(self.chars())
        } else {
            let i0 = self.line_starts()[line];
            let i1 = self.line_end_index(line);
            exists|i: int|
                i0 <= i <= i1 && b == byte_offset(self.chars(), i) && utf16_len(
                    #[trigger] self.chars().subrange(i0, i),
                ) <= col && (i < i1 ==> utf16_len(self.chars().subrange(i0, i + 1)) > col)
        }
    }

    /// Character index of the boundary at byte offset `b`.
    pub open spec fn index_of(&self, b: int) -> int {
        choose|i: int| 0 <= i <= self.chars().len() && byte_offset(self.chars(), i) == b
    }

    proof fn lemma_inv(&self)
        requires
            self.inv(),
        ensures
            forall|i: int, j: int|
                0 <= i < j < self.utf8_line_starts.len() ==> self.utf8_line_starts[i]
                    < self.utf8_line_starts[j],
            forall|i: int, j: int|
                0 <= i < j < self.offsets.len() ==> self.offsets[i] < self.offsets[j],
            self.utf8_line_starts[0] == 0,
    {
        lemma_offsets_increasing(self.chars@, self.offsets@);
        let idx = self.line_start_idx@;
        assert forall|i: int, j: int|
            0 <= i < j < self.utf8_line_starts.len() implies self.utf8_line_starts[i]
            < self.utf8_line_starts[j] by {
            assert(idx[i] < idx[j]);
            assert(self.utf8_line_starts[i] == self.offsets[idx[i]]);
            assert(self.utf8_line_starts[j] == self.offsets[idx[j]]);
        }
        assert(self.utf8_line_starts[0] == self.offsets[0]);
        assert(self.chars@.take(0) =~= Seq::<char>::empty());
    }

    /// The characters that `span` covers.
    pub open spec fn text_of(&self, span: Span) -> Seq<char> {
        self.chars().subrange(self.index_of(span.start.byte()), self.index_of(span.end.byte()))
    }

    /// The text between two character boundaries.
    pub fn text(&self, span: Span) -> (r: &'text str)
        requires
            self.wf(),
            is_boundary(self.chars(), span.start.byte()),
            is_boundary(self.chars(), span.end.byte()),
            span.start.byte() <= span.end.byte(),
        ensures
            r@ == self.text_of(span),
    {
        let i = char_index_of(&self.offsets, span.start.0, Ghost(self.chars@));
        let j = char_index_of(&self.offsets, span.end.0, Ghost(self.chars@));
        proof {
            if j < i {
                lemma_byte_offset_mono(self.chars@, j as int, i as int);
            }
            self.lemma_index_of(span.start.byte(), i as int);
            self.lemma_index_of(span.end.byte(), j as int);
        }
        slice_chars(self.text, span.start.0 as usize, span.end.0 as usize, Ghost(i as int), Ghost(j as int))
    }

    /// `index_of` picks the unique character index of a boundary.
    pub proof fn lemma_index_of(&self, b: int, i: int)
        requires
            0 <= i <= self.chars().len(),
            byte_offset(self.chars(), i) == b,
        ensures
            self.index_of(b) == i,
    {
        let k = self.index_of(b);
        if k < i {
            lemma_byte_offset_mono(self.chars(), k, i);
        } else if k > i {
            lemma_byte_offset_mono(self.chars(), i, k);
        }
    }

    /// Returns a UTF-8 line and column index pair given a [Location].
    pub fn utf8_line_col(&self, loc: Location) -> (r: LineColUtf8)
        requires
            self.wf(),
            loc.byte() <= utf8_len(self.chars()),
        ensures
            self.utf8_line_col_of(loc.byte(), r.line as int, r.col as int),
    {
        proof {
            self.lemma_inv();
        }
        let line = last_at_most(&self.utf8_line_starts, loc.0);
        proof {
            lemma_increasing_ge_index(self.utf8_line_starts@, line as int);
            assert(self.utf8_line_starts[line as int] == self.offsets[self.line_start_idx@[line as int]]);
            if line + 1 < self.utf8_line_starts.len() {
                assert(self.utf8_line_starts[line + 1] == self.offsets[self.line_start_idx@[line + 1]]);
            }
        }
        LineColUtf8 { line: line as u32, col: loc.0 - self.utf8_line_starts[line] }
    }

    /// Returns a UTF-16 line and column index pair given a [Location].
    pub fn utf16_line_col(&self, loc: Location) -> (r: LineColUtf16)
        requires
            self.wf(),
            is_boundary(self.chars(), loc.byte()),
        ensures
            self.utf16_line_col_of(loc.byte(), r.line as int, r.col as int),
    {
        proof {
            self.lemma_inv();
        }
        let ghost s = self.chars@;
        let i = char_index_of(&self.offsets, loc.0, Ghost(s));
        proof {
            self.lemma_index_of(loc.byte(), i as int);
            lemma_byte_offset_end(s);
            lemma_byte_offset_mono(s, i as int, s.len() as int);
        }
        let line = last_at_most(&self.utf8_line_starts, loc.0);
        let ghost ls = self.line_start_idx@[line as int];
        proof {
            lemma_increasing_ge_index(self.utf8_line_starts@, line as int);
            assert(self.utf8_line_starts[line as int] == self.offsets[ls]);
            if line + 1 < self.utf8_line_starts.len() {
                assert(self.utf8_line_starts[line + 1] == self.offsets[self.line_start_idx@[line + 1]]);
            }
            if ls > i {
                assert(self.offsets[i as int] < self.offsets[ls]);
            }
        }
        let start = char_index_of(&self.offsets, self.utf8_line_starts[line], Ghost(s));
        proof {
            if start < ls {
                lemma_byte_offset_mono(s, start as int, ls);
            } else if start > ls {
                lemma_byte_offset_mono(s, ls, start as int);
            }
        }
        let col = self.utf16_count(start, i);
        LineColUtf16 { line: line as u32, col }
    }

    /// UTF-16 length of the characters with indices in `start..end`.
    fn utf16_count(&self, start: usize, end: usize) -> (r: u32)
        requires
            self.inv(),
            start <= end <= self.chars.len(),
        ensures
            r == utf16_len(self.chars@.subrange(start as int, end as int)),
    {
        let ghost s = self.chars@;
        let mut col: u32 = 0;
        let mut k = start;
        proof {
            assert(s.subrange(start as int, start as int) =~= Seq::<char>::empty());
            lemma_utf16_le_utf8(s.subrange(start as int, end as int));
            assert(s =~= s.subrange(0, start as int) + s.subrange(start as int, end as int)
                + s.subrange(end as int, s.len() as int));
            lemma_utf8_len_concat(s.subrange(0, start as int) + s.subrange(start as int, end as int), s.subrange(end as int, s.len() as int));
            lemma_utf8_len_concat(s.subrange(0, start as int), s.subrange(start as int, end as int));
        }
        while k < end
            invariant
                self.inv(),
                s == self.chars@,
                start <= k <= end <= s.len(),
                col == utf16_len(s.subrange(start as int, k as int)),
                utf16_len(s.subrange(start as int, end as int)) <= u32::MAX,
            decreases end - k,
        {
            proof {
                let t = s.subrange(start as int, k as int + 1);
                assert(t.take(k - start) =~= s.subrange(start as int, k as int));
                assert(t[k - start] == s[k as int]);
                lemma_byte_offset_step(t, k - start);
                assert(t.take(k - start + 1) =~= t);
                let u = s.subrange(start as int, end as int);
                assert(u =~= t + s.subrange(k + 1, end as int));
                lemma_utf8_len_concat(t, s.subrange(k + 1, end as int));
            }
            col = col + char_len_utf16(self.chars[k]);
            k = k + 1;
        }
        col
    }

    /// The character index at which line `m` starts, and the one at which it
    /// ends, as executable values.
    fn line_bounds(&self, line: usize) -> (r: (usize, usize))
        requires
            self.inv(),
            line < self.line_start_idx@.len(),
        ensures
            r.0 == self.line_start_idx@[line as int],
            r.1 == self.line_end_index(line as int),
            r.0 <= r.1 <= self.chars.len(),
    {
        proof {
            self.lemma_inv();
        }
        let ghost s = self.chars@;
        let ghost idx = self.line_start_idx@;
        assert(self.utf8_line_starts[line as int] == self.offsets[idx[line as int]]);
        let i0 = char_index_of(&self.offsets, self.utf8_line_starts[line], Ghost(s));
        proof {
            if i0 < idx[line as int] {
                lemma_byte_offset_mono(s, i0 as int, idx[line as int]);
            } else if i0 > idx[line as int] {
                lemma_byte_offset_mono(s, idx[line as int], i0 as int);
            }
        }
        if line + 1 < self.utf8_line_starts.len() {
            assert(self.utf8_line_starts[line + 1] == self.offsets[idx[line + 1]]);
            let i1 = char_index_of(&self.offsets, self.utf8_line_starts[line + 1], Ghost(s));
            proof {
                if i1 < idx[line + 1] {
                    lemma_byte_offset_mono(s, i1 as int, idx[line + 1]);
                } else if i1 > idx[line + 1] {
                    lemma_byte_offset_mono(s, idx[line + 1], i1 as int);
                }
            }
            (i0, i1)
        } else {
            (i0, self.chars.len())
        }
    }

    /// Returns the location of the given UTF-8 line and column index pair.
    ///
    /// If the line index is out of bounds, returns a location pointing to the
    /// end of the source text.
    ///
    /// If the column index is greater than the line length, it is clamped to
    /// the line length. If the column index points to within a multi-byte
    /// character, the location will point to the the start of that character.
    pub fn utf8_loc(&self, line_col: LineColUtf8) -> (r: Location)
        requires
            self.wf(),
        ensures
            self.utf8_loc_of(line_col.line as int, line_col.col as int, r.byte()),
    {
        let ghost s = self.chars@;
        let line = line_col.line as usize;
        if line >= self.utf8_line_starts.len() {
            proof {
                lemma_str_len(self.text);
            }
            return Location(self.text.len() as u32);
        }
        let (i0, i1) = self.line_bounds(line);
        let mut col = line_col.col;
        let mut location: u32 = self.offsets[i0];
        let mut k = i0;
        let mut done = false;
        proof {
            assert(s.subrange(i0 as int, i0 as int) =~= Seq::<char>::empty());
            lemma_byte_offset_end(s);
        }
        while k < i1 && !done
            invariant
                self.inv(),
                s == self.chars@,
                i0 <= k <= i1 <= s.len(),
                location == byte_offset(s, k as int),
                col + utf8_len(s.subrange(i0 as int, k as int)) == line_col.col,
                done ==> (k < i1 ==> utf8_len(s.subrange(i0 as int, k + 1)) > line_col.col),
                byte_offset(s, s.len() as int) <= u32::MAX,
            decreases (i1 - k) as int + (if done { 0int } else { 1int }),
        {
            let w = char_len_utf8(self.chars[k]);
            proof {
                lemma_subrange_step(s, i0 as int, k as int);
                lemma_subrange_len(s, i0 as int, k as int);
                lemma_byte_offset_step(s, k as int);
                lemma_byte_offset_mono(s, k + 1, s.len() as int);
            }
            if col < w {
                done = true;
            } else {
                col = col - w;
                location = location + w;
                k = k + 1;
                if col == 0 {
                    proof {
                        if k < i1 {
                            lemma_subrange_step(s, i0 as int, k as int);
                        }
                    }
                    done = true;
                }
            }
        }
        Location(location)
    }

    /// Returns the location of the given UTF-16 line and column index pair.
    ///
    /// If the line index is out of bounds, returns a location pointing to the
    /// end of the source text.
    ///
    /// If the column index is greater than the line length, it is clamped to
    /// the line length. If the column index points to within a character
    /// encoded by two UTF-16 units, the location will point to the the start of
    /// that character.
    pub fn utf16_loc(&self, line_col: LineColUtf16) -> (r: Location)
        requires
            self.wf(),
        ensures
            self.utf16_loc_of(line_col.line as int, line_col.col as int, r.byte()),
    {
        let ghost s = self.chars@;
        let line = line_col.line as usize;
        if line >= self.utf8_line_starts.len() {
            proof {
                lemma_str_len(self.text);
            }
            return Location(self.text.len() as u32);
        }
        let (i0, i1) = self.line_bounds(line);
        let mut col = line_col.col;
        let mut location: u32 = self.offsets[i0];
        let mut k = i0;
        let mut done = false;
        proof {
            assert(s.subrange(i0 as int, i0 as int) =~= Seq::<char>::empty());
            lemma_byte_offset_end(s);
        }
        while k < i1 && !done
            invariant
                self.inv(),
                s == self.chars@,
                i0 <= k <= i1 <= s.len(),
                location == byte_offset(s, k as int),
                col + utf16_len(s.subrange(i0 as int, k as int)) == line_col.col,
                done ==> (k < i1 ==> utf16_len(s.subrange(i0 as int, k + 1)) > line_col.col),
                byte_offset(s, s.len() as int) <= u32::MAX,
            decreases (i1 - k) as int + (if done { 0int } else { 1int }),
        {
            let w = char_len_utf16(self.chars[k]);
            proof {
                lemma_subrange_step(s, i0 as int, k as int);
                lemma_byte_offset_step(s, k as int);
                lemma_byte_offset_mono(s, k + 1, s.len() as int);
            }
            if col < w {
                done = true;
            } else {
                col = col - w;
                location = location + char_len_utf8(self.chars[k]);
                k = k + 1;
                if col == 0 {
                    proof {
                        if k < i1 {
                            lemma_subrange_step(s, i0 as int, k as int);
                        }
                    }
                    done = true;
                }
            }
        }
        Location(location)
    }

    /// The byte offsets at which the lines of the text start, in increasing
    /// order.
    pub fn utf8_line_starts(&self) -> (r: &Vec<u32>)
        requires
            self.wf(),
        ensures
            r.len() == self.line_starts().len(),
            forall|m: int| 0 <= m < r.len() ==> r[m] == #[trigger] self.line_start_byte(m),
    {
        &self.utf8_line_starts
    }

    proof fn lemma_line_bounds_of(&self, b: int, line: int) -> (i: int)
        requires
            self.wf(),
            is_boundary(self.chars(), b),
            self.is_line_of(line, b),
        ensures
            i == self.index_of(b),
            0 <= self.line_starts()[line] <= i <= self.line_end_index(line) <= self.chars().len(),
            byte_offset(self.chars(), i) == b,
            b - self.line_start_byte(line) == utf8_len(
                self.chars().subrange(self.line_starts()[line], i),
            ),
    {
        let s = self.chars();
        let idx = self.line_starts();
        let k = choose|k: int| 0 <= k <= s.len() && #[trigger] byte_offset(s, k) == b;
        self.lemma_index_of(b, k);
        let i = k;
        let i0 = idx[line];
        assert(0 <= i0 <= s.len());
        if i0 > i {
            lemma_byte_offset_mono(s, i, i0);
        }
        if line + 1 < idx.len() {
            let i1 = idx[line + 1];
            assert(0 <= i1 <= s.len());
            if i >= i1 {
                lemma_byte_offset_mono(s, i1, i);
            }
        }
        lemma_subrange_len(s, i0, i);
        i
    }

    /// Going from a location to its UTF-8 line and column and back gives the
    /// location again.
    pub proof fn law_utf8_roundtrip(&self, b: int, line: int, col: int, r: int)
        requires
            self.wf(),
            is_boundary(self.chars(), b),
            self.utf8_line_col_of(b, line, col),
            self.utf8_loc_of(line, col, r),
        ensures
            r == b,
    {
        let s = self.chars();
        let i = self.lemma_line_bounds_of(b, line);
        let i0 = self.line_starts()[line];
        let i1 = self.line_end_index(line);
        let j = choose|j: int|
            i0 <= j <= i1 && r == byte_offset(s, j) && utf8_len(#[trigger] s.subrange(i0, j))
                <= col && (j < i1 ==> utf8_len(s.subrange(i0, j + 1)) > col);
        if j < i {
            assert(utf8_len(s.subrange(i0, j + 1)) > col);
            assert(utf8_len(s.subrange(i0, j + 1)) <= col) by {
                lemma_subrange_len(s, i0, j + 1);
                lemma_subrange_len(s, i0, i);
                lemma_byte_offset_mono(s, j + 1, i);
            }
        } else if j > i {
            assert(utf8_len(s.subrange(i0, j)) > col) by {
                lemma_subrange_len(s, i0, j);
                lemma_subrange_len(s, i0, i);
                lemma_byte_offset_mono(s, i, j);
            }
        }
    }

    /// Going from a location to its UTF-16 line and column and back gives the
    /// location again.
    pub proof fn law_utf16_roundtrip(&self, b: int, line: int, col: int, r: int)
        requires
            self.wf(),
            is_boundary(self.chars(), b),
            self.utf16_line_col_of(b, line, col),
            self.utf16_loc_of(line, col, r),
        ensures
            r == b,
    {
        let s = self.chars();
        let i = self.lemma_line_bounds_of(b, line);
        let i0 = self.line_starts()[line];
        let i1 = self.line_end_index(line);
        let j = choose|j: int|
            i0 <= j <= i1 && r == byte_offset(s, j) && utf16_len(#[trigger] s.subrange(i0, j))
                <= col && (j < i1 ==> utf16_len(s.subrange(i0, j + 1)) > col);
        if j < i {
            lemma_subrange_len(s, i0, j + 1);
            lemma_subrange_len(s, i0, i);
            lemma_utf16_mono(s, j + 1, i);
        } else if j > i {
            lemma_subrange_len(s, i0, j);
            lemma_subrange_len(s, i0, i);
            lemma_utf16_mono(s, i, j);
        }
    }

    /// Returns the length of the given span in UTF-8 bytes.
    pub fn utf8_len(&self, span: Span) -> (r: u32)
        requires
            span.start.byte() <= span.end.byte(),
        ensures
            r == span.end.byte() - span.start.byte(),
    {
        span.end.0 - span.start.0
    }

    /// Returns the length of the given span in UTF-16 code units.
    pub fn utf16_len(&self, span: Span) -> (r: u32)
        requires
            self.wf(),
            is_boundary(self.chars(), span.start.byte()),
            is_boundary(self.chars(), span.end.byte()),
            span.start.byte() <= span.end.byte(),
        ensures
            r == utf16_len(
                self.chars().subrange(self.index_of(span.start.byte()), self.index_of(span.end.byte())),
            ),
    {
        let i = char_index_of(&self.offsets, span.start.0, Ghost(self.chars@));
        let j = char_index_of(&self.offsets, span.end.0, Ghost(self.chars@));
        proof {
            if j < i {
                lemma_byte_offset_mono(self.chars@, j as int, i as int);
            }
            self.lemma_index_of(span.start.byte(), i as int);
            self.lemma_index_of(span.end.byte(), j as int);
        }
        self.utf16_count(i, j)
    }
}

} // verus!
