//! Resource files: entries `id = value` grouped under `[section]` heads,
//! with `@key value` metadata, `#` comments and a `---` frontmatter line,
//! read line by line with diagnostics for what does not fit.
use vstd::prelude::*;
use vstd::utf8::*;

use crate::ast::slice_at;
use crate::ast::span_in;
use crate::lines::is_boundary;
use crate::parser::lemma_char_loc;
use crate::parser::lemma_slice_at;
use crate::strings::lemma_byte_offset_end;
use crate::strings::lemma_encode_at;
use crate::strings::lemma_encode_push;
use crate::strings::byte_offset;
use crate::strings::char_len_utf8;
use crate::strings::chars_of;
use crate::strings::lemma_byte_offset_mono;
use crate::strings::lemma_byte_offset_step;
use crate::strings::lemma_str_len;
use crate::strings::push_char;
use crate::strings::slice_chars;
use crate::strings::utf8_len;
use crate::strings::utf8_width;
use crate::text::compute_offsets;
use crate::text::offsets_of;
use crate::text::Location;
use crate::text::SourceTextInfo;
use crate::text::Span;

verus! {

#[derive(Debug, Clone, Copy, PartialEq, Eq, Structural)]
pub enum ResourceDiagnosticCategory {
    Structure,
}

#[derive(Debug, Clone, Copy, PartialEq, Eq, Structural)]
pub enum ResourceDiagnosticSeverity {
    Error,
}

#[derive(Debug)]
pub struct ResourceDiagnostic {
    pub code: &'static str,
    pub message: String,
    pub span: Span,
    pub severity: ResourceDiagnosticSeverity,
    pub category: ResourceDiagnosticCategory,
}

#[derive(Debug)]
pub struct ResourceValue {
    pub text: String,
    /// Maps each byte index in `text` back to a byte offset in the original document.
    pub source_offsets: Vec<u32>,
    pub span: Span,
}

#[derive(Debug)]
pub struct Entry<'text> {
    pub id: &'text str,
    pub id_span: Span,
    pub value: ResourceValue,
    pub span: Span,
    pub section_path: Vec<&'text str>,
    pub attached_metadata: Vec<usize>,
    pub attached_comments: Vec<usize>,
}

#[derive(Debug)]
pub struct Metadata<'text> {
    pub name: &'text str,
    pub name_span: Span,
    pub value: Option<ResourceValue>,
    pub span: Span,
}

#[derive(Debug)]
pub struct Section<'text> {
    pub id: &'text str,
    pub id_span: Span,
    pub span: Span,
}

#[derive(Debug)]
pub struct Frontmatter {
    pub span: Span,
}

#[derive(Debug)]
pub struct Comment {
    pub span: Span,
}

#[derive(Debug)]
pub enum ResourceLine {
    Frontmatter { span: Span },
    SectionHead { span: Span, section_idx: usize },
    Entry { span: Span, entry_idx: usize },
    Metadata { span: Span, metadata_idx: usize },
    Comment { span: Span, comment_idx: usize },
    Empty { span: Span },
    Invalid { span: Span },
}

#[derive(Debug)]
pub struct ResourceDoc<'text> {
    pub lines: Vec<ResourceLine>,
    pub entries: Vec<Entry<'text>>,
    pub sections: Vec<Section<'text>>,
    pub metadata: Vec<Metadata<'text>>,
    pub comments: Vec<Comment>,
    pub frontmatter: Option<Frontmatter>,
}

/// A character with the Unicode `White_Space` property.
pub open spec fn white_space_char(c: char) -> bool {
    let v = c as u32;
    ||| 0x09 <= v <= 0x0D
    ||| v == 0x20
    ||| v == 0x85
    ||| v == 0xA0
    ||| v == 0x1680
    ||| 0x2000 <= v <= 0x200A
    ||| v == 0x2028
    ||| v == 0x2029
    ||| v == 0x202F
    ||| v == 0x205F
    ||| v == 0x3000
}

/// `char::is_whitespace`: whether `c` has the Unicode `White_Space`
/// property.
pub fn is_white_space(c: char) -> (r: bool)
    ensures
        r == white_space_char(c),
{
    let v = c as u32;
    (0x09 <= v && v <= 0x0D) || v == 0x20 || v == 0x85 || v == 0xA0 || v == 0x1680 || (0x2000 <= v
        && v <= 0x200A) || v == 0x2028 || v == 0x2029 || v == 0x202F || v == 0x205F || v == 0x3000
}

/// A space or a tab.
pub open spec fn blank_char(c: char) -> bool {
    c == ' ' || c == '\t'
}

fn is_blank(c: char) -> (r: bool)
    ensures
        r == blank_char(c),
{
    c == ' ' || c == '\t'
}

/// Whether `c` has the Unicode `Alphabetic` property, as `char::is_alphabetic`
/// tells it.
pub uninterp spec fn alphabetic(c: char) -> bool;

/// `char::is_alphabetic`. The property is a table of the Unicode character
/// database; the contract names its result and says nothing more of it.
#[verifier::external_body]
fn is_alphabetic(c: char) -> (r: bool)
    ensures
        r == alphabetic(c),
{
    c.is_alphabetic()
}

/// An ASCII letter or digit.
pub open spec fn ascii_alphanumeric(c: char) -> bool {
    let v = c as u32;
    (0x30 <= v <= 0x39) || (0x41 <= v <= 0x5A) || (0x61 <= v <= 0x7A)
}

/// A character that may stand unescaped in an id part.
pub open spec fn id_char(c: char) -> bool {
    c == '-' || c == '_' || ascii_alphanumeric(c) || alphabetic(c)
}

/// The characters of an id part, after its first `i`: each is an id
/// character or a backslash followed by any character.
pub open spec fn id_part_rest_ok(p: Seq<char>, i: int) -> bool
    decreases p.len() - i,
{
    if i >= p.len() {
        true
    } else if p[i] == '\\' {
        i + 1 < p.len() && id_part_rest_ok(p, i + 2)
    } else {
        id_char(p[i]) && id_part_rest_ok(p, i + 1)
    }
}

/// A valid id part: not empty, of id characters and escapes.
pub open spec fn valid_id_part(p: Seq<char>) -> bool {
    p.len() > 0 && id_part_rest_ok(p, 0)
}

/// The value text `t` with `m` mapping each of its bytes to a byte of `s`
/// that holds the same value.
pub open spec fn maps_to_source(t: Seq<char>, m: Seq<u32>, s: Seq<char>) -> bool {
    &&& m.len() == encode_utf8(t).len()
    &&& forall|b: int|
        0 <= b < m.len() ==> (#[trigger] m[b]) < encode_utf8(s).len() && encode_utf8(s)[m[b] as int]
            == encode_utf8(t)[b]
}

/// The index of the first character from `lo` up to `hi` that is not a
/// space or tab, or `hi`.
pub open spec fn blank_end(s: Seq<char>, lo: int, hi: int) -> int
    decreases hi - lo,
{
    if lo < hi && blank_char(s[lo]) {
        blank_end(s, lo + 1, hi)
    } else {
        lo
    }
}

/// The index of the first space or tab from `lo` up to `hi`, or `hi`.
pub open spec fn word_end(s: Seq<char>, lo: int, hi: int) -> int
    decreases hi - lo,
{
    if lo < hi && !blank_char(s[lo]) {
        word_end(s, lo + 1, hi)
    } else {
        lo
    }
}

/// The index of the first character from `lo` up to `hi` without the
/// `White_Space` property, or `hi`.
pub open spec fn trim_start_at(s: Seq<char>, lo: int, hi: int) -> int
    decreases hi - lo,
{
    if lo < hi && white_space_char(s[lo]) {
        trim_start_at(s, lo + 1, hi)
    } else {
        lo
    }
}

/// The index after the last character from `lo` up to `hi` without the
/// `White_Space` property, or `lo`.
pub open spec fn trim_end_at(s: Seq<char>, lo: int, hi: int) -> int
    decreases hi - lo,
{
    if lo < hi && white_space_char(s[hi - 1]) {
        trim_end_at(s, lo, hi - 1)
    } else {
        hi
    }
}

/// The index of the first `c` from `lo` up to `hi`, or `hi`.
pub open spec fn first_of(s: Seq<char>, lo: int, hi: int, c: char) -> int
    decreases hi - lo,
{
    if lo < hi && s[lo] != c {
        first_of(s, lo + 1, hi, c)
    } else {
        lo
    }
}

/// The index of the last `c` from `lo` up to `hi`, if any.
pub open spec fn last_of(s: Seq<char>, lo: int, hi: int, c: char) -> Option<int>
    decreases hi - lo,
{
    if lo < hi {
        if s[hi - 1] == c {
            Some(hi - 1)
        } else {
            last_of(s, lo, hi - 1, c)
        }
    } else {
        None
    }
}

/// The first index from `lo` at which the characters from `a` to `b` stand,
/// or `a`.
pub open spec fn first_match(s: Seq<char>, lo: int, a: int, b: int) -> int
    decreases a - lo,
{
    if lo < a && s.subrange(lo, lo + (b - a)) != s.subrange(a, b) {
        first_match(s, lo + 1, a, b)
    } else {
        lo
    }
}

/// A scan that stops at the first index where `stop` holds, or at `hi`.
proof fn lemma_blank_end(s: Seq<char>, lo: int, hi: int, r: int)
    requires
        lo <= r <= hi,
        forall|k: int| lo <= k < r ==> blank_char(#[trigger] s[k]),
        r < hi ==> !blank_char(s[r]),
    ensures
        blank_end(s, lo, hi) == r,
    decreases r - lo,
{
    if lo < r {
        lemma_blank_end(s, lo + 1, hi, r);
    }
}

proof fn lemma_word_end(s: Seq<char>, lo: int, hi: int, r: int)
    requires
        lo <= r <= hi,
        forall|k: int| lo <= k < r ==> !blank_char(#[trigger] s[k]),
        r < hi ==> blank_char(s[r]),
    ensures
        word_end(s, lo, hi) == r,
    decreases r - lo,
{
    if lo < r {
        lemma_word_end(s, lo + 1, hi, r);
    }
}

proof fn lemma_trim_start_at(s: Seq<char>, lo: int, hi: int, r: int)
    requires
        lo <= r <= hi,
        forall|k: int| lo <= k < r ==> white_space_char(#[trigger] s[k]),
        r < hi ==> !white_space_char(s[r]),
    ensures
        trim_start_at(s, lo, hi) == r,
    decreases r - lo,
{
    if lo < r {
        lemma_trim_start_at(s, lo + 1, hi, r);
    }
}

proof fn lemma_trim_end_at(s: Seq<char>, lo: int, hi: int, r: int)
    requires
        lo <= r <= hi,
        forall|k: int| r <= k < hi ==> white_space_char(#[trigger] s[k]),
        r > lo ==> !white_space_char(s[r - 1]),
    ensures
        trim_end_at(s, lo, hi) == r,
    decreases hi - r,
{
    if r < hi {
        lemma_trim_end_at(s, lo, hi - 1, r);
    }
}

proof fn lemma_first_of(s: Seq<char>, lo: int, hi: int, c: char, r: int)
    requires
        lo <= r <= hi,
        forall|k: int| lo <= k < r ==> #[trigger] s[k] != c,
        r < hi ==> s[r] == c,
    ensures
        first_of(s, lo, hi, c) == r,
    decreases r - lo,
{
    if lo < r {
        lemma_first_of(s, lo + 1, hi, c, r);
    }
}

proof fn lemma_last_of(s: Seq<char>, lo: int, hi: int, c: char, r: Option<int>)
    requires
        lo <= hi,
        r matches Some(i) ==> lo <= i < hi && s[i] == c && forall|k: int| i < k < hi ==> #[trigger] s[k] != c,
        r is None ==> forall|k: int| lo <= k < hi ==> #[trigger] s[k] != c,
    ensures
        last_of(s, lo, hi, c) == r,
    decreases hi - lo,
{
    if lo < hi {
        if s[hi - 1] != c {
            lemma_last_of(s, lo, hi - 1, c, r);
        }
    }
}

/// A scan from `lo` stops at or before `hi`.
pub proof fn lemma_scans_bounded(s: Seq<char>, lo: int, hi: int)
    requires
        lo <= hi,
    ensures
        lo <= blank_end(s, lo, hi) <= hi,
        lo <= word_end(s, lo, hi) <= hi,
        lo <= trim_start_at(s, lo, hi) <= hi,
        lo <= trim_end_at(s, lo, hi) <= hi,
        lo <= first_of(s, lo, hi, '.') <= hi,
        lo <= first_of(s, lo, hi, '=') <= hi,
    decreases hi - lo,
{
    if lo < hi {
        lemma_scans_bounded(s, lo + 1, hi);
        lemma_scans_bounded(s, lo, hi - 1);
    }
}

/// From index `p` up to `hi`, the characters make a valid id: each part
/// between dots, trimmed of white space, is a valid id part.
pub open spec fn valid_id_from(s: Seq<char>, p: int, hi: int) -> bool
    decreases hi - p,
{
    let d = first_of(s, p, hi, '.');
    let a = trim_start_at(s, p, d);
    let b = trim_end_at(s, a, d);
    proof {
        if p <= hi {
            lemma_scans_bounded(s, p, hi);
        }
    }
    &&& a < b
    &&& valid_id_part(s.subrange(a, b))
    &&& (d >= hi || valid_id_from(s, d + 1, hi))
}

/// From index `p` up to `hi`, the parts between dots trimmed of white
/// space, the empty ones left out.
pub open spec fn path_from(s: Seq<char>, p: int, hi: int) -> Seq<Seq<char>>
    decreases hi - p,
{
    let d = first_of(s, p, hi, '.');
    let a = trim_start_at(s, p, d);
    let b = trim_end_at(s, a, d);
    proof {
        if p <= hi {
            lemma_scans_bounded(s, p, hi);
        }
    }
    (if a < b {
        seq![s.subrange(a, b)]
    } else {
        seq![]
    }) + (if d >= hi {
        seq![]
    } else {
        path_from(s, d + 1, hi)
    })
}

/// A metadata head at `start` with content up to `ce`: after the `@`, a
/// name up to the first space or tab, which must not be empty, and the
/// start of the value after spaces and tabs, if anything follows.
pub open spec fn metadata_header(s: Seq<char>, start: int, ce: int) -> Option<(int, Option<int>)> {
    let e = word_end(s, start + 1, ce);
    if e <= start + 1 {
        None
    } else {
        let v = blank_end(s, e, ce);
        Some((e, if v < ce { Some(v) } else { None }))
    }
}

/// An entry head at `start` with content up to `ce`: the id before the
/// first `=`, trimmed of white space at its end, which must not be empty,
/// and the start of the value after spaces and tabs (right after the `=`
/// where nothing follows).
pub open spec fn entry_header(s: Seq<char>, start: int, ce: int) -> Option<(int, int)> {
    let q = first_of(s, start, ce, '=');
    if q >= ce {
        None
    } else {
        let t = trim_end_at(s, start, q);
        if t == start {
            None
        } else {
            let v = blank_end(s, q + 1, ce);
            Some((t, if v < ce { v } else { q + 1 }))
        }
    }
}

/// A section head at `start` with content up to `ce`: `[`, the id trimmed
/// of white space, which must not be empty, and the last `]`, after which
/// only white space follows. The bounds of the id.
pub open spec fn section_head(s: Seq<char>, start: int, ce: int) -> Option<(int, int)> {
    match last_of(s, start, ce, ']') {
        None => None,
        Some(c) => if c == start || trim_start_at(s, c + 1, ce) < ce {
            None
        } else {
            let a = trim_start_at(s, start + 1, c);
            let b = trim_end_at(s, a, c);
            if a == b {
                None
            } else {
                Some((a, b))
            }
        },
    }
}

/// Whether the characters from `start` up to `ce` are `---`, spaces and
/// tabs after it aside.
pub open spec fn frontmatter_line(s: Seq<char>, start: int, ce: int) -> bool {
    &&& start + 3 <= ce
    &&& s[start] == '-'
    &&& s[start + 1] == '-'
    &&& s[start + 2] == '-'
    &&& forall|k: int| start + 3 <= k < ce ==> blank_char(#[trigger] s[k])
}

/// The span between the characters of `s` with indices `i` and `j`.
pub open spec fn span_of(s: Seq<char>, i: int, j: int) -> Span {
    Span { start: Location(byte_offset(s, i) as u32), end: Location(byte_offset(s, j) as u32) }
}

/// `d` is a structural error with this code, message and span.
pub open spec fn is_structural(d: ResourceDiagnostic, code: &str, message: Seq<char>, span: Span) -> bool {
    &&& d.code == code
    &&& d.message@ == message
    &&& d.span == span
    &&& d.severity == ResourceDiagnosticSeverity::Error
    &&& d.category == ResourceDiagnosticCategory::Structure
}

/// The message for metadata that nothing follows to attach to.
pub open spec fn dangling_message() -> Seq<char> {
    "Metadata must attach to a subsequent frontmatter, section header, or entry without comments/empty lines in between."@
}

/// `new` is `old` with `n` more diagnostics after it.
pub open spec fn adds_diagnostics(old: Seq<ResourceDiagnostic>, new: Seq<ResourceDiagnostic>, n: int) -> bool {
    &&& new.len() == old.len() + n
    &&& forall|i: int| 0 <= i < old.len() ==> #[trigger] new[i] == old[i]
}

/// From index `at` of `ds` on, each metadata item of `pending` is reported
/// as dangling, in order.
pub open spec fn dangling_at(ds: Seq<ResourceDiagnostic>, at: int, pending: Seq<usize>, metadata: Seq<Metadata>) -> bool {
    forall|j: int|
        0 <= j < pending.len() ==> is_structural(
            #[trigger] ds[at + j],
            "dangling-metadata",
            dangling_message(),
            metadata[pending[j] as int].span,
        )
}

/// The byte offsets from `a` up to `b`, one after the other.
pub open spec fn byte_range(a: int, b: int) -> Seq<u32> {
    Seq::new((b - a) as nat, |x: int| (a + x) as u32)
}

/// A text with its characters and the byte offset of each of them.
struct Source<'t> {
    text: &'t str,
    chars: Vec<char>,
    offsets: Vec<u32>,
}

impl<'t> Source<'t> {
    spec fn s(&self) -> Seq<char> {
        self.chars@
    }

    spec fn wf(&self) -> bool {
        &&& self.chars@ == self.text@
        &&& offsets_of(self.chars@, self.offsets@)
        &&& utf8_len(self.chars@) <= u32::MAX
    }

    fn new(text: &'t str) -> (r: Self)
        requires
            utf8_len(text@) <= u32::MAX,
        ensures
            r.wf(),
            r.s() == text@,
    {
        let chars = chars_of(text);
        let offsets = compute_offsets(&chars);
        Source { text, chars, offsets }
    }

    fn len(&self) -> (r: usize)
        ensures
            r == self.s().len(),
    {
        self.chars.len()
    }

    fn at(&self, i: usize) -> (r: char)
        requires
            i < self.s().len(),
        ensures
            r == self.s()[i as int],
    {
        self.chars[i]
    }

    fn loc(&self, i: usize) -> (r: Location)
        requires
            self.wf(),
            i <= self.s().len(),
        ensures
            r.byte() == byte_offset(self.s(), i as int),
            is_boundary(self.s(), r.byte()),
    {
        proof {
            lemma_char_loc(self.s(), i as int);
        }
        Location(self.offsets[i])
    }

    /// The span between the characters with indices `i` and `j`.
    fn span(&self, i: usize, j: usize) -> (r: Span)
        requires
            self.wf(),
            i <= j <= self.s().len(),
        ensures
            r.start.byte() == byte_offset(self.s(), i as int),
            r.end.byte() == byte_offset(self.s(), j as int),
            span_in(self.s(), r),
            r == span_of(self.s(), i as int, j as int),
    {
        proof {
            lemma_byte_offset_mono(self.s(), i as int, j as int);
        }
        Span { start: self.loc(i), end: self.loc(j) }
    }

    /// The text between the characters with indices `i` and `j`.
    fn slice(&self, i: usize, j: usize) -> (r: &'t str)
        requires
            self.wf(),
            i <= j <= self.s().len(),
        ensures
            r@ == self.s().subrange(i as int, j as int),
    {
        slice_chars(
            self.text,
            self.offsets[i] as usize,
            self.offsets[j] as usize,
            Ghost(i as int),
            Ghost(j as int),
        )
    }

    /// Appends the characters with indices from `i` to `j` to `text`, and
    /// the byte offset of each of their bytes to `map`.
    fn append(&self, i: usize, j: usize, text: &mut String, map: &mut Vec<u32>)
        requires
            self.wf(),
            i <= j <= self.s().len(),
            maps_to_source(old(text)@, old(map)@, self.s()),
        ensures
            final(text)@ == old(text)@ + self.s().subrange(i as int, j as int),
            maps_to_source(final(text)@, final(map)@, self.s()),
            final(map)@ == old(map)@ + byte_range(
                byte_offset(self.s(), i as int) as int,
                byte_offset(self.s(), j as int) as int,
            ),
    {
        let ghost t0 = text@;
        let ghost m0 = map@;
        let mut k = i;
        proof {
            assert(m0 =~= m0 + byte_range(
                byte_offset(self.s(), i as int) as int,
                byte_offset(self.s(), i as int) as int,
            ));
        }
        while k < j
            invariant
                self.wf(),
                i <= k <= j <= self.s().len(),
                text@ == t0 + self.s().subrange(i as int, k as int),
                maps_to_source(text@, map@, self.s()),
                map@ == m0 + byte_range(
                    byte_offset(self.s(), i as int) as int,
                    byte_offset(self.s(), k as int) as int,
                ),
            decreases j - k,
        {
            self.append_char(k, text, map);
            proof {
                lemma_byte_offset_mono(self.s(), i as int, k as int);
                lemma_byte_offset_step(self.s(), k as int);
                let a = byte_offset(self.s(), i as int) as int;
                let b = byte_offset(self.s(), k as int) as int;
                let c = byte_offset(self.s(), k + 1) as int;
                assert(byte_range(a, b) + byte_range(b, c) =~= byte_range(a, c));
            }
            k = k + 1;
            assert(text@ =~= t0 + self.s().subrange(i as int, k as int));
        }
    }

    /// Appends the character with index `k` to `text`, and the byte offset
    /// of each of its bytes to `map`.
    fn append_char(&self, k: usize, text: &mut String, map: &mut Vec<u32>)
        requires
            self.wf(),
            k < self.s().len(),
            maps_to_source(old(text)@, old(map)@, self.s()),
        ensures
            final(text)@ == old(text)@.push(self.s()[k as int]),
            maps_to_source(final(text)@, final(map)@, self.s()),
            final(map)@ == old(map)@ + byte_range(
                byte_offset(self.s(), k as int) as int,
                byte_offset(self.s(), k + 1) as int,
            ),
    {
        let c = self.chars[k];
        let w = char_len_utf8(c);
        let base = self.offsets[k];
        let ghost s = self.s();
        let ghost t0 = text@;
        let ghost m0 = map@;
        proof {
            lemma_encode_at(s, k as int);
            lemma_encode_push(t0, c);
            lemma_byte_offset_end(s);
        }
        push_char(text, c);
        let mut b: u32 = 0;
        while b < w
            invariant
                1 <= w <= 4,
                w == utf8_width(c),
                utf8_len(s) <= u32::MAX,
                c == s[k as int],
                base == byte_offset(s, k as int),
                byte_offset(s, k as int) + utf8_width(c) <= utf8_len(s),
                encode_utf8(s).len() == utf8_len(s),
                encode_utf8(text@) == encode_utf8(t0) + encode_utf8(seq![c]),
                encode_utf8(seq![c]).len() == w,
                forall|bb: int|
                    0 <= bb < w ==> #[trigger] encode_utf8(s)[byte_offset(s, k as int) + bb]
                        == encode_utf8(seq![c])[bb],
                b <= w,
                map@.len() == m0.len() + b,
                m0.len() == encode_utf8(t0).len(),
                forall|x: int| 0 <= x < m0.len() ==> #[trigger] map@[x] == m0[x],
                forall|x: int|
                    0 <= x < m0.len() ==> (#[trigger] m0[x]) < encode_utf8(s).len()
                        && encode_utf8(s)[m0[x] as int] == encode_utf8(t0)[x],
                forall|x: int| 0 <= x < b ==> #[trigger] map@[m0.len() + x] == base + x,
            decreases w - b,
        {
            map.push(base + b);
            b = b + 1;
        }
        proof {
            let t1 = text@;
            let m1 = map@;
            assert forall|x: int| 0 <= x < m1.len() implies (#[trigger] m1[x]) < encode_utf8(
                s,
            ).len() && encode_utf8(s)[m1[x] as int] == encode_utf8(t1)[x] by {
                if x < m0.len() {
                    assert(m1[x] == m0[x]);
                } else {
                    let bb = x - m0.len();
                    assert(m1[m0.len() + bb] == base + bb);
                    assert(encode_utf8(s)[byte_offset(s, k as int) + bb] == encode_utf8(seq![c])[bb]);
                }
            }
            lemma_byte_offset_step(s, k as int);
            let br = byte_range(byte_offset(s, k as int) as int, byte_offset(s, k + 1) as int);
            assert(br.len() == w);
            assert forall|x: int| 0 <= x < w implies #[trigger] m1[m0.len() + x] == br[x] by {
                assert(m1[m0.len() + x] == base + x);
            }
            assert forall|x: int| 0 <= x < m1.len() implies #[trigger] m1[x] == (m0 + br)[x] by {
                if x < m0.len() {
                    assert(m1[x] == m0[x]);
                } else {
                    assert(m1[m0.len() + (x - m0.len())] == br[x - m0.len()]);
                }
            }
            assert(m1 =~= m0 + byte_range(
                byte_offset(s, k as int) as int,
                byte_offset(s, k + 1) as int,
            ));
        }
    }
}

/// A line of the text: it starts at `start` and ends at `end`, the index of
/// its line feed or the end of the text; `content_end` leaves out a carriage
/// return before the end.
pub struct RawLine {
    pub start: usize,
    pub content_end: usize,
    pub end: usize,
}

impl RawLine {
    pub open spec fn wf(&self, s: Seq<char>) -> bool {
        &&& self.start <= self.content_end <= self.end <= s.len()
        &&& forall|k: int| self.start <= k < self.end ==> #[trigger] s[k] != '\n'
        &&& self.end < s.len() ==> s[self.end as int] == '\n'
        &&& self.content_end == if self.end > self.start && s[self.end - 1] == '\r' {
            self.end - 1
        } else {
            self.end as int
        }
    }
}

/// The lines of `s`, in order: each starts after the line feed of the one
/// before, and the last one ends at the end of `s`.
pub open spec fn lines_wf(s: Seq<char>, lines: Seq<RawLine>) -> bool {
    &&& lines.len() >= 1
    &&& lines[0].start == 0
    &&& lines[lines.len() - 1].end == s.len()
    &&& forall|k: int| 0 <= k < lines.len() ==> #[trigger] lines[k].wf(s)
    &&& forall|k: int| 1 <= k < lines.len() ==> #[trigger] lines[k].start == lines[k - 1].end + 1
}

/// Cuts the text into lines at each line feed.
fn split_lines(src: &Source) -> (r: Vec<RawLine>)
    requires
        src.wf(),
    ensures
        lines_wf(src.s(), r@),
{
    let n = src.len();
    let mut lines: Vec<RawLine> = Vec::new();
    let mut start: usize = 0;
    loop
        invariant_except_break
            lines.len() == 0 ==> start == 0,
            lines.len() > 0 ==> lines[0].start == 0 && start == lines[lines.len() - 1].end + 1,
            forall|k: int| 0 <= k < lines.len() ==> #[trigger] lines[k].end < n,
        invariant
            src.wf(),
            n == src.s().len(),
            start <= n,
            forall|k: int| 0 <= k < lines.len() ==> #[trigger] lines[k].wf(src.s()),
            forall|k: int| 1 <= k < lines.len() ==> #[trigger] lines[k].start == lines[k - 1].end + 1,
        ensures
            lines_wf(src.s(), lines@),
        decreases n - start,
    {
        let mut end = start;
        while end < n && src.at(end) != '\n'
            invariant
                start <= end <= n,
                n == src.s().len(),
                forall|k: int| start <= k < end ==> #[trigger] src.s()[k] != '\n',
            decreases n - end,
        {
            end = end + 1;
        }
        let content_end = if end > start && src.at(end - 1) == '\r' {
            end - 1
        } else {
            end
        };
        let ghost prev = lines@;
        lines.push(RawLine { start, content_end, end });
        proof {
            assert forall|k: int| 0 <= k < lines.len() implies #[trigger] lines[k].wf(src.s()) by {
                if k < prev.len() {
                    assert(lines@[k] == prev[k]);
                }
            }
            assert forall|k: int| 1 <= k < lines.len() implies #[trigger] lines[k].start
                == lines[k - 1].end + 1 by {
                assert(lines@[k - 1] == prev[k - 1]);
                if k < prev.len() {
                    assert(lines@[k] == prev[k]);
                }
            }
        }
        if end == n {
            break;
        }
        start = end + 1;
        proof {
            assert forall|k: int| 0 <= k < lines.len() implies #[trigger] lines[k].end < n by {
                if k < prev.len() {
                    assert(lines@[k] == prev[k]);
                }
            }
        }
    }
    lines
}

impl<'t> Source<'t> {
    /// Index of the first character from `lo` up to `hi` that is not a space
    /// or tab, or `hi`.
    fn skip_blanks(&self, lo: usize, hi: usize) -> (r: usize)
        requires
            lo <= hi <= self.s().len(),
        ensures
            lo <= r <= hi,
            forall|k: int| lo <= k < r ==> blank_char(#[trigger] self.s()[k]),
            r < hi ==> !blank_char(self.s()[r as int]),
            r == blank_end(self.s(), lo as int, hi as int),
    {
        let mut i = lo;
        while i < hi && is_blank(self.chars[i])
            invariant
                lo <= i <= hi <= self.s().len(),
                forall|k: int| lo <= k < i ==> blank_char(#[trigger] self.s()[k]),
            decreases hi - i,
        {
            i = i + 1;
        }
        proof {
            lemma_blank_end(self.s(), lo as int, hi as int, i as int);
        }
        i
    }

    /// Index of the first character from `lo` up to `hi` without the
    /// `White_Space` property, or `hi`.
    fn trim_start_index(&self, lo: usize, hi: usize) -> (r: usize)
        requires
            lo <= hi <= self.s().len(),
        ensures
            lo <= r <= hi,
            forall|k: int| lo <= k < r ==> white_space_char(#[trigger] self.s()[k]),
            r < hi ==> !white_space_char(self.s()[r as int]),
            r == trim_start_at(self.s(), lo as int, hi as int),
    {
        let mut i = lo;
        while i < hi && is_white_space(self.chars[i])
            invariant
                lo <= i <= hi <= self.s().len(),
                forall|k: int| lo <= k < i ==> white_space_char(#[trigger] self.s()[k]),
            decreases hi - i,
        {
            i = i + 1;
        }
        proof {
            lemma_trim_start_at(self.s(), lo as int, hi as int, i as int);
        }
        i
    }

    /// Index after the last character from `lo` up to `hi` without the
    /// `White_Space` property, or `lo`.
    fn trim_end_index(&self, lo: usize, hi: usize) -> (r: usize)
        requires
            lo <= hi <= self.s().len(),
        ensures
            lo <= r <= hi,
            forall|k: int| r <= k < hi ==> white_space_char(#[trigger] self.s()[k]),
            r > lo ==> !white_space_char(self.s()[r - 1]),
            r == trim_end_at(self.s(), lo as int, hi as int),
    {
        let mut i = hi;
        while i > lo && is_white_space(self.chars[i - 1])
            invariant
                lo <= i <= hi <= self.s().len(),
                forall|k: int| i <= k < hi ==> white_space_char(#[trigger] self.s()[k]),
            decreases i - lo,
        {
            i = i - 1;
        }
        proof {
            lemma_trim_end_at(self.s(), lo as int, hi as int, i as int);
        }
        i
    }

    /// Index of the first `c` from `lo` up to `hi`, if any.
    fn find_char(&self, lo: usize, hi: usize, c: char) -> (r: Option<usize>)
        requires
            lo <= hi <= self.s().len(),
        ensures
            r matches Some(i) ==> lo <= i < hi && self.s()[i as int] == c && forall|k: int|
                lo <= k < i ==> #[trigger] self.s()[k] != c,
            r is None ==> forall|k: int| lo <= k < hi ==> #[trigger] self.s()[k] != c,
            first_of(self.s(), lo as int, hi as int, c) == match r {
                Some(i) => i as int,
                None => hi as int,
            },
    {
        let mut i = lo;
        while i < hi
            invariant
                lo <= i <= hi <= self.s().len(),
                forall|k: int| lo <= k < i ==> #[trigger] self.s()[k] != c,
            decreases hi - i,
        {
            if self.chars[i] == c {
                proof {
                    lemma_first_of(self.s(), lo as int, hi as int, c, i as int);
                }
                return Some(i);
            }
            i = i + 1;
        }
        proof {
            lemma_first_of(self.s(), lo as int, hi as int, c, hi as int);
        }
        None
    }

    /// Index of the last `c` from `lo` up to `hi`, if any.
    fn rfind_char(&self, lo: usize, hi: usize, c: char) -> (r: Option<usize>)
        requires
            lo <= hi <= self.s().len(),
        ensures
            r matches Some(i) ==> lo <= i < hi && self.s()[i as int] == c && forall|k: int|
                i < k < hi ==> #[trigger] self.s()[k] != c,
            r is None ==> forall|k: int| lo <= k < hi ==> #[trigger] self.s()[k] != c,
            last_of(self.s(), lo as int, hi as int, c) == match r {
                Some(i) => Some(i as int),
                None => None::<int>,
            },
    {
        let mut i = hi;
        while i > lo
            invariant
                lo <= i <= hi <= self.s().len(),
                forall|k: int| i <= k < hi ==> #[trigger] self.s()[k] != c,
            decreases i - lo,
        {
            if self.chars[i - 1] == c {
                proof {
                    lemma_last_of(self.s(), lo as int, hi as int, c, Some(i - 1));
                }
                return Some(i - 1);
            }
            i = i - 1;
        }
        proof {
            lemma_last_of(self.s(), lo as int, hi as int, c, None);
        }
        None
    }

    /// Whether the characters at `i` and at `a` agree for `len` characters.
    fn same_at(&self, i: usize, a: usize, len: usize) -> (r: bool)
        requires
            i + len <= self.s().len(),
            a + len <= self.s().len(),
        ensures
            r == (self.s().subrange(i as int, i + len) == self.s().subrange(a as int, a + len)),
    {
        let mut k: usize = 0;
        while k < len
            invariant
                k <= len,
                self.s().len() == self.chars.len(),
                i + len <= self.s().len(),
                a + len <= self.s().len(),
                self.s().subrange(i as int, i + k) =~= self.s().subrange(a as int, a + k),
            decreases len - k,
        {
            if self.chars[i + k] != self.chars[a + k] {
                assert(self.s().subrange(i as int, i + len)[k as int] != self.s().subrange(
                    a as int,
                    a + len,
                )[k as int]);
                return false;
            }
            let ghost before = self.s().subrange(i as int, i + k);
            k = k + 1;
            assert(self.s().subrange(i as int, i + k) =~= self.s().subrange(a as int, a + k)) by {
                assert forall|x: int| 0 <= x < k implies #[trigger] self.s().subrange(i as int, i + k)[x]
                    == self.s().subrange(a as int, a + k)[x] by {
                    if x < k - 1 {
                        assert(before[x] == self.s().subrange(a as int, a + k - 1)[x]);
                    }
                }
            }
        }
        true
    }

    /// Index of the first place from `lo` where the characters from `a` to
    /// `b` stand, which they do by `a` at the latest.
    fn find_text(&self, lo: usize, a: usize, b: usize) -> (r: usize)
        requires
            lo <= a <= b <= self.s().len(),
        ensures
            lo <= r <= a,
            self.s().subrange(r as int, r + (b - a)) == self.s().subrange(a as int, b as int),
            r == first_match(self.s(), lo as int, a as int, b as int),
    {
        let len = b - a;
        let mut i = lo;
        while i < a
            invariant
                lo <= i <= a <= b <= self.s().len(),
                len == b - a,
                first_match(self.s(), lo as int, a as int, b as int) == first_match(
                    self.s(),
                    i as int,
                    a as int,
                    b as int,
                ),
            decreases a - i,
        {
            if self.same_at(i, a, len) {
                return i;
            }
            i = i + 1;
        }
        i
    }

    /// Whether the characters from `lo` to `hi` make a valid id part.
    fn is_valid_id_part(&self, lo: usize, hi: usize) -> (r: bool)
        requires
            lo <= hi <= self.s().len(),
        ensures
            r == valid_id_part(self.s().subrange(lo as int, hi as int)),
    {
        let ghost p = self.s().subrange(lo as int, hi as int);
        if lo == hi {
            return false;
        }
        let mut i = lo;
        while i < hi
            invariant
                lo <= i <= hi <= self.s().len(),
                p == self.s().subrange(lo as int, hi as int),
                id_part_rest_ok(p, 0) == id_part_rest_ok(p, i - lo),
            decreases hi - i,
        {
            let ch = self.chars[i];
            assert(p[i - lo] == ch);
            if ch == '\\' {
                if i + 1 >= hi {
                    return false;
                }
                i = i + 2;
            } else if ch == '-' || ch == '_' || is_ascii_alphanumeric(ch) || is_alphabetic(ch) {
                i = i + 1;
            } else {
                return false;
            }
        }
        true
    }

    /// Whether the characters from `lo` to `hi` make a valid id: parts
    /// between dots that, trimmed of white space, are valid id parts.
    fn is_valid_id(&self, lo: usize, hi: usize) -> (r: bool)
        requires
            lo <= hi <= self.s().len(),
        ensures
            r == valid_id_from(self.s(), lo as int, hi as int),
    {
        let mut part_start = lo;
        loop
            invariant
                lo <= part_start <= hi <= self.s().len(),
                valid_id_from(self.s(), lo as int, hi as int) == valid_id_from(
                    self.s(),
                    part_start as int,
                    hi as int,
                ),
            decreases hi - part_start,
        {
            let part_end = match self.find_char(part_start, hi, '.') {
                Some(d) => d,
                None => hi,
            };
            let a = self.trim_start_index(part_start, part_end);
            let b = self.trim_end_index(a, part_end);
            if a == b || !self.is_valid_id_part(a, b) {
                return false;
            }
            if part_end == hi {
                return true;
            }
            part_start = part_end + 1;
        }
    }

    /// The parts of a section id between dots, trimmed of white space, the
    /// empty ones left out.
    fn section_path(&self, lo: usize, hi: usize) -> (r: Vec<&'t str>)
        requires
            self.wf(),
            lo <= hi <= self.s().len(),
        ensures
            r@.map_values(|x: &str| x@) == path_from(self.s(), lo as int, hi as int),
    {
        let mut path: Vec<&'t str> = Vec::new();
        let mut part_start = lo;
        loop
            invariant
                self.wf(),
                lo <= part_start <= hi <= self.s().len(),
                path@.map_values(|x: &str| x@) + path_from(self.s(), part_start as int, hi as int)
                    == path_from(self.s(), lo as int, hi as int),
            decreases hi - part_start,
        {
            let ghost before = path@;
            let part_end = match self.find_char(part_start, hi, '.') {
                Some(d) => d,
                None => hi,
            };
            let a = self.trim_start_index(part_start, part_end);
            let b = self.trim_end_index(a, part_end);
            if a < b {
                path.push(self.slice(a, b));
            }
            proof {
                let rest = if part_end >= hi {
                    Seq::<Seq<char>>::empty()
                } else {
                    path_from(self.s(), part_end + 1, hi as int)
                };
                let own = if a < b {
                    seq![self.s().subrange(a as int, b as int)]
                } else {
                    Seq::<Seq<char>>::empty()
                };
                assert(path_from(self.s(), part_start as int, hi as int) == own + rest);
                assert(path@.map_values(|x: &str| x@) =~= before.map_values(|x: &str| x@) + own);
                assert(path@.map_values(|x: &str| x@) + rest =~= before.map_values(|x: &str| x@)
                    + path_from(self.s(), part_start as int, hi as int));
            }
            if part_end == hi {
                assert(path@.map_values(|x: &str| x@) + Seq::<Seq<char>>::empty() =~= path@.map_values(
                    |x: &str| x@,
                ));
                return path;
            }
            part_start = part_end + 1;
        }
    }
}

fn is_ascii_alphanumeric(c: char) -> (r: bool)
    ensures
        r == ascii_alphanumeric(c),
{
    let v = c as u32;
    (0x30 <= v && v <= 0x39) || (0x41 <= v && v <= 0x5A) || (0x61 <= v && v <= 0x7A)
}

impl ResourceValue {
    /// The value's span lies in `s`, and its text maps back to `s`.
    pub open spec fn wf(&self, s: Seq<char>) -> bool {
        &&& span_in(s, self.span)
        &&& maps_to_source(self.text@, self.source_offsets@, s)
    }
}

/// `text`, placed at `span`, is the part of `s` that the span covers.
pub open spec fn text_at(s: Seq<char>, span: Span, text: Seq<char>) -> bool {
    &&& span_in(s, span)
    &&& slice_at(s, span.start.byte(), text)
    &&& span.end.byte() == span.start.byte() + utf8_len(text)
}

impl<'text> Entry<'text> {
    /// The entry lies in `s`, and refers to existing metadata and comments.
    pub open spec fn wf(&self, s: Seq<char>, n_metadata: int, n_comments: int) -> bool {
        &&& text_at(s, self.id_span, self.id@)
        &&& span_in(s, self.span)
        &&& self.value.wf(s)
        &&& forall|i: int|
            0 <= i < self.attached_metadata.len() ==> #[trigger] self.attached_metadata[i]
                < n_metadata
        &&& forall|i: int|
            0 <= i < self.attached_comments.len() ==> #[trigger] self.attached_comments[i]
                < n_comments
    }
}

impl<'text> Metadata<'text> {
    pub open spec fn wf(&self, s: Seq<char>) -> bool {
        &&& text_at(s, self.name_span, self.name@)
        &&& span_in(s, self.span)
        &&& self.value matches Some(v) ==> v.wf(s)
    }
}

impl<'text> Section<'text> {
    pub open spec fn wf(&self, s: Seq<char>) -> bool {
        &&& text_at(s, self.id_span, self.id@)
        &&& span_in(s, self.span)
    }
}

impl ResourceLine {
    /// The line lies in `s`, and its index refers to one of the items that
    /// a document with these numbers of items has.
    pub open spec fn wf(
        &self,
        s: Seq<char>,
        n_sections: int,
        n_entries: int,
        n_metadata: int,
        n_comments: int,
    ) -> bool {
        match self {
            ResourceLine::Frontmatter { span } => span_in(s, *span),
            ResourceLine::SectionHead { span, section_idx } => span_in(s, *span) && *section_idx
                < n_sections,
            ResourceLine::Entry { span, entry_idx } => span_in(s, *span) && *entry_idx < n_entries,
            ResourceLine::Metadata { span, metadata_idx } => span_in(s, *span) && *metadata_idx
                < n_metadata,
            ResourceLine::Comment { span, comment_idx } => span_in(s, *span) && *comment_idx
                < n_comments,
            ResourceLine::Empty { span } => span_in(s, *span),
            ResourceLine::Invalid { span } => span_in(s, *span),
        }
    }
}

impl<'text> ResourceDoc<'text> {
    /// Every item lies in `s`, and every index refers to an existing item.
    pub open spec fn wf(&self, s: Seq<char>) -> bool {
        &&& forall|i: int|
            0 <= i < self.lines.len() ==> #[trigger] self.lines[i].wf(
                s,
                self.sections.len() as int,
                self.entries.len() as int,
                self.metadata.len() as int,
                self.comments.len() as int,
            )
        &&& forall|i: int|
            0 <= i < self.entries.len() ==> #[trigger] self.entries[i].wf(
                s,
                self.metadata.len() as int,
                self.comments.len() as int,
            )
        &&& forall|i: int| 0 <= i < self.sections.len() ==> #[trigger] self.sections[i].wf(s)
        &&& forall|i: int| 0 <= i < self.metadata.len() ==> #[trigger] self.metadata[i].wf(s)
        &&& forall|i: int| 0 <= i < self.comments.len() ==> span_in(s, #[trigger] self.comments[i].span)
        &&& self.frontmatter matches Some(f) ==> span_in(s, f.span)
    }
}

impl ResourceDiagnostic {
    /// A structural error whose span lies in `s`.
    pub open spec fn wf(&self, s: Seq<char>) -> bool {
        &&& span_in(s, self.span)
        &&& self.severity == ResourceDiagnosticSeverity::Error
        &&& self.category == ResourceDiagnosticCategory::Structure
    }
}

/// A structural error with its code and message.
fn diag(code: &'static str, message: &'static str, span: Span) -> (r: ResourceDiagnostic)
    ensures
        r.code == code,
        r.message@ == message@,
        r.span == span,
        r.severity == ResourceDiagnosticSeverity::Error,
        r.category == ResourceDiagnosticCategory::Structure,
{
    ResourceDiagnostic {
        code,
        message: message.to_owned(),
        span,
        severity: ResourceDiagnosticSeverity::Error,
        category: ResourceDiagnosticCategory::Structure,
    }
}

/// Reads a value from index `vs` of line `start_idx` on, with the indented
/// lines that follow as its continuation, each after a line feed and
/// without its indentation. Returns it with the number of continuation
/// lines.
fn parse_multiline_value(
    src: &Source,
    lines: &Vec<RawLine>,
    start_idx: usize,
    vs: usize,
) -> (r: (ResourceValue, usize))
    requires
        src.wf(),
        lines_wf(src.s(), lines@),
        start_idx < lines.len(),
        lines[start_idx as int].start <= vs <= lines[start_idx as int].content_end,
    ensures
        r.0.wf(src.s()),
        start_idx + r.1 < lines.len(),
        r.0.span.start.byte() == byte_offset(src.s(), vs as int),
        r.0.span.end.byte() == byte_offset(
            src.s(),
            lines[start_idx + r.1].content_end as int,
        ),
        value_model(r.0) == value_read(src.s(), lines@, start_idx as int, vs as int).0,
        r.1 == value_read(src.s(), lines@, start_idx as int, vs as int).1,
{
    let mut text = String::new();
    let mut source_offsets: Vec<u32> = Vec::new();
    proof {
        assert(encode_utf8(text@) =~= Seq::<u8>::empty());
    }
    let first = &lines[start_idx];
    assert(lines[start_idx as int].wf(src.s()));
    src.append(vs, first.content_end, &mut text, &mut source_offsets);
    let mut consumed: usize = 0;
    let mut end_idx = first.content_end;
    let mut i = start_idx + 1;
    let ghost s = src.s();
    let ghost ls = lines@;
    proof {
        assert(text@ =~= value_text(s, ls, start_idx as int, vs as int, 0));
        assert(source_offsets@ =~= value_offsets(s, ls, start_idx as int, vs as int, 0));
    }
    while i < lines.len()
        invariant
            src.wf(),
            lines_wf(src.s(), lines@),
            s == src.s(),
            ls == lines@,
            start_idx < i <= lines.len(),
            i == start_idx + consumed + 1,
            end_idx == lines[i - 1].content_end,
            vs <= end_idx,
            maps_to_source(text@, source_offsets@, src.s()),
            text@ == value_text(s, ls, start_idx as int, vs as int, consumed as int),
            source_offsets@ == value_offsets(s, ls, start_idx as int, vs as int, consumed as int),
            continuation_count(s, ls, start_idx + 1) == consumed + continuation_count(s, ls, i as int),
        ensures
            i >= lines.len() || !continues(s, ls, i as int),
        decreases lines.len() - i,
    {
        let line = &lines[i];
        let prev = &lines[i - 1];
        assert(lines[i as int].wf(src.s()));
        assert(lines[i - 1].wf(src.s()));
        if !(line.start < line.content_end && is_blank(src.at(line.start))) {
            break;
        }
        proof {
            assert(lines[i as int].start == lines[i - 1].end + 1);
        }
        let ghost t0 = text@;
        let ghost m0 = source_offsets@;
        assert(s[prev.end as int] == '\n');
        src.append_char(prev.end, &mut text, &mut source_offsets);
        let indent_end = src.skip_blanks(line.start, line.content_end);
        src.append(indent_end, line.content_end, &mut text, &mut source_offsets);
        proof {
            assert(continues(s, ls, i as int));
            assert(ls[start_idx + consumed + 1] == ls[i as int]);
            assert(ls[start_idx + consumed + 1 - 1] == ls[i - 1]);
            assert(text@ =~= value_text(s, ls, start_idx as int, vs as int, consumed + 1));
            assert(source_offsets@ =~= value_offsets(s, ls, start_idx as int, vs as int, consumed + 1));
        }
        consumed = consumed + 1;
        end_idx = line.content_end;
        i = i + 1;
    }
    assert(lines[i - 1].wf(src.s()));
    assert(continuation_count(s, ls, i as int) == 0);
    let span = src.span(vs, end_idx);
    (ResourceValue { text, source_offsets, span }, consumed)
}

/// Lines that refer to items keep doing so as items are added.
proof fn lemma_lines_grow(
    lines: Seq<ResourceLine>,
    s: Seq<char>,
    a: int,
    b: int,
    c: int,
    d: int,
    a2: int,
    b2: int,
    c2: int,
    d2: int,
)
    requires
        forall|i: int| 0 <= i < lines.len() ==> #[trigger] lines[i].wf(s, a, b, c, d),
        a <= a2,
        b <= b2,
        c <= c2,
        d <= d2,
    ensures
        forall|i: int| 0 <= i < lines.len() ==> #[trigger] lines[i].wf(s, a2, b2, c2, d2),
{
    assert forall|i: int| 0 <= i < lines.len() implies #[trigger] lines[i].wf(s, a2, b2, c2, d2) by {
        assert(lines[i].wf(s, a, b, c, d));
    }
}

impl<'text> ResourceDoc<'text> {
    fn new() -> (r: Self)
        ensures
            forall|s: Seq<char>| r.wf(s),
            r.lines.len() == 0,
            r.entries.len() == 0,
            r.sections.len() == 0,
            r.metadata.len() == 0,
            r.comments.len() == 0,
            r.frontmatter is None,
    {
        ResourceDoc {
            lines: Vec::new(),
            entries: Vec::new(),
            sections: Vec::new(),
            metadata: Vec::new(),
            comments: Vec::new(),
            frontmatter: None,
        }
    }

    fn add_line(&mut self, line: ResourceLine, Ghost(s): Ghost<Seq<char>>)
        requires
            old(self).wf(s),
            line.wf(
                s,
                old(self).sections.len() as int,
                old(self).entries.len() as int,
                old(self).metadata.len() as int,
                old(self).comments.len() as int,
            ),
        ensures
            final(self).wf(s),
            final(self).lines@ == old(self).lines@.push(line),
            final(self).entries@ == old(self).entries@,
            final(self).sections@ == old(self).sections@,
            final(self).metadata@ == old(self).metadata@,
            final(self).comments@ == old(self).comments@,
            final(self).frontmatter == old(self).frontmatter,
    {
        let ghost prev = self.lines@;
        self.lines.push(line);
        proof {
            assert forall|i: int| 0 <= i < self.lines.len() implies #[trigger] self.lines[i].wf(
                s,
                self.sections.len() as int,
                self.entries.len() as int,
                self.metadata.len() as int,
                self.comments.len() as int,
            ) by {
                if i < prev.len() {
                    assert(self.lines@[i] == prev[i]);
                }
            }
        }
    }

    fn add_comment(&mut self, comment: Comment, Ghost(s): Ghost<Seq<char>>) -> (r: usize)
        requires
            old(self).wf(s),
            span_in(s, comment.span),
        ensures
            final(self).wf(s),
            r == old(self).comments.len(),
            final(self).comments.len() == old(self).comments.len() + 1,
            final(self).sections.len() == old(self).sections.len(),
            final(self).entries.len() == old(self).entries.len(),
            final(self).metadata@ == old(self).metadata@,
            final(self).comments@ == old(self).comments@.push(comment),
            final(self).lines@ == old(self).lines@,
            final(self).entries@ == old(self).entries@,
            final(self).sections@ == old(self).sections@,
            final(self).frontmatter == old(self).frontmatter,
    {
        let r = self.comments.len();
        let ghost prev = self.comments@;
        self.comments.push(comment);
        proof {
            lemma_lines_grow(
                self.lines@,
                s,
                self.sections.len() as int,
                self.entries.len() as int,
                self.metadata.len() as int,
                prev.len() as int,
                self.sections.len() as int,
                self.entries.len() as int,
                self.metadata.len() as int,
                self.comments.len() as int,
            );
            assert forall|i: int| 0 <= i < self.comments.len() implies span_in(
                s,
                #[trigger] self.comments[i].span,
            ) by {
                if i < prev.len() {
                    assert(self.comments@[i] == prev[i]);
                }
            }
            assert forall|i: int| 0 <= i < self.entries.len() implies #[trigger] self.entries[i].wf(
                s,
                self.metadata.len() as int,
                self.comments.len() as int,
            ) by {
                assert(self.entries[i].wf(s, self.metadata.len() as int, prev.len() as int));
            }
        }
        r
    }

    fn add_section(&mut self, section: Section<'text>, Ghost(s): Ghost<Seq<char>>) -> (r: usize)
        requires
            old(self).wf(s),
            section.wf(s),
        ensures
            final(self).wf(s),
            r == old(self).sections.len(),
            final(self).sections.len() == old(self).sections.len() + 1,
            final(self).comments.len() == old(self).comments.len(),
            final(self).entries.len() == old(self).entries.len(),
            final(self).metadata@ == old(self).metadata@,
            final(self).sections@ == old(self).sections@.push(section),
            final(self).lines@ == old(self).lines@,
            final(self).entries@ == old(self).entries@,
            final(self).comments@ == old(self).comments@,
            final(self).frontmatter == old(self).frontmatter,
    {
        let r = self.sections.len();
        let ghost prev = self.sections@;
        self.sections.push(section);
        proof {
            lemma_lines_grow(
                self.lines@,
                s,
                prev.len() as int,
                self.entries.len() as int,
                self.metadata.len() as int,
                self.comments.len() as int,
                self.sections.len() as int,
                self.entries.len() as int,
                self.metadata.len() as int,
                self.comments.len() as int,
            );
            assert forall|i: int| 0 <= i < self.sections.len() implies #[trigger] self.sections[i].wf(
                s,
            ) by {
                if i < prev.len() {
                    assert(self.sections@[i] == prev[i]);
                }
            }
        }
        r
    }

    fn add_metadata(&mut self, metadata: Metadata<'text>, Ghost(s): Ghost<Seq<char>>) -> (r: usize)
        requires
            old(self).wf(s),
            metadata.wf(s),
        ensures
            final(self).wf(s),
            r == old(self).metadata.len(),
            final(self).metadata.len() == old(self).metadata.len() + 1,
            forall|i: int| 0 <= i < old(self).metadata.len() ==> #[trigger] final(self).metadata[i]
                == old(self).metadata[i],
            final(self).comments.len() == old(self).comments.len(),
            final(self).sections.len() == old(self).sections.len(),
            final(self).entries.len() == old(self).entries.len(),
            final(self).metadata@ == old(self).metadata@.push(metadata),
            final(self).lines@ == old(self).lines@,
            final(self).entries@ == old(self).entries@,
            final(self).sections@ == old(self).sections@,
            final(self).comments@ == old(self).comments@,
            final(self).frontmatter == old(self).frontmatter,
    {
        let r = self.metadata.len();
        let ghost prev = self.metadata@;
        self.metadata.push(metadata);
        proof {
            lemma_lines_grow(
                self.lines@,
                s,
                self.sections.len() as int,
                self.entries.len() as int,
                prev.len() as int,
                self.comments.len() as int,
                self.sections.len() as int,
                self.entries.len() as int,
                self.metadata.len() as int,
                self.comments.len() as int,
            );
            assert forall|i: int| 0 <= i < self.metadata.len() implies #[trigger] self.metadata[i].wf(
                s,
            ) by {
                if i < prev.len() {
                    assert(self.metadata@[i] == prev[i]);
                }
            }
            assert forall|i: int| 0 <= i < self.entries.len() implies #[trigger] self.entries[i].wf(
                s,
                self.metadata.len() as int,
                self.comments.len() as int,
            ) by {
                assert(self.entries[i].wf(s, prev.len() as int, self.comments.len() as int));
            }
        }
        r
    }

    fn add_entry(&mut self, entry: Entry<'text>, Ghost(s): Ghost<Seq<char>>) -> (r: usize)
        requires
            old(self).wf(s),
            entry.wf(s, old(self).metadata.len() as int, old(self).comments.len() as int),
        ensures
            final(self).wf(s),
            r == old(self).entries.len(),
            final(self).entries.len() == old(self).entries.len() + 1,
            final(self).metadata@ == old(self).metadata@,
            final(self).comments.len() == old(self).comments.len(),
            final(self).sections.len() == old(self).sections.len(),
            final(self).entries@ == old(self).entries@.push(entry),
            final(self).lines@ == old(self).lines@,
            final(self).sections@ == old(self).sections@,
            final(self).comments@ == old(self).comments@,
            final(self).frontmatter == old(self).frontmatter,
    {
        let r = self.entries.len();
        let ghost prev = self.entries@;
        self.entries.push(entry);
        proof {
            lemma_lines_grow(
                self.lines@,
                s,
                self.sections.len() as int,
                prev.len() as int,
                self.metadata.len() as int,
                self.comments.len() as int,
                self.sections.len() as int,
                self.entries.len() as int,
                self.metadata.len() as int,
                self.comments.len() as int,
            );
            assert forall|i: int| 0 <= i < self.entries.len() implies #[trigger] self.entries[i].wf(
                s,
                self.metadata.len() as int,
                self.comments.len() as int,
            ) by {
                if i < prev.len() {
                    assert(self.entries@[i] == prev[i]);
                }
            }
        }
        r
    }
}

/// Reports each pending metadata line as dangling, and forgets them.
fn flush_pending_metadata(
    diagnostics: &mut Vec<ResourceDiagnostic>,
    doc: &ResourceDoc,
    pending: &mut Vec<usize>,
    Ghost(s): Ghost<Seq<char>>,
)
    requires
        doc.wf(s),
        forall|i: int| 0 <= i < old(pending).len() ==> #[trigger] old(pending)[i] < doc.metadata.len(),
        forall|i: int| 0 <= i < old(diagnostics).len() ==> #[trigger] old(diagnostics)[i].wf(s),
    ensures
        final(pending).len() == 0,
        forall|i: int| 0 <= i < final(diagnostics).len() ==> #[trigger] final(diagnostics)[i].wf(s),
        adds_diagnostics(old(diagnostics)@, final(diagnostics)@, old(pending).len() as int),
        dangling_at(final(diagnostics)@, old(diagnostics).len() as int, old(pending)@, doc.metadata@),
{
    let mut k: usize = 0;
    while k < pending.len()
        invariant
            doc.wf(s),
            k <= pending.len(),
            pending@ == old(pending)@,
            forall|i: int| 0 <= i < pending.len() ==> #[trigger] pending[i] < doc.metadata.len(),
            forall|i: int| 0 <= i < diagnostics.len() ==> #[trigger] diagnostics[i].wf(s),
            adds_diagnostics(old(diagnostics)@, diagnostics@, k as int),
            dangling_at(diagnostics@, old(diagnostics).len() as int, pending@.take(k as int), doc.metadata@),
        decreases pending.len() - k,
    {
        let idx = pending[k];
        assert(doc.metadata[idx as int].wf(s));
        let span = doc.metadata[idx].span;
        let ghost prev = diagnostics@;
        diagnostics.push(
            diag(
                "dangling-metadata",
                "Metadata must attach to a subsequent frontmatter, section header, or entry without comments/empty lines in between.",
                span,
            ),
        );
        proof {
            assert forall|i: int| 0 <= i < diagnostics.len() implies #[trigger] diagnostics[i].wf(s) by {
                if i < prev.len() {
                    assert(diagnostics@[i] == prev[i]);
                }
            }
            let base = old(diagnostics).len() as int;
            assert forall|j: int| 0 <= j < k + 1 implies is_structural(
                #[trigger] diagnostics@[base + j],
                "dangling-metadata",
                dangling_message(),
                doc.metadata@[pending@.take(k + 1)[j] as int].span,
            ) by {
                if j < k {
                    assert(diagnostics@[base + j] == prev[base + j]);
                    assert(pending@.take(k + 1)[j] == pending@.take(k as int)[j]);
                }
            }
            assert forall|i: int| 0 <= i < old(diagnostics).len() implies #[trigger] diagnostics@[i]
                == old(diagnostics)@[i] by {
                assert(diagnostics@[i] == prev[i]);
            }
        }
        k = k + 1;
    }
    assert(pending@.take(k as int) =~= old(pending)@);
    pending.clear();
}

impl<'t> Source<'t> {
    /// Whether the line holds only spaces and tabs.
    fn line_is_blank(&self, line: &RawLine) -> (r: bool)
        requires
            line.wf(self.s()),
        ensures
            r == forall|k: int| line.start <= k < line.content_end ==> blank_char(#[trigger] self.s()[k]),
    {
        self.skip_blanks(line.start, line.content_end) == line.content_end
    }

    /// Whether the line starts with `c`.
    fn line_starts_with(&self, line: &RawLine, c: char) -> (r: bool)
        requires
            line.wf(self.s()),
        ensures
            r == (line.start < line.content_end && self.s()[line.start as int] == c),
    {
        line.start < line.content_end && self.chars[line.start] == c
    }

    /// Whether the line starts with a space or a tab.
    fn line_starts_with_blank(&self, line: &RawLine) -> (r: bool)
        requires
            line.wf(self.s()),
        ensures
            r == (line.start < line.content_end && blank_char(self.s()[line.start as int])),
    {
        line.start < line.content_end && is_blank(self.chars[line.start])
    }

    /// Whether the line is `---`, spaces and tabs after it aside.
    fn is_frontmatter(&self, line: &RawLine) -> (r: bool)
        requires
            line.wf(self.s()),
        ensures
            r == frontmatter_line(self.s(), line.start as int, line.content_end as int),
    {
        let mut e = line.content_end;
        while e > line.start && is_blank(self.chars[e - 1])
            invariant
                line.start <= e <= line.content_end <= self.s().len(),
                forall|k: int| e <= k < line.content_end ==> blank_char(#[trigger] self.s()[k]),
            decreases e - line.start,
        {
            e = e - 1;
        }
        e - line.start == 3 && self.chars[line.start] == '-' && self.chars[line.start + 1] == '-'
            && self.chars[line.start + 2] == '-'
    }

    /// Reads a section head `[id]`: the bounds of the id without white space
    /// around it, and the first index of the line at which its text stands.
    fn parse_section(&self, line: &RawLine) -> (r: Option<(usize, usize, usize)>)
        requires
            line.wf(self.s()),
            line.start < line.content_end,
            self.s()[line.start as int] == '[',
        ensures
            r matches Some((a, b, i)) ==> {
                &&& line.start < a < b <= line.content_end
                &&& line.start <= i <= a
                &&& self.s().subrange(i as int, i + (b - a)) == self.s().subrange(a as int, b as int)
            },
            r is Some == section_head(self.s(), line.start as int, line.content_end as int) is Some,
            r matches Some((a, b, i)) ==> section_head(
                self.s(),
                line.start as int,
                line.content_end as int,
            ) == Some((a as int, b as int)) && i == first_match(
                self.s(),
                line.start as int,
                a as int,
                b as int,
            ),
    {
        let ce = line.content_end;
        let closing = match self.rfind_char(line.start, ce, ']') {
            Some(c) => c,
            None => {
                return None;
            },
        };
        if closing == line.start {
            return None;
        }
        if self.trim_start_index(closing + 1, ce) < ce {
            return None;
        }
        let a = self.trim_start_index(line.start + 1, closing);
        let b = self.trim_end_index(a, closing);
        if a == b {
            return None;
        }
        let i = self.find_text(line.start, a, b);
        Some((a, b, i))
    }

    /// Reads a metadata head `@name value`: the end of the name, which
    /// starts after the `@`, and the start of the value, if there is one.
    fn parse_metadata_header(&self, line: &RawLine) -> (r: Option<(usize, Option<usize>)>)
        requires
            line.wf(self.s()),
            line.start < line.content_end,
            self.s()[line.start as int] == '@',
        ensures
            r matches Some((e, v)) ==> {
                &&& line.start + 1 < e <= line.content_end
                &&& v matches Some(vs) ==> e <= vs < line.content_end
            },
            r is Some == metadata_header(self.s(), line.start as int, line.content_end as int) is Some,
            r matches Some((e, v)) ==> metadata_header(
                self.s(),
                line.start as int,
                line.content_end as int,
            ) == Some((e as int, match v {
                Some(vs) => Some(vs as int),
                None => None::<int>,
            })),
    {
        let ce = line.content_end;
        let mut e = line.start + 1;
        while e < ce && !is_blank(self.chars[e])
            invariant
                line.start < e <= ce <= self.s().len(),
                forall|k: int| line.start + 1 <= k < e ==> !blank_char(#[trigger] self.s()[k]),
            decreases ce - e,
        {
            e = e + 1;
        }
        proof {
            lemma_word_end(self.s(), line.start + 1, ce as int, e as int);
        }
        if e <= line.start + 1 {
            return None;
        }
        let v = self.skip_blanks(e, ce);
        let value_start = if v < ce {
            Some(v)
        } else {
            None
        };
        Some((e, value_start))
    }

    /// Reads an entry head `id = value`: the end of the id, which starts the
    /// line, and the start of the value. The line does not start with a
    /// space or a tab.
    fn parse_entry_header(&self, line: &RawLine) -> (r: Option<(usize, usize)>)
        requires
            line.wf(self.s()),
        ensures
            r matches Some((t, vs)) ==> line.start < t < vs <= line.content_end,
            r is Some == entry_header(self.s(), line.start as int, line.content_end as int) is Some,
            r matches Some((t, vs)) ==> entry_header(self.s(), line.start as int, line.content_end as int)
                == Some((t as int, vs as int)),
    {
        let ce = line.content_end;
        let eq = match self.find_char(line.start, ce, '=') {
            Some(eq) => eq,
            None => {
                return None;
            },
        };
        let t = self.trim_end_index(line.start, eq);
        if t == line.start {
            return None;
        }
        let v = self.skip_blanks(eq + 1, ce);
        let vs = if v < ce {
            v
        } else {
            eq + 1
        };
        Some((t, vs))
    }
}

/// The state of reading a resource, line by line.
struct Reader<'t> {
    src: Source<'t>,
    lines: Vec<RawLine>,
    doc: ResourceDoc<'t>,
    diagnostics: Vec<ResourceDiagnostic>,
    seen_frontmatter: bool,
    seen_section_or_entry: bool,
    section_path: Vec<&'t str>,
    pending_metadata: Vec<usize>,
    pending_comments: Vec<usize>,
}

impl<'t> Reader<'t> {
    spec fn s(&self) -> Seq<char> {
        self.src.s()
    }

    spec fn inv(&self) -> bool {
        &&& self.src.wf()
        &&& lines_wf(self.s(), self.lines@)
        &&& self.doc.wf(self.s())
        &&& forall|i: int| 0 <= i < self.diagnostics.len() ==> #[trigger] self.diagnostics[i].wf(self.s())
        &&& forall|i: int|
            0 <= i < self.pending_metadata.len() ==> #[trigger] self.pending_metadata[i]
                < self.doc.metadata.len()
        &&& forall|i: int|
            0 <= i < self.pending_comments.len() ==> #[trigger] self.pending_comments[i]
                < self.doc.comments.len()
    }

    /// The state of the reading, as values.
    spec fn model(&self) -> ReadState {
        ReadState {
            doc: doc_model(self.doc),
            diagnostics: diagnostics_model(self.diagnostics@),
            seen_frontmatter: self.seen_frontmatter,
            seen_section_or_entry: self.seen_section_or_entry,
            path: self.section_path@.map_values(|x: &str| x@),
            pending_metadata: self.pending_metadata@,
            pending_comments: self.pending_comments@,
        }
    }

    /// `new` is `old` with at most its diagnostics, pending items and
    /// document changed.
    spec fn keeps_reading(old: &Self, new: &Self) -> bool {
        &&& new.src == old.src
        &&& new.lines@ == old.lines@
        &&& new.seen_frontmatter == old.seen_frontmatter
        &&& new.seen_section_or_entry == old.seen_section_or_entry
        &&& new.section_path@ == old.section_path@
    }

    /// `new` is `old` with only its diagnostics changed.
    spec fn keeps_all_but_diagnostics(old: &Self, new: &Self) -> bool {
        &&& Self::keeps_reading(old, new)
        &&& new.doc == old.doc
        &&& new.pending_metadata@ == old.pending_metadata@
        &&& new.pending_comments@ == old.pending_comments@
    }

    /// `new` is `old` with a line that fits no form: the diagnostic with
    /// `code`, `message` and `span`, then each pending metadata item reported
    /// as dangling; the line recorded as invalid; nothing pending any more.
    spec fn invalid_line_added(old: &Self, new: &Self, code: &str, message: Seq<char>, span: Span) -> bool {
        &&& Self::keeps_reading(old, new)
        &&& adds_diagnostics(old.diagnostics@, new.diagnostics@, 1 + old.pending_metadata.len())
        &&& is_structural(new.diagnostics@[old.diagnostics.len() as int], code, message, span)
        &&& dangling_at(
            new.diagnostics@,
            old.diagnostics.len() + 1,
            old.pending_metadata@,
            old.doc.metadata@,
        )
        &&& new.doc.lines@ == old.doc.lines@.push(ResourceLine::Invalid { span })
        &&& new.doc.entries@ == old.doc.entries@
        &&& new.doc.sections@ == old.doc.sections@
        &&& new.doc.metadata@ == old.doc.metadata@
        &&& new.doc.comments@ == old.doc.comments@
        &&& new.doc.frontmatter == old.doc.frontmatter
        &&& new.pending_metadata.len() == 0
        &&& new.pending_comments.len() == 0
    }

    /// `new` is `old` after reading more, over the same text and lines.
    spec fn step(old: &Self, new: &Self) -> bool {
        &&& new.inv()
        &&& new.s() == old.s()
        &&& new.lines@ == old.lines@
    }

    fn report(&mut self, code: &'static str, message: &'static str, span: Span)
        requires
            old(self).inv(),
            span_in(old(self).s(), span),
        ensures
            Self::step(old(self), final(self)),
            final(self).doc.metadata.len() == old(self).doc.metadata.len(),
            final(self).doc.comments.len() == old(self).doc.comments.len(),
            Self::keeps_all_but_diagnostics(old(self), final(self)),
            adds_diagnostics(old(self).diagnostics@, final(self).diagnostics@, 1),
            is_structural(
                final(self).diagnostics@[old(self).diagnostics.len() as int],
                code,
                message@,
                span,
            ),
            final(self).model() == reported(old(self).model(), structural(code@, message@, span)),
    {
        let ghost prev = self.diagnostics@;
        self.diagnostics.push(diag(code, message, span));
        proof {
            assert forall|i: int| 0 <= i < self.diagnostics.len() implies #[trigger] self.diagnostics[i].wf(
                self.s(),
            ) by {
                if i < prev.len() {
                    assert(self.diagnostics@[i] == prev[i]);
                }
            }
            assert forall|i: int| 0 <= i < prev.len() implies #[trigger] self.diagnostics@[i] == prev[i] by {
            }
            assert(diagnostics_model(self.diagnostics@) =~= diagnostics_model(prev).push(
                structural(code@, message@, span),
            ));
            assert(self.model() =~= reported(old(self).model(), structural(code@, message@, span)));
        }
    }

    /// Reports pending metadata as dangling, and forgets pending comments.
    fn detach(&mut self)
        requires
            old(self).inv(),
        ensures
            Self::step(old(self), final(self)),
            Self::keeps_reading(old(self), final(self)),
            final(self).doc == old(self).doc,
            adds_diagnostics(
                old(self).diagnostics@,
                final(self).diagnostics@,
                old(self).pending_metadata.len() as int,
            ),
            dangling_at(
                final(self).diagnostics@,
                old(self).diagnostics.len() as int,
                old(self).pending_metadata@,
                old(self).doc.metadata@,
            ),
            final(self).pending_metadata.len() == 0,
            final(self).pending_comments.len() == 0,
            final(self).model() == detached(old(self).model()),
    {
        let ghost s = self.s();
        flush_pending_metadata(
            &mut self.diagnostics,
            &self.doc,
            &mut self.pending_metadata,
            Ghost(s),
        );
        self.pending_comments.clear();
        proof {
            let om = old(self).model();
            let n = old(self).diagnostics.len() as int;
            let dd = dangling_diagnostics(om.pending_metadata, om.doc.metadata);
            assert forall|j: int| 0 <= j < dd.len() implies #[trigger] diagnostics_model(self.diagnostics@)[n + j]
                == dd[j] by {
                assert(is_structural(
                    self.diagnostics@[n + j],
                    "dangling-metadata",
                    dangling_message(),
                    old(self).doc.metadata@[old(self).pending_metadata@[j] as int].span,
                ));
            }
            assert forall|i: int| 0 <= i < n implies #[trigger] diagnostics_model(self.diagnostics@)[i]
                == om.diagnostics[i] by {
                assert(self.diagnostics@[i] == old(self).diagnostics@[i]);
            }
            let fm = diagnostics_model(self.diagnostics@);
            assert(fm.len() == (om.diagnostics + dd).len());
            assert forall|i: int| 0 <= i < fm.len() implies #[trigger] fm[i] == (om.diagnostics + dd)[i] by {
                if i < n {
                    assert(fm[i] == om.diagnostics[i]);
                } else {
                    assert(fm[n + (i - n)] == dd[i - n]);
                }
            }
            assert(fm =~= om.diagnostics + dd);
            assert(self.model() =~= detached(om));
        }
    }

    /// Records a line that fits no form, with its diagnostic.
    fn invalid_line(&mut self, code: &'static str, message: &'static str, span: Span)
        requires
            old(self).inv(),
            span_in(old(self).s(), span),
        ensures
            Self::step(old(self), final(self)),
            Self::invalid_line_added(old(self), final(self), code, message@, span),
            final(self).model() == invalid_read(old(self).model(), code@, message@, span),
    {
        self.report(code, message, span);
        let ghost reported = self.diagnostics@;
        let ghost m1 = self.model();
        self.doc.add_line(ResourceLine::Invalid { span }, Ghost(self.s()));
        proof {
            assert(self.model() =~= with_line(m1, ResourceLine::Invalid { span }));
        }
        self.detach();
        proof {
            let n = old(self).diagnostics.len() as int;
            assert(self.diagnostics@[n] == reported[n]);
            assert forall|i: int| 0 <= i < n implies #[trigger] self.diagnostics@[i] == old(self).diagnostics@[i] by {
                assert(self.diagnostics@[i] == reported[i]);
            }
        }
    }

    /// Reads a `[section]` head at line `idx`.
    fn read_section(&mut self, idx: usize)
        requires
            old(self).inv(),
            idx < old(self).lines.len(),
            old(self).lines[idx as int].start < old(self).lines[idx as int].content_end,
            old(self).s()[old(self).lines[idx as int].start as int] == '[',
        ensures
            Self::step(old(self), final(self)),
            final(self).model() == section_read(old(self).s(), old(self).lines@, old(self).model(), idx as int),
    {
        let line = &self.lines[idx];
        assert(self.lines[idx as int].wf(self.s()));
        let span = self.src.span(line.start, line.content_end);
        match self.src.parse_section(line) {
            Some((a, b, i)) => {
                let id_span = self.src.span(i, i + (b - a));
                let id = self.src.slice(a, b);
                proof {
                    lemma_slice_at(self.s(), i as int, i + (b - a));
                }
                if !self.src.is_valid_id(a, b) {
                    self.report(
                        "invalid-section-id",
                        "Section identifier is not a valid resource id.",
                        id_span,
                    );
                }
                let ghost m1 = self.model();
                self.section_path = self.src.section_path(a, b);
                let ghost before = self.doc.sections@;
                let section_idx = self.doc.add_section(Section { id, id_span, span }, Ghost(self.s()));
                self.doc.add_line(ResourceLine::SectionHead { span, section_idx }, Ghost(self.s()));
                self.seen_section_or_entry = true;
                self.pending_metadata.clear();
                self.pending_comments.clear();
                proof {
                    let sm = SectionModel { id: self.s().subrange(a as int, b as int), id_span, span };
                    assert(section_model(Section { id, id_span, span }) == sm);
                    assert(doc_model(self.doc).sections =~= m1.doc.sections.push(sm));
                    assert(self.model() =~= section_read(
                        old(self).s(),
                        old(self).lines@,
                        old(self).model(),
                        idx as int,
                    ));
                }
            },
            None => {
                self.invalid_line(
                    "invalid-section-syntax",
                    "Section header must use [id] syntax.",
                    span,
                );
            },
        }
    }

    /// Reads an `@name value` metadata line at line `idx`, with the value's
    /// continuation lines; returns the index of the next line.
    fn read_metadata(&mut self, idx: usize) -> (r: usize)
        requires
            old(self).inv(),
            idx < old(self).lines.len(),
            old(self).lines[idx as int].start < old(self).lines[idx as int].content_end,
            old(self).s()[old(self).lines[idx as int].start as int] == '@',
        ensures
            Self::step(old(self), final(self)),
            idx < r <= old(self).lines.len(),
            final(self).model() == metadata_read(old(self).s(), old(self).lines@, old(self).model(), idx as int).0,
            r == metadata_read(old(self).s(), old(self).lines@, old(self).model(), idx as int).1,
    {
        let line = &self.lines[idx];
        assert(self.lines[idx as int].wf(self.s()));
        let span = self.src.span(line.start, line.content_end);
        match self.src.parse_metadata_header(line) {
            Some((e, value_start)) => {
                let name_start = line.start + 1;
                let name_span = self.src.span(name_start, e);
                let name = self.src.slice(name_start, e);
                proof {
                    lemma_slice_at(self.s(), name_start as int, e as int);
                }
                if !self.src.is_valid_id_part(name_start, e) {
                    self.report(
                        "invalid-metadata-name",
                        "Metadata key must be a valid id-part.",
                        name_span,
                    );
                }
                let ghost m1 = self.model();
                let (value, consumed) = match value_start {
                    Some(vs) => {
                        let (v, c) = parse_multiline_value(&self.src, &self.lines, idx, vs);
                        (Some(v), c)
                    },
                    None => (None, 0),
                };
                let ghost mm = MetadataModel {
                    name: self.s().subrange(name_start as int, e as int),
                    name_span,
                    value: match &value {
                        Some(v) => Some(value_model(*v)),
                        None => None,
                    },
                    span,
                };
                let metadata_idx = self.doc.add_metadata(
                    Metadata { name, name_span, value, span },
                    Ghost(self.s()),
                );
                proof {
                    assert(doc_model(self.doc).metadata =~= m1.doc.metadata.push(mm));
                }
                self.doc.add_line(ResourceLine::Metadata { span, metadata_idx }, Ghost(self.s()));
                let ghost prev = self.pending_metadata@;
                self.pending_metadata.push(metadata_idx);
                proof {
                    assert forall|i: int| 0 <= i < self.pending_metadata.len() implies #[trigger] self.pending_metadata[i]
                        < self.doc.metadata.len() by {
                        if i < prev.len() {
                            assert(self.pending_metadata@[i] == prev[i]);
                        }
                    }
                    assert(self.model() =~= metadata_read(
                        old(self).s(),
                        old(self).lines@,
                        old(self).model(),
                        idx as int,
                    ).0);
                }
                idx + consumed + 1
            },
            None => {
                self.invalid_line(
                    "invalid-metadata-syntax",
                    "Metadata line must start with @key and optional value.",
                    span,
                );
                idx + 1
            },
        }
    }

    /// Reads an `id = value` entry at line `idx`, whose value is at `vs`,
    /// with its continuation lines; returns the index of the next line.
    fn read_entry(&mut self, idx: usize, t: usize, vs: usize) -> (r: usize)
        requires
            old(self).inv(),
            idx < old(self).lines.len(),
            old(self).lines[idx as int].start < t < vs <= old(self).lines[idx as int].content_end,
        ensures
            Self::step(old(self), final(self)),
            idx < r <= old(self).lines.len(),
            final(self).model() == entry_read(
                old(self).s(),
                old(self).lines@,
                old(self).model(),
                idx as int,
                t as int,
                vs as int,
            ).0,
            r == entry_read(old(self).s(), old(self).lines@, old(self).model(), idx as int, t as int, vs as int).1,
    {
        let line_start = self.lines[idx].start;
        assert(self.lines[idx as int].wf(self.s()));
        self.seen_section_or_entry = true;
        let id_span = self.src.span(line_start, t);
        let id = self.src.slice(line_start, t);
        proof {
            lemma_slice_at(self.s(), line_start as int, t as int);
        }
        if !self.src.is_valid_id(line_start, t) {
            self.report("invalid-entry-id", "Entry identifier is not a valid resource id.", id_span);
        }
        let ghost m1 = self.model();
        let (value, consumed) = parse_multiline_value(&self.src, &self.lines, idx, vs);
        let last_end = self.lines[idx + consumed].content_end;
        proof {
            assert(self.lines[idx + consumed].wf(self.s()));
            lemma_lines_ordered(self.s(), self.lines@, idx as int, idx + consumed);
        }
        let span = self.src.span(line_start, last_end);
        let mut attached_metadata: Vec<usize> = Vec::new();
        std::mem::swap(&mut attached_metadata, &mut self.pending_metadata);
        let mut attached_comments: Vec<usize> = Vec::new();
        std::mem::swap(&mut attached_comments, &mut self.pending_comments);
        let section_path = self.section_path.clone();
        let entry = Entry {
            id,
            id_span,
            value,
            span,
            section_path,
            attached_metadata,
            attached_comments,
        };
        let ghost em = entry_model(entry);
        proof {
            assert(em.path =~= m1.path);
            assert(em.metadata == m1.pending_metadata);
            assert(em.comments == m1.pending_comments);
        }
        let entry_idx = self.doc.add_entry(entry, Ghost(self.s()));
        self.doc.add_line(ResourceLine::Entry { span, entry_idx }, Ghost(self.s()));
        proof {
            assert(doc_model(self.doc).entries =~= m1.doc.entries.push(em));
            assert(self.model() =~= entry_read(
                old(self).s(),
                old(self).lines@,
                old(self).model(),
                idx as int,
                t as int,
                vs as int,
            ).0);
        }
        idx + consumed + 1
    }

    /// Reads the line at `idx` and, for an entry or metadata, its
    /// continuation lines; returns the index of the next line.
    fn read_line(&mut self, idx: usize) -> (r: usize)
        requires
            old(self).inv(),
            idx < old(self).lines.len(),
        ensures
            Self::step(old(self), final(self)),
            idx < r <= old(self).lines.len(),
            final(self).model() == line_read(old(self).s(), old(self).lines@, old(self).model(), idx as int).0,
            r == line_read(old(self).s(), old(self).lines@, old(self).model(), idx as int).1,
    {
        let line = &self.lines[idx];
        assert(self.lines[idx as int].wf(self.s()));
        let span = self.src.span(line.start, line.content_end);
        let ghost m0 = self.model();
        if self.src.line_is_blank(line) {
            self.doc.add_line(ResourceLine::Empty { span }, Ghost(self.s()));
            proof {
                assert(self.model() =~= with_line(m0, ResourceLine::Empty { span }));
            }
            self.detach();
            return idx + 1;
        }
        if self.src.line_starts_with_blank(line) {
            self.invalid_line(
                "invalid-line-indented",
                "Indented line is only valid as a value continuation after entry or metadata.",
                span,
            );
            return idx + 1;
        }
        if self.src.line_starts_with(line, '#') {
            let comment_idx = self.doc.add_comment(Comment { span }, Ghost(self.s()));
            self.doc.add_line(ResourceLine::Comment { span, comment_idx }, Ghost(self.s()));
            let ghost m1 = self.model();
            proof {
                assert(doc_model(self.doc).comments =~= m0.doc.comments.push(span));
            }
            let ghost s = self.s();
            let ghost d0 = self.diagnostics@;
            let ghost p0 = self.pending_metadata@;
            flush_pending_metadata(
                &mut self.diagnostics,
                &self.doc,
                &mut self.pending_metadata,
                Ghost(s),
            );
            let ghost prev = self.pending_comments@;
            self.pending_comments.push(comment_idx);
            proof {
                assert forall|i: int| 0 <= i < self.pending_comments.len() implies #[trigger] self.pending_comments[i]
                    < self.doc.comments.len() by {
                    if i < prev.len() {
                        assert(self.pending_comments@[i] == prev[i]);
                    }
                }
                let n = d0.len() as int;
                let dd = dangling_diagnostics(m1.pending_metadata, m1.doc.metadata);
                let fm = diagnostics_model(self.diagnostics@);
                assert forall|j: int| 0 <= j < dd.len() implies #[trigger] fm[n + j] == dd[j] by {
                    assert(is_structural(
                        self.diagnostics@[n + j],
                        "dangling-metadata",
                        dangling_message(),
                        self.doc.metadata@[p0[j] as int].span,
                    ));
                }
                assert forall|i: int| 0 <= i < fm.len() implies #[trigger] fm[i] == (m1.diagnostics + dd)[i] by {
                    if i < n {
                        assert(self.diagnostics@[i] == d0[i]);
                    } else {
                        assert(fm[n + (i - n)] == dd[i - n]);
                    }
                }
                assert(fm =~= m1.diagnostics + dd);
                assert(self.model() =~= comment_read(m0, span));
            }
            return idx + 1;
        }
        if self.src.is_frontmatter(line) {
            if self.seen_frontmatter {
                self.report(
                    "multiple-frontmatter",
                    "A resource may contain at most one frontmatter line.",
                    span,
                );
            }
            if self.seen_section_or_entry {
                self.report(
                    "frontmatter-order",
                    "Frontmatter must appear before any section headers or entries.",
                    span,
                );
            }
            let ghost m2 = self.model();
            self.seen_frontmatter = true;
            if self.doc.frontmatter.is_none() {
                self.doc.frontmatter = Some(Frontmatter { span });
            }
            self.doc.add_line(ResourceLine::Frontmatter { span }, Ghost(self.s()));
            self.pending_metadata.clear();
            self.pending_comments.clear();
            proof {
                assert(self.model() =~= frontmatter_read(m0, span));
            }
            return idx + 1;
        }
        if self.src.line_starts_with(line, '[') {
            self.read_section(idx);
            return idx + 1;
        }
        if self.src.line_starts_with(line, '@') {
            return self.read_metadata(idx);
        }
        match self.src.parse_entry_header(line) {
            Some((t, vs)) => self.read_entry(idx, t, vs),
            None => {
                self.invalid_line(
                    "invalid-line",
                    "Line is not valid frontmatter, section, entry, metadata, comment, or empty line.",
                    span,
                );
                idx + 1
            },
        }
    }
}

/// A value as values: its text, the byte of the file that each of its
/// bytes comes from, and its span.
#[verifier::ext_equal]
pub struct ValueModel {
    pub text: Seq<char>,
    pub offsets: Seq<u32>,
    pub span: Span,
}

/// An entry as values.
#[verifier::ext_equal]
pub struct EntryModel {
    pub id: Seq<char>,
    pub id_span: Span,
    pub value: ValueModel,
    pub span: Span,
    pub path: Seq<Seq<char>>,
    pub metadata: Seq<usize>,
    pub comments: Seq<usize>,
}

/// A metadata item as values.
#[verifier::ext_equal]
pub struct MetadataModel {
    pub name: Seq<char>,
    pub name_span: Span,
    pub value: Option<ValueModel>,
    pub span: Span,
}

/// A section as values.
#[verifier::ext_equal]
pub struct SectionModel {
    pub id: Seq<char>,
    pub id_span: Span,
    pub span: Span,
}

/// A structural error as values: its code, message and span.
#[verifier::ext_equal]
pub struct DiagnosticModel {
    pub code: Seq<char>,
    pub message: Seq<char>,
    pub span: Span,
}

/// A resource document as values.
#[verifier::ext_equal]
pub struct DocModel {
    pub lines: Seq<ResourceLine>,
    pub entries: Seq<EntryModel>,
    pub sections: Seq<SectionModel>,
    pub metadata: Seq<MetadataModel>,
    pub comments: Seq<Span>,
    pub frontmatter: Option<Span>,
}

/// The state of reading a resource, as values.
#[verifier::ext_equal]
pub struct ReadState {
    pub doc: DocModel,
    pub diagnostics: Seq<DiagnosticModel>,
    pub seen_frontmatter: bool,
    pub seen_section_or_entry: bool,
    pub path: Seq<Seq<char>>,
    pub pending_metadata: Seq<usize>,
    pub pending_comments: Seq<usize>,
}

pub open spec fn value_model(v: ResourceValue) -> ValueModel {
    ValueModel { text: v.text@, offsets: v.source_offsets@, span: v.span }
}

pub open spec fn entry_model(e: Entry) -> EntryModel {
    EntryModel {
        id: e.id@,
        id_span: e.id_span,
        value: value_model(e.value),
        span: e.span,
        path: e.section_path@.map_values(|x: &str| x@),
        metadata: e.attached_metadata@,
        comments: e.attached_comments@,
    }
}

pub open spec fn metadata_model(m: Metadata) -> MetadataModel {
    MetadataModel {
        name: m.name@,
        name_span: m.name_span,
        value: match m.value {
            Some(v) => Some(value_model(v)),
            None => None,
        },
        span: m.span,
    }
}

pub open spec fn section_model(x: Section) -> SectionModel {
    SectionModel { id: x.id@, id_span: x.id_span, span: x.span }
}

pub open spec fn diagnostic_model(d: ResourceDiagnostic) -> DiagnosticModel {
    DiagnosticModel { code: d.code@, message: d.message@, span: d.span }
}

pub open spec fn diagnostics_model(ds: Seq<ResourceDiagnostic>) -> Seq<DiagnosticModel> {
    ds.map_values(|d: ResourceDiagnostic| diagnostic_model(d))
}

pub open spec fn doc_model(doc: ResourceDoc) -> DocModel {
    DocModel {
        lines: doc.lines@,
        entries: doc.entries@.map_values(|e: Entry| entry_model(e)),
        sections: doc.sections@.map_values(|x: Section| section_model(x)),
        metadata: doc.metadata@.map_values(|m: Metadata| metadata_model(m)),
        comments: doc.comments@.map_values(|c: Comment| c.span),
        frontmatter: match doc.frontmatter {
            Some(f) => Some(f.span),
            None => None,
        },
    }
}

/// A structural error with these code, message and span.
pub open spec fn structural(code: Seq<char>, message: Seq<char>, span: Span) -> DiagnosticModel {
    DiagnosticModel { code, message, span }
}

/// The span of the content of a line.
pub open spec fn line_span(s: Seq<char>, l: RawLine) -> Span {
    span_of(s, l.start as int, l.content_end as int)
}

/// `st` with an error reported.
pub open spec fn reported(st: ReadState, d: DiagnosticModel) -> ReadState {
    ReadState { diagnostics: st.diagnostics.push(d), ..st }
}

/// `st` with a line recorded.
pub open spec fn with_line(st: ReadState, line: ResourceLine) -> ReadState {
    ReadState { doc: DocModel { lines: st.doc.lines.push(line), ..st.doc }, ..st }
}

/// Each pending metadata item reported as dangling, in order.
pub open spec fn dangling_diagnostics(pending: Seq<usize>, metadata: Seq<MetadataModel>) -> Seq<
    DiagnosticModel,
> {
    pending.map_values(
        |i: usize| structural("dangling-metadata"@, dangling_message(), metadata[i as int].span),
    )
}

/// Pending metadata reported as dangling, and forgotten.
pub open spec fn flushed(st: ReadState) -> ReadState {
    ReadState {
        diagnostics: st.diagnostics + dangling_diagnostics(st.pending_metadata, st.doc.metadata),
        pending_metadata: seq![],
        ..st
    }
}

/// Pending metadata reported as dangling, and nothing pending any more.
pub open spec fn detached(st: ReadState) -> ReadState {
    ReadState { pending_comments: seq![], ..flushed(st) }
}

/// A line that fits no form: its error, the line recorded as invalid, and
/// pending items detached.
pub open spec fn invalid_read(st: ReadState, code: Seq<char>, message: Seq<char>, span: Span) -> ReadState {
    detached(with_line(reported(st, structural(code, message, span)), ResourceLine::Invalid { span }))
}

/// Line `i` continues a value: it has content and starts with a space or
/// tab.
pub open spec fn continues(s: Seq<char>, ls: Seq<RawLine>, i: int) -> bool {
    0 <= i < ls.len() && ls[i].start < ls[i].content_end && blank_char(s[ls[i].start as int])
}

/// The number of lines from `i` on that continue a value.
pub open spec fn continuation_count(s: Seq<char>, ls: Seq<RawLine>, i: int) -> int
    decreases ls.len() - i,
{
    if continues(s, ls, i) {
        1 + continuation_count(s, ls, i + 1)
    } else {
        0
    }
}

/// The text of a value that starts at `vs` on line `idx`, with `n`
/// continuation lines: the rest of the line, then each continuation line
/// after a line feed, without its indentation.
pub open spec fn value_text(s: Seq<char>, ls: Seq<RawLine>, idx: int, vs: int, n: int) -> Seq<char>
    decreases n,
{
    if n <= 0 {
        s.subrange(vs, ls[idx].content_end as int)
    } else {
        let l = ls[idx + n];
        value_text(s, ls, idx, vs, n - 1) + seq!['\n'] + s.subrange(
            blank_end(s, l.start as int, l.content_end as int),
            l.content_end as int,
        )
    }
}

/// The bytes of the file that the bytes of that text come from: the line
/// feed of each continuation is the one that ends the line before it.
pub open spec fn value_offsets(s: Seq<char>, ls: Seq<RawLine>, idx: int, vs: int, n: int) -> Seq<u32>
    decreases n,
{
    if n <= 0 {
        byte_range(byte_offset(s, vs) as int, byte_offset(s, ls[idx].content_end as int) as int)
    } else {
        let l = ls[idx + n];
        let nl = ls[idx + n - 1].end as int;
        value_offsets(s, ls, idx, vs, n - 1) + byte_range(
            byte_offset(s, nl) as int,
            byte_offset(s, nl + 1) as int,
        ) + byte_range(
            byte_offset(s, blank_end(s, l.start as int, l.content_end as int)) as int,
            byte_offset(s, l.content_end as int) as int,
        )
    }
}

/// The value that starts at `vs` on line `idx`, with the number of its
/// continuation lines.
pub open spec fn value_read(s: Seq<char>, ls: Seq<RawLine>, idx: int, vs: int) -> (ValueModel, int) {
    let n = continuation_count(s, ls, idx + 1);
    (
        ValueModel {
            text: value_text(s, ls, idx, vs, n),
            offsets: value_offsets(s, ls, idx, vs, n),
            span: span_of(s, vs, ls[idx + n].content_end as int),
        },
        n,
    )
}

/// Reading a section head at line `idx`.
pub open spec fn section_read(s: Seq<char>, ls: Seq<RawLine>, st: ReadState, idx: int) -> ReadState {
    let l = ls[idx];
    let span = line_span(s, l);
    match section_head(s, l.start as int, l.content_end as int) {
        Some((a, b)) => {
            let i = first_match(s, l.start as int, a, b);
            let id_span = span_of(s, i, i + (b - a));
            let n = st.doc.sections.len();
            let st1 = if valid_id_from(s, a, b) {
                st
            } else {
                reported(
                    st,
                    structural(
                        "invalid-section-id"@,
                        "Section identifier is not a valid resource id."@,
                        id_span,
                    ),
                )
            };
            ReadState {
                doc: DocModel {
                    sections: st1.doc.sections.push(SectionModel { id: s.subrange(a, b), id_span, span }),
                    lines: st1.doc.lines.push(ResourceLine::SectionHead { span, section_idx: n as usize }),
                    ..st1.doc
                },
                path: path_from(s, a, b),
                seen_section_or_entry: true,
                pending_metadata: seq![],
                pending_comments: seq![],
                ..st1
            }
        },
        None => invalid_read(
            st,
            "invalid-section-syntax"@,
            "Section header must use [id] syntax."@,
            span,
        ),
    }
}

/// Reading a metadata line at line `idx`, with the index of the next line.
pub open spec fn metadata_read(s: Seq<char>, ls: Seq<RawLine>, st: ReadState, idx: int) -> (ReadState, int) {
    let l = ls[idx];
    let span = line_span(s, l);
    match metadata_header(s, l.start as int, l.content_end as int) {
        Some((e, v)) => {
            let ns = l.start + 1;
            let name = s.subrange(ns, e);
            let name_span = span_of(s, ns, e);
            let st1 = if valid_id_part(name) {
                st
            } else {
                reported(
                    st,
                    structural("invalid-metadata-name"@, "Metadata key must be a valid id-part."@, name_span),
                )
            };
            let (value, consumed) = match v {
                Some(vs) => (Some(value_read(s, ls, idx, vs).0), value_read(s, ls, idx, vs).1),
                None => (None, 0int),
            };
            let n = st1.doc.metadata.len();
            (
                ReadState {
                    doc: DocModel {
                        metadata: st1.doc.metadata.push(MetadataModel { name, name_span, value, span }),
                        lines: st1.doc.lines.push(ResourceLine::Metadata { span, metadata_idx: n as usize }),
                        ..st1.doc
                    },
                    pending_metadata: st1.pending_metadata.push(n as usize),
                    ..st1
                },
                idx + consumed + 1,
            )
        },
        None => (
            invalid_read(
                st,
                "invalid-metadata-syntax"@,
                "Metadata line must start with @key and optional value."@,
                span,
            ),
            idx + 1,
        ),
    }
}

/// Reading an entry at line `idx` whose id ends at `t` and whose value
/// starts at `vs`, with the index of the next line.
pub open spec fn entry_read(s: Seq<char>, ls: Seq<RawLine>, st: ReadState, idx: int, t: int, vs: int) -> (
    ReadState,
    int,
) {
    let l = ls[idx];
    let id = s.subrange(l.start as int, t);
    let id_span = span_of(s, l.start as int, t);
    let st1 = if valid_id_from(s, l.start as int, t) {
        st
    } else {
        reported(
            st,
            structural("invalid-entry-id"@, "Entry identifier is not a valid resource id."@, id_span),
        )
    };
    let (value, consumed) = value_read(s, ls, idx, vs);
    let span = span_of(s, l.start as int, ls[idx + consumed].content_end as int);
    let n = st1.doc.entries.len();
    let entry = EntryModel {
        id,
        id_span,
        value,
        span,
        path: st1.path,
        metadata: st1.pending_metadata,
        comments: st1.pending_comments,
    };
    (
        ReadState {
            doc: DocModel {
                entries: st1.doc.entries.push(entry),
                lines: st1.doc.lines.push(ResourceLine::Entry { span, entry_idx: n as usize }),
                ..st1.doc
            },
            seen_section_or_entry: true,
            pending_metadata: seq![],
            pending_comments: seq![],
            ..st1
        },
        idx + consumed + 1,
    )
}

/// Reading a comment line.
pub open spec fn comment_read(st: ReadState, span: Span) -> ReadState {
    let n = st.doc.comments.len();
    let st1 = ReadState {
        doc: DocModel {
            comments: st.doc.comments.push(span),
            lines: st.doc.lines.push(ResourceLine::Comment { span, comment_idx: n as usize }),
            ..st.doc
        },
        ..st
    };
    ReadState { pending_comments: st1.pending_comments.push(n as usize), ..flushed(st1) }
}

/// Reading a frontmatter line.
pub open spec fn frontmatter_read(st: ReadState, span: Span) -> ReadState {
    let st1 = if st.seen_frontmatter {
        reported(
            st,
            structural(
                "multiple-frontmatter"@,
                "A resource may contain at most one frontmatter line."@,
                span,
            ),
        )
    } else {
        st
    };
    let st2 = if st.seen_section_or_entry {
        reported(
            st1,
            structural(
                "frontmatter-order"@,
                "Frontmatter must appear before any section headers or entries."@,
                span,
            ),
        )
    } else {
        st1
    };
    ReadState {
        doc: DocModel {
            frontmatter: if st2.doc.frontmatter is None {
                Some(span)
            } else {
                st2.doc.frontmatter
            },
            lines: st2.doc.lines.push(ResourceLine::Frontmatter { span }),
            ..st2.doc
        },
        seen_frontmatter: true,
        pending_metadata: seq![],
        pending_comments: seq![],
        ..st2
    }
}

/// Reading line `idx` (with the continuation lines of its value), with the
/// index of the next line: an empty line, an indented line that continues
/// nothing, a comment, frontmatter, a section head, metadata, an entry, or
/// else an invalid line.
pub open spec fn line_read(s: Seq<char>, ls: Seq<RawLine>, st: ReadState, idx: int) -> (ReadState, int) {
    let l = ls[idx];
    let span = line_span(s, l);
    let start = l.start as int;
    let ce = l.content_end as int;
    if forall|k: int| start <= k < ce ==> blank_char(#[trigger] s[k]) {
        (detached(with_line(st, ResourceLine::Empty { span })), idx + 1)
    } else if start < ce && blank_char(s[start]) {
        (
            invalid_read(
                st,
                "invalid-line-indented"@,
                "Indented line is only valid as a value continuation after entry or metadata."@,
                span,
            ),
            idx + 1,
        )
    } else if start < ce && s[start] == '#' {
        (comment_read(st, span), idx + 1)
    } else if frontmatter_line(s, start, ce) {
        (frontmatter_read(st, span), idx + 1)
    } else if start < ce && s[start] == '[' {
        (section_read(s, ls, st, idx), idx + 1)
    } else if start < ce && s[start] == '@' {
        metadata_read(s, ls, st, idx)
    } else {
        match entry_header(s, start, ce) {
            Some((t, vs)) => entry_read(s, ls, st, idx, t, vs),
            None => (
                invalid_read(
                    st,
                    "invalid-line"@,
                    "Line is not valid frontmatter, section, entry, metadata, comment, or empty line."@,
                    span,
                ),
                idx + 1,
            ),
        }
    }
}

/// Reading the lines from `idx` on.
pub open spec fn lines_read(s: Seq<char>, ls: Seq<RawLine>, st: ReadState, idx: int) -> ReadState
    decreases ls.len() - idx,
{
    if 0 <= idx < ls.len() {
        let (st1, next) = line_read(s, ls, st, idx);
        if idx < next <= ls.len() {
            lines_read(s, ls, st1, next)
        } else {
            st1
        }
    } else {
        st
    }
}

/// Nothing read yet.
pub open spec fn initial_state() -> ReadState {
    ReadState {
        doc: DocModel {
            lines: seq![],
            entries: seq![],
            sections: seq![],
            metadata: seq![],
            comments: seq![],
            frontmatter: None,
        },
        diagnostics: seq![],
        seen_frontmatter: false,
        seen_section_or_entry: false,
        path: seq![],
        pending_metadata: seq![],
        pending_comments: seq![],
    }
}

/// A resource as read from its lines `ls`: each line read in turn, and
/// metadata still pending at the end reported as dangling.
pub open spec fn resource_read(s: Seq<char>, ls: Seq<RawLine>) -> ReadState {
    detached(lines_read(s, ls, initial_state(), 0))
}

/// Two lines that start at the same place are the same line.
proof fn lemma_line_same(s: Seq<char>, a: RawLine, b: RawLine)
    requires
        a.wf(s),
        b.wf(s),
        a.start == b.start,
    ensures
        a == b,
{
    if a.end < b.end {
        assert(s[a.end as int] == '\n');
    } else if b.end < a.end {
        assert(s[b.end as int] == '\n');
    }
}

/// The lines of a text are fixed by it: `lines_wf` holds of one cut only.
pub proof fn law_lines_unique(s: Seq<char>, a: Seq<RawLine>, b: Seq<RawLine>)
    requires
        lines_wf(s, a),
        lines_wf(s, b),
    ensures
        a == b,
{
    let n = if a.len() < b.len() { a.len() } else { b.len() };
    assert forall|k: int| 0 <= k < n implies a[k] == b[k] by {
        lemma_lines_prefix(s, a, b, k);
    }
    if a.len() < b.len() {
        let k = a.len() - 1;
        lemma_lines_prefix(s, a, b, k);
        assert(b[k + 1].wf(s));
        assert(b[k + 1].start == b[k].end + 1);
    } else if b.len() < a.len() {
        let k = b.len() - 1;
        lemma_lines_prefix(s, a, b, k);
        assert(a[k + 1].wf(s));
        assert(a[k + 1].start == a[k].end + 1);
    }
    assert(a =~= b);
}

proof fn lemma_lines_prefix(s: Seq<char>, a: Seq<RawLine>, b: Seq<RawLine>, k: int)
    requires
        lines_wf(s, a),
        lines_wf(s, b),
        0 <= k < a.len(),
        k < b.len(),
    ensures
        a[k] == b[k],
    decreases k,
{
    assert(a[k].wf(s));
    assert(b[k].wf(s));
    if k > 0 {
        lemma_lines_prefix(s, a, b, k - 1);
        assert(a[k].start == a[k - 1].end + 1);
        assert(b[k].start == b[k - 1].end + 1);
    }
    lemma_line_same(s, a[k], b[k]);
}

/// Each offset is smaller than the next.
pub open spec fn strictly_increasing(m: Seq<u32>) -> bool {
    forall|i: int, j: int| 0 <= i < j < m.len() ==> m[i] < m[j]
}

proof fn lemma_byte_range(a: int, b: int)
    requires
        0 <= a <= b <= u32::MAX,
    ensures
        strictly_increasing(byte_range(a, b)),
        forall|x: int| 0 <= x < byte_range(a, b).len() ==> a <= #[trigger] byte_range(a, b)[x] < b,
{
}

proof fn lemma_increasing_concat(p: Seq<u32>, q: Seq<u32>)
    requires
        strictly_increasing(p),
        strictly_increasing(q),
        forall|i: int, j: int| 0 <= i < p.len() && 0 <= j < q.len() ==> p[i] < q[j],
    ensures
        strictly_increasing(p + q),
{
    assert forall|i: int, j: int| 0 <= i < j < (p + q).len() implies (p + q)[i] < (p + q)[j] by {
        if j < p.len() {
        } else if i >= p.len() {
            assert((p + q)[i] == q[i - p.len()]);
            assert((p + q)[j] == q[j - p.len()]);
        } else {
            assert((p + q)[j] == q[j - p.len()]);
        }
    }
}

/// The continuation lines of a value lie in the text.
proof fn lemma_continuation_count(s: Seq<char>, ls: Seq<RawLine>, i: int)
    requires
        0 <= i <= ls.len(),
    ensures
        0 <= continuation_count(s, ls, i) <= ls.len() - i,
    decreases ls.len() - i,
{
    if continues(s, ls, i) {
        lemma_continuation_count(s, ls, i + 1);
    }
}

/// The bytes that a value's text comes from come one after the other in
/// the file, and before the end of its last line.
proof fn lemma_value_offsets(s: Seq<char>, ls: Seq<RawLine>, idx: int, vs: int, n: int)
    requires
        lines_wf(s, ls),
        utf8_len(s) <= u32::MAX,
        0 <= idx,
        0 <= n,
        idx + n < ls.len(),
        ls[idx].start <= vs <= ls[idx].content_end,
    ensures
        strictly_increasing(value_offsets(s, ls, idx, vs, n)),
        forall|x: int|
            0 <= x < value_offsets(s, ls, idx, vs, n).len() ==> #[trigger] value_offsets(s, ls, idx, vs, n)[x]
                < byte_offset(s, ls[idx + n].content_end as int),
    decreases n,
{
    lemma_byte_offset_end(s);
    assert(ls[idx].wf(s));
    if n == 0 {
        lemma_byte_offset_mono(s, vs, ls[idx].content_end as int);
        lemma_byte_offset_mono(s, ls[idx].content_end as int, s.len() as int);
        lemma_byte_range(byte_offset(s, vs) as int, byte_offset(s, ls[idx].content_end as int) as int);
    } else {
        let k = idx + n;
        let l = ls[k];
        let pl = ls[k - 1];
        let nl = pl.end as int;
        assert(l.wf(s));
        assert(pl.wf(s));
        assert(l.start == pl.end + 1);
        lemma_value_offsets(s, ls, idx, vs, n - 1);
        let p = value_offsets(s, ls, idx, vs, n - 1);
        let ie = blank_end(s, l.start as int, l.content_end as int);
        lemma_scans_bounded(s, l.start as int, l.content_end as int);
        lemma_byte_offset_mono(s, pl.content_end as int, nl);
        lemma_byte_offset_mono(s, nl, nl + 1);
        lemma_byte_offset_mono(s, nl + 1, ie);
        lemma_byte_offset_mono(s, ie, l.content_end as int);
        lemma_byte_offset_mono(s, l.content_end as int, s.len() as int);
        let r1 = byte_range(byte_offset(s, nl) as int, byte_offset(s, nl + 1) as int);
        let r2 = byte_range(byte_offset(s, ie) as int, byte_offset(s, l.content_end as int) as int);
        lemma_byte_range(byte_offset(s, nl) as int, byte_offset(s, nl + 1) as int);
        lemma_byte_range(byte_offset(s, ie) as int, byte_offset(s, l.content_end as int) as int);
        assert(ls[idx + (n - 1)] == pl);
        lemma_increasing_concat(p, r1);
        assert forall|i: int, j: int| 0 <= i < (p + r1).len() && 0 <= j < r2.len() implies (p + r1)[i]
            < r2[j] by {
            if i < p.len() {
                assert(p[i] < byte_offset(s, pl.content_end as int));
            } else {
                assert((p + r1)[i] == r1[i - p.len()]);
            }
        }
        lemma_increasing_concat(p + r1, r2);
        let v = value_offsets(s, ls, idx, vs, n);
        assert(v == p + r1 + r2);
        assert forall|x: int| 0 <= x < v.len() implies #[trigger] v[x] < byte_offset(s, l.content_end as int) by {
            if x < p.len() {
                assert(v[x] == p[x]);
            } else if x < p.len() + r1.len() {
                assert(v[x] == r1[x - p.len()]);
            } else {
                assert(v[x] == r2[x - p.len() - r1.len()]);
            }
        }
    }
}

/// The value that starts at `vs` on line `idx` comes from bytes of the file
/// that follow one another.
proof fn lemma_value_read(s: Seq<char>, ls: Seq<RawLine>, idx: int, vs: int)
    requires
        lines_wf(s, ls),
        utf8_len(s) <= u32::MAX,
        0 <= idx < ls.len(),
        ls[idx].start <= vs <= ls[idx].content_end,
    ensures
        strictly_increasing(value_read(s, ls, idx, vs).0.offsets),
{
    lemma_continuation_count(s, ls, idx + 1);
    lemma_value_offsets(s, ls, idx, vs, continuation_count(s, ls, idx + 1));
}

/// Every value in the state comes from bytes that follow one another.
pub open spec fn values_increase(st: ReadState) -> bool {
    &&& forall|i: int| 0 <= i < st.doc.entries.len() ==> strictly_increasing(#[trigger] st.doc.entries[i].value.offsets)
    &&& forall|i: int|
        0 <= i < st.doc.metadata.len() ==> (#[trigger] st.doc.metadata[i].value matches Some(v)
            ==> strictly_increasing(v.offsets))
}

proof fn lemma_line_read_values(s: Seq<char>, ls: Seq<RawLine>, st: ReadState, idx: int)
    requires
        lines_wf(s, ls),
        utf8_len(s) <= u32::MAX,
        0 <= idx < ls.len(),
        values_increase(st),
    ensures
        values_increase(line_read(s, ls, st, idx).0),
{
    let l = ls[idx];
    assert(l.wf(s));
    let start = l.start as int;
    let ce = l.content_end as int;
    lemma_scans_bounded(s, start, ce);
    if start + 1 <= ce {
        lemma_scans_bounded(s, start + 1, ce);
    }
    match metadata_header(s, start, ce) {
        Some((e, v)) => {
            lemma_scans_bounded(s, e, ce);
            if let Some(vs) = v {
                lemma_value_read(s, ls, idx, vs);
            }
        },
        None => {},
    }
    match entry_header(s, start, ce) {
        Some((t, vs)) => {
            let q = first_of(s, start, ce, '=');
            lemma_scans_bounded(s, q + 1, ce);
            lemma_value_read(s, ls, idx, vs);
        },
        None => {},
    }
    let r = line_read(s, ls, st, idx).0;
    assert forall|i: int| 0 <= i < r.doc.entries.len() implies strictly_increasing(
        #[trigger] r.doc.entries[i].value.offsets,
    ) by {
        if i < st.doc.entries.len() {
            assert(r.doc.entries[i] == st.doc.entries[i]);
        }
    }
    assert forall|i: int| 0 <= i < r.doc.metadata.len() implies (#[trigger] r.doc.metadata[i].value matches Some(
        v,
    ) ==> strictly_increasing(v.offsets)) by {
        if i < st.doc.metadata.len() {
            assert(r.doc.metadata[i] == st.doc.metadata[i]);
        }
    }
}

proof fn lemma_lines_read_values(s: Seq<char>, ls: Seq<RawLine>, st: ReadState, idx: int)
    requires
        lines_wf(s, ls),
        utf8_len(s) <= u32::MAX,
        values_increase(st),
    ensures
        values_increase(lines_read(s, ls, st, idx)),
    decreases ls.len() - idx,
{
    if 0 <= idx < ls.len() {
        lemma_line_read_values(s, ls, st, idx);
        let (st1, next) = line_read(s, ls, st, idx);
        if idx < next <= ls.len() {
            lemma_lines_read_values(s, ls, st1, next);
        }
    }
}

/// The bytes that each value of a resource comes from follow one another
/// in the file: each byte of a value's text maps to a later byte of the
/// file than the byte before it.
pub proof fn law_value_offsets_increase(s: Seq<char>, ls: Seq<RawLine>)
    requires
        lines_wf(s, ls),
        utf8_len(s) <= u32::MAX,
    ensures
        values_increase(resource_read(s, ls)),
{
    lemma_lines_read_values(s, ls, initial_state(), 0);
}

/// Later lines start after earlier ones end.
proof fn lemma_lines_ordered(s: Seq<char>, lines: Seq<RawLine>, i: int, j: int)
    requires
        lines_wf(s, lines),
        0 <= i <= j < lines.len(),
    ensures
        lines[i].start <= lines[j].content_end,
        lines[i].content_end <= lines[j].content_end,
    decreases j - i,
{
    assert(lines[i].wf(s));
    assert(lines[j].wf(s));
    if i < j {
        lemma_lines_ordered(s, lines, i, j - 1);
        assert(lines[j - 1].wf(s));
        assert(lines[j].start == lines[j - 1].end + 1);
    }
}

/// Reads a resource: its lines become frontmatter, section heads, entries
/// (with values that continue on indented lines), metadata, comments, empty
/// lines or invalid lines, and what does not fit is reported. Returns the
/// document, the diagnostics, and the line information of the text. The
/// document and diagnostics are those of `resource_read` over the lines of
/// the text (which `lines_wf` fixes), and the bytes each value comes from
/// follow one another in the text.
pub fn parse_resource<'text>(text: &'text str) -> (r: (
    ResourceDoc<'text>,
    Vec<ResourceDiagnostic>,
    SourceTextInfo<'text>,
))
    requires
        utf8_len(text@) <= u32::MAX,
    ensures
        r.0.wf(text@),
        forall|i: int| 0 <= i < r.1.len() ==> #[trigger] r.1[i].wf(text@),
        r.2.wf(),
        r.2.chars() == text@,
        exists|ls: Seq<RawLine>|
            lines_wf(text@, ls) && doc_model(r.0) == resource_read(text@, ls).doc && diagnostics_model(
                r.1@,
            ) == resource_read(text@, ls).diagnostics && values_increase(resource_read(text@, ls)),
{
    let (_, _, info) = crate::parse(text);
    let src = Source::new(text);
    let lines = split_lines(&src);
    let mut reader = Reader {
        src,
        lines,
        doc: ResourceDoc::new(),
        diagnostics: Vec::new(),
        seen_frontmatter: false,
        seen_section_or_entry: false,
        section_path: Vec::new(),
        pending_metadata: Vec::new(),
        pending_comments: Vec::new(),
    };
    let mut idx: usize = 0;
    let ghost ls = reader.lines@;
    proof {
        assert(reader.model() =~= initial_state());
    }
    while idx < reader.lines.len()
        invariant
            reader.inv(),
            reader.s() == text@,
            reader.lines@ == ls,
            idx <= reader.lines.len(),
            lines_read(text@, ls, reader.model(), idx as int) == lines_read(text@, ls, initial_state(), 0),
        decreases reader.lines.len() - idx,
    {
        idx = reader.read_line(idx);
    }
    reader.detach();
    proof {
        assert(lines_wf(text@, ls));
        assert(reader.model() == resource_read(text@, ls));
        law_value_offsets_increase(text@, ls);
    }
    (reader.doc, reader.diagnostics, info)
}


/// Line `l` of `s` is a section header with `[id]` syntax.
pub open spec fn opens_section(s: Seq<char>, l: RawLine) -> bool {
    &&& l.start < l.content_end
    &&& s[l.start as int] == '['
    &&& section_head(s, l.start as int, l.content_end as int) is Some
}

/// Line `l` of `s` starts an entry `id = value`: it starts with none of the
/// characters that begin the other forms of lines.
pub open spec fn opens_entry(s: Seq<char>, l: RawLine) -> bool {
    &&& l.start < l.content_end
    &&& !blank_char(s[l.start as int])
    &&& s[l.start as int] != '#'
    &&& s[l.start as int] != '['
    &&& s[l.start as int] != '@'
    &&& !frontmatter_line(s, l.start as int, l.content_end as int)
    &&& entry_header(s, l.start as int, l.content_end as int) is Some
}

/// `b` holds the diagnostics of `a`, in their places, and maybe more.
pub open spec fn diagnostics_grow(a: Seq<DiagnosticModel>, b: Seq<DiagnosticModel>) -> bool {
    &&& a.len() <= b.len()
    &&& forall|k: int| 0 <= k < a.len() ==> #[trigger] b[k] == a[k]
}

/// Some diagnostic of `ds` has code `code` and span `span`.
pub open spec fn reported_with(ds: Seq<DiagnosticModel>, code: Seq<char>, span: Span) -> bool {
    exists|k: int| 0 <= k < ds.len() && #[trigger] ds[k].code == code && ds[k].span == span
}

/// `b` holds the entries of `a`, in their places, and maybe more.
pub open spec fn entries_grow(a: Seq<EntryModel>, b: Seq<EntryModel>) -> bool {
    &&& a.len() <= b.len()
    &&& forall|k: int| 0 <= k < a.len() ==> #[trigger] b[k] == a[k]
}

/// `b` holds the sections of `a`, in their places, and maybe more.
pub open spec fn sections_grow(a: Seq<SectionModel>, b: Seq<SectionModel>) -> bool {
    &&& a.len() <= b.len()
    &&& forall|k: int| 0 <= k < a.len() ==> #[trigger] b[k] == a[k]
}

/// The path of the section that header line `l` opens.
pub open spec fn section_path(s: Seq<char>, l: RawLine) -> Seq<Seq<char>> {
    let (a, b) = section_head(s, l.start as int, l.content_end as int)->0;
    path_from(s, a, b)
}

/// A section with the id written on header line `l`, and its span, is
/// among `xs`.
pub open spec fn section_recorded(xs: Seq<SectionModel>, s: Seq<char>, l: RawLine) -> bool {
    let (a, b) = section_head(s, l.start as int, l.content_end as int)->0;
    exists|k: int| 0 <= k < xs.len() && #[trigger] xs[k].id == s.subrange(a, b) && xs[k].span == line_span(s, l)
}

/// An entry that starts where line `l` starts, in the section of path
/// `path`, is among `es`.
pub open spec fn entry_recorded(es: Seq<EntryModel>, s: Seq<char>, l: RawLine, path: Seq<Seq<char>>) -> bool {
    exists|k: int|
        0 <= k < es.len() && #[trigger] es[k].span.start == Location(byte_offset(s, l.start as int) as u32)
            && es[k].path == path
}

/// The lines from `i` on that continue a value do continue it.
proof fn lemma_continuation(s: Seq<char>, ls: Seq<RawLine>, i: int)
    requires
        0 <= i,
    ensures
        continuation_count(s, ls, i) >= 0,
        i < ls.len() ==> i + continuation_count(s, ls, i) <= ls.len(),
        forall|k: int| i <= k < i + continuation_count(s, ls, i) ==> #[trigger] continues(s, ls, k),
    decreases ls.len() - i,
{
    if continues(s, ls, i) {
        lemma_continuation(s, ls, i + 1);
    }
}

/// Pending items reported or forgotten keep the diagnostics.
proof fn lemma_detached_grows(st: ReadState)
    ensures
        diagnostics_grow(st.diagnostics, detached(st).diagnostics),
        detached(st).seen_section_or_entry == st.seen_section_or_entry,
{
}

/// Reading one line keeps the diagnostics and what was seen; a section
/// header or an entry is seen once read; frontmatter read after one is
/// reported as out of order; and the lines that the reading consumes
/// beyond it continue a value.
proof fn lemma_line_read_steps(s: Seq<char>, ls: Seq<RawLine>, st: ReadState, idx: int)
    requires
        lines_wf(s, ls),
        0 <= idx < ls.len(),
    ensures
        ({
            let (st1, next) = line_read(s, ls, st, idx);
            &&& diagnostics_grow(st.diagnostics, st1.diagnostics)
            &&& st.seen_section_or_entry ==> st1.seen_section_or_entry
            &&& opens_section(s, ls[idx]) || opens_entry(s, ls[idx]) ==> st1.seen_section_or_entry
            &&& next > idx
            &&& forall|k: int| idx < k < next ==> #[trigger] continues(s, ls, k)
            &&& frontmatter_line(s, ls[idx].start as int, ls[idx].content_end as int)
                && st.seen_section_or_entry ==> reported_with(
                st1.diagnostics,
                "frontmatter-order"@,
                line_span(s, ls[idx]),
            )
            &&& st.seen_frontmatter ==> st1.seen_frontmatter
            &&& frontmatter_line(s, ls[idx].start as int, ls[idx].content_end as int) ==> st1.seen_frontmatter
            &&& frontmatter_line(s, ls[idx].start as int, ls[idx].content_end as int)
                && st.seen_frontmatter ==> reported_with(
                st1.diagnostics,
                "multiple-frontmatter"@,
                line_span(s, ls[idx]),
            )
            &&& entries_grow(st.doc.entries, st1.doc.entries)
            &&& sections_grow(st.doc.sections, st1.doc.sections)
            &&& !opens_section(s, ls[idx]) ==> st1.path == st.path
            &&& opens_section(s, ls[idx]) ==> st1.path == section_path(s, ls[idx]) && section_recorded(
                st1.doc.sections,
                s,
                ls[idx],
            )
            &&& opens_entry(s, ls[idx]) ==> entry_recorded(st1.doc.entries, s, ls[idx], st.path)
        }),
{
    let l = ls[idx];
    let start = l.start as int;
    let ce = l.content_end as int;
    let span = line_span(s, l);
    lemma_continuation(s, ls, idx + 1);
    assert(l.wf(s));
    if forall|k: int| start <= k < ce ==> blank_char(#[trigger] s[k]) {
        if start < ce {
            assert(blank_char(s[start]));
        }
    } else if start < ce && blank_char(s[start]) {
    } else if start < ce && s[start] == '#' {
    } else if frontmatter_line(s, start, ce) {
        let st1 = if st.seen_frontmatter {
            reported(
                st,
                structural(
                    "multiple-frontmatter"@,
                    "A resource may contain at most one frontmatter line."@,
                    span,
                ),
            )
        } else {
            st
        };
        if st.seen_frontmatter {
            let k = st1.diagnostics.len() - 1;
            assert(st1.diagnostics[k].code == "multiple-frontmatter"@);
            assert(frontmatter_read(st, span).diagnostics[k] == st1.diagnostics[k]);
            assert(reported_with(frontmatter_read(st, span).diagnostics, "multiple-frontmatter"@, span));
        }
        if st.seen_section_or_entry {
            let st2 = reported(
                st1,
                structural(
                    "frontmatter-order"@,
                    "Frontmatter must appear before any section headers or entries."@,
                    span,
                ),
            );
            let k = st2.diagnostics.len() - 1;
            assert(st2.diagnostics[k].code == "frontmatter-order"@);
            assert(frontmatter_read(st, span).diagnostics == st2.diagnostics);
            assert(reported_with(frontmatter_read(st, span).diagnostics, "frontmatter-order"@, span));
        }
    } else if start < ce && s[start] == '[' {
        let r = section_read(s, ls, st, idx);
        if let Some((a, b)) = section_head(s, start, ce) {
            let k = r.doc.sections.len() - 1;
            assert(r.doc.sections[k].id == s.subrange(a, b));
            assert(r.doc.sections[k].span == span);
            assert(section_recorded(r.doc.sections, s, l));
        }
    } else if start < ce && s[start] == '@' {
    } else {
        if let Some((t, vs)) = entry_header(s, start, ce) {
            let (r, _) = entry_read(s, ls, st, idx, t, vs);
            let k = r.doc.entries.len() - 1;
            assert(r.doc.entries[k].span.start == Location(byte_offset(s, start) as u32));
            assert(r.doc.entries[k].path == st.path);
            assert(entry_recorded(r.doc.entries, s, l, st.path));
        }
    }
}

/// Reading the lines from `idx` on keeps the diagnostics, the entries and
/// the sections.
proof fn lemma_lines_read_grows(s: Seq<char>, ls: Seq<RawLine>, st: ReadState, idx: int)
    requires
        lines_wf(s, ls),
        0 <= idx,
    ensures
        diagnostics_grow(st.diagnostics, lines_read(s, ls, st, idx).diagnostics),
        entries_grow(st.doc.entries, lines_read(s, ls, st, idx).doc.entries),
        sections_grow(st.doc.sections, lines_read(s, ls, st, idx).doc.sections),
    decreases ls.len() - idx,
{
    if idx < ls.len() {
        let (st1, next) = line_read(s, ls, st, idx);
        lemma_line_read_steps(s, ls, st, idx);
        if idx < next <= ls.len() {
            lemma_lines_read_grows(s, ls, st1, next);
        }
    }
}

/// Reading from line `idx` reports frontmatter at line `j` as out of order
/// when a section header or an entry was seen before `idx`, or stands on a
/// line `i` between `idx` and `j`.
proof fn lemma_frontmatter_order_from(s: Seq<char>, ls: Seq<RawLine>, st: ReadState, idx: int, i: int, j: int)
    requires
        lines_wf(s, ls),
        0 <= idx <= j < ls.len(),
        frontmatter_line(s, ls[j].start as int, ls[j].content_end as int),
        st.seen_section_or_entry || (idx <= i < j && (opens_section(s, ls[i]) || opens_entry(s, ls[i]))),
    ensures
        reported_with(lines_read(s, ls, st, idx).diagnostics, "frontmatter-order"@, line_span(s, ls[j])),
    decreases ls.len() - idx,
{
    let (st1, next) = line_read(s, ls, st, idx);
    lemma_line_read_steps(s, ls, st, idx);
    assert(ls[j].wf(s));
    assert(!continues(s, ls, j));
    if 0 <= i < ls.len() {
        assert(ls[i].wf(s));
    }
    if idx == j {
        if idx < next <= ls.len() {
            lemma_lines_read_grows(s, ls, st1, next);
            let d = lines_read(s, ls, st1, next).diagnostics;
            let k = choose|k: int|
                0 <= k < st1.diagnostics.len() && #[trigger] st1.diagnostics[k].code == "frontmatter-order"@
                    && st1.diagnostics[k].span == line_span(s, ls[j]);
            assert(d[k] == st1.diagnostics[k]);
        }
    } else {
        if i > idx && (opens_section(s, ls[i]) || opens_entry(s, ls[i])) {
            assert(!continues(s, ls, i));
            assert(next <= i);
        }
        assert(next <= j);
        lemma_frontmatter_order_from(s, ls, st1, next, i, j);
    }
}

/// Frontmatter must come first: a frontmatter line after a section header
/// or an entry is reported as out of order, at its span.
pub proof fn law_frontmatter_after_section_or_entry_is_reported(s: Seq<char>, ls: Seq<RawLine>, i: int, j: int)
    requires
        lines_wf(s, ls),
        0 <= i < j < ls.len(),
        opens_section(s, ls[i]) || opens_entry(s, ls[i]),
        frontmatter_line(s, ls[j].start as int, ls[j].content_end as int),
    ensures
        reported_with(resource_read(s, ls).diagnostics, "frontmatter-order"@, line_span(s, ls[j])),
{
    lemma_frontmatter_order_from(s, ls, initial_state(), 0, i, j);
    let st = lines_read(s, ls, initial_state(), 0);
    lemma_detached_grows(st);
    let k = choose|k: int|
        0 <= k < st.diagnostics.len() && #[trigger] st.diagnostics[k].code == "frontmatter-order"@
            && st.diagnostics[k].span == line_span(s, ls[j]);
    assert(resource_read(s, ls).diagnostics[k] == st.diagnostics[k]);
}

/// Reading from line `idx` reports frontmatter at line `j` as a second
/// frontmatter when frontmatter was seen before `idx`, or stands on a line
/// `i` between `idx` and `j`.
proof fn lemma_second_frontmatter_from(s: Seq<char>, ls: Seq<RawLine>, st: ReadState, idx: int, i: int, j: int)
    requires
        lines_wf(s, ls),
        0 <= idx <= j < ls.len(),
        frontmatter_line(s, ls[j].start as int, ls[j].content_end as int),
        st.seen_frontmatter || (idx <= i < j && frontmatter_line(s, ls[i].start as int, ls[i].content_end as int)),
    ensures
        reported_with(lines_read(s, ls, st, idx).diagnostics, "multiple-frontmatter"@, line_span(s, ls[j])),
    decreases ls.len() - idx,
{
    let (st1, next) = line_read(s, ls, st, idx);
    lemma_line_read_steps(s, ls, st, idx);
    assert(ls[j].wf(s));
    assert(!continues(s, ls, j));
    if 0 <= i < ls.len() {
        assert(ls[i].wf(s));
    }
    if idx == j {
        if idx < next <= ls.len() {
            lemma_lines_read_grows(s, ls, st1, next);
            let d = lines_read(s, ls, st1, next).diagnostics;
            let k = choose|k: int|
                0 <= k < st1.diagnostics.len() && #[trigger] st1.diagnostics[k].code == "multiple-frontmatter"@
                    && st1.diagnostics[k].span == line_span(s, ls[j]);
            assert(d[k] == st1.diagnostics[k]);
        }
    } else {
        if i > idx && frontmatter_line(s, ls[i].start as int, ls[i].content_end as int) {
            assert(!continues(s, ls, i));
            assert(next <= i);
        }
        assert(next <= j);
        lemma_second_frontmatter_from(s, ls, st1, next, i, j);
    }
}

/// A resource holds at most one frontmatter line: each frontmatter line
/// after another is reported, at its span.
pub proof fn law_second_frontmatter_is_reported(s: Seq<char>, ls: Seq<RawLine>, i: int, j: int)
    requires
        lines_wf(s, ls),
        0 <= i < j < ls.len(),
        frontmatter_line(s, ls[i].start as int, ls[i].content_end as int),
        frontmatter_line(s, ls[j].start as int, ls[j].content_end as int),
    ensures
        reported_with(resource_read(s, ls).diagnostics, "multiple-frontmatter"@, line_span(s, ls[j])),
{
    lemma_second_frontmatter_from(s, ls, initial_state(), 0, i, j);
    let st = lines_read(s, ls, initial_state(), 0);
    lemma_detached_grows(st);
    let k = choose|k: int|
        0 <= k < st.diagnostics.len() && #[trigger] st.diagnostics[k].code == "multiple-frontmatter"@
            && st.diagnostics[k].span == line_span(s, ls[j]);
    assert(resource_read(s, ls).diagnostics[k] == st.diagnostics[k]);
}

/// Reading from line `idx` records an entry at line `j` in the section of
/// path `p`: the path read so far when no section header stands between
/// `idx` and `j`, or that of the header on line `i` when it is the last one
/// before `j`.
proof fn lemma_entry_path_from(
    s: Seq<char>,
    ls: Seq<RawLine>,
    st: ReadState,
    idx: int,
    i: int,
    j: int,
    p: Seq<Seq<char>>,
)
    requires
        lines_wf(s, ls),
        0 <= idx <= j < ls.len(),
        opens_entry(s, ls[j]),
        (st.path == p && forall|k: int| idx <= k < j ==> !opens_section(s, #[trigger] ls[k])) || (idx <= i < j
            && opens_section(s, ls[i]) && section_path(s, ls[i]) == p && forall|k: int|
            i < k < j ==> !opens_section(s, #[trigger] ls[k])),
    ensures
        entry_recorded(lines_read(s, ls, st, idx).doc.entries, s, ls[j], p),
    decreases ls.len() - idx,
{
    let (st1, next) = line_read(s, ls, st, idx);
    lemma_line_read_steps(s, ls, st, idx);
    assert(ls[j].wf(s));
    assert(!continues(s, ls, j));
    if 0 <= i < ls.len() {
        assert(ls[i].wf(s));
    }
    if idx == j {
        if idx < next <= ls.len() {
            lemma_lines_read_grows(s, ls, st1, next);
            let es = lines_read(s, ls, st1, next).doc.entries;
            let k = choose|k: int|
                0 <= k < st1.doc.entries.len() && #[trigger] st1.doc.entries[k].span.start == Location(
                    byte_offset(s, ls[j].start as int) as u32,
                ) && st1.doc.entries[k].path == p;
            assert(es[k] == st1.doc.entries[k]);
        }
    } else {
        if idx < i && opens_section(s, ls[i]) {
            assert(!continues(s, ls, i));
            assert(next <= i);
        }
        assert(next <= j);
        lemma_entry_path_from(s, ls, st1, next, i, j, p);
    }
}

/// An entry belongs to the section of the last header before it: its path
/// is the one written on that header.
pub proof fn law_entry_is_in_section_of_last_header(s: Seq<char>, ls: Seq<RawLine>, i: int, j: int)
    requires
        lines_wf(s, ls),
        0 <= i < j < ls.len(),
        opens_section(s, ls[i]),
        opens_entry(s, ls[j]),
        forall|k: int| i < k < j ==> !opens_section(s, #[trigger] ls[k]),
    ensures
        entry_recorded(resource_read(s, ls).doc.entries, s, ls[j], section_path(s, ls[i])),
{
    lemma_entry_path_from(s, ls, initial_state(), 0, i, j, section_path(s, ls[i]));
}

/// Reading from line `idx` records the section of header line `i`.
proof fn lemma_section_from(s: Seq<char>, ls: Seq<RawLine>, st: ReadState, idx: int, i: int)
    requires
        lines_wf(s, ls),
        0 <= idx <= i < ls.len(),
        opens_section(s, ls[i]),
    ensures
        section_recorded(lines_read(s, ls, st, idx).doc.sections, s, ls[i]),
    decreases ls.len() - idx,
{
    let (st1, next) = line_read(s, ls, st, idx);
    lemma_line_read_steps(s, ls, st, idx);
    assert(ls[i].wf(s));
    assert(!continues(s, ls, i));
    if idx == i {
        if idx < next <= ls.len() {
            lemma_lines_read_grows(s, ls, st1, next);
            let xs = lines_read(s, ls, st1, next).doc.sections;
            let (a, b) = section_head(s, ls[i].start as int, ls[i].content_end as int)->0;
            let k = choose|k: int|
                0 <= k < st1.doc.sections.len() && #[trigger] st1.doc.sections[k].id == s.subrange(a, b)
                    && st1.doc.sections[k].span == line_span(s, ls[i]);
            assert(xs[k] == st1.doc.sections[k]);
        }
    } else {
        assert(next <= i);
        lemma_section_from(s, ls, st1, next, i);
    }
}

/// Each section header with `[id]` syntax is recorded as a section with
/// the id written in it, at the header's span.
pub proof fn law_section_header_is_recorded(s: Seq<char>, ls: Seq<RawLine>, i: int)
    requires
        lines_wf(s, ls),
        0 <= i < ls.len(),
        opens_section(s, ls[i]),
    ensures
        section_recorded(resource_read(s, ls).doc.sections, s, ls[i]),
{
    lemma_section_from(s, ls, initial_state(), 0, i);
}

} // verus!
