//! A MessageFormat 2 parser with error recovery: it turns any text into a
//! syntax tree and the diagnostics found on the way.
use std::ops::Range;

use vstd::prelude::*;

use crate::ast::Annotation;
use crate::ast::AnnotationExpression;
use crate::ast::Attribute;
use crate::ast::parts_ordered;
use crate::ast::ComplexMessage;
use crate::ast::ComplexMessageBody;
use crate::ast::Declaration;
use crate::ast::Escape;
use crate::ast::ExponentSign;
use crate::ast::Expression;
use crate::ast::FnOrMarkupOption;
use crate::ast::Function;
use crate::ast::Identifier;
use crate::ast::InputDeclaration;
use crate::ast::Key;
use crate::ast::Literal;
use crate::ast::LiteralExpression;
use crate::ast::LiteralOrVariable;
use crate::ast::LocalDeclaration;
use crate::ast::Markup;
use crate::ast::MarkupKind;
use crate::ast::Matcher;
use crate::ast::Message;
use crate::ast::Number;
use crate::ast::Pattern;
use crate::ast::PatternPart;
use crate::ast::Quoted;
use crate::ast::QuotedPart;
use crate::ast::QuotedPattern;
use crate::ast::Star;
use crate::ast::Text;
use crate::ast::Variable;
use crate::ast::VariableExpression;
use crate::ast::Variant;
use crate::ast::slice_at;
use crate::ast::span_in;
use crate::ast::boundary_with_room;
use crate::ast::source_fits;
use crate::ast::lemma_slice_at_end;
use crate::ast::lemma_ascii_offsets;
use crate::ast::lemma_identifier_span;
use crate::ast::lemma_same_literal;
use crate::ast::attributes_wf;
use crate::ast::options_fit;
use crate::ast::options_wf;
use crate::ast::lemma_literal_or_variable_span;
use crate::ast::lemma_literal_span;
use crate::ast::lemma_key_span;
use crate::ast::lemma_matcher_fits;
use crate::ast::lemma_body_span;
use crate::ast::lemma_declaration_span;
use crate::ast::lemma_text_span;
use crate::ast::lemma_escape_span;
use crate::ast::lemma_pattern_part_span;
use crate::chars::digit_char;
use crate::chars::is_digit;
use crate::chars::is_name_char;
use crate::chars::is_name_start;
use crate::chars::is_quoted_char;
use crate::chars::is_space;
use crate::chars::name_char;
use crate::chars::name_start_char;
use crate::chars::space_char;
use crate::diagnostic::Diagnostic;
use crate::lines::is_boundary;
use crate::strings::byte_offset;
use crate::strings::lemma_byte_offset_end;
use crate::strings::lemma_byte_offset_mono;
use crate::strings::lemma_byte_offset_step;
use crate::strings::lemma_subrange_len;
use crate::strings::lemma_str_len;
use crate::strings::str_eq;
use crate::strings::utf8_len;
use crate::strings::utf8_width;
use crate::text::LengthShort;
use crate::text::Location;
use crate::text::SourceTextInfo;
use crate::text::SourceTextIterator;
use crate::text::Span;
use crate::text::Spanned;

verus! {

/// Facts about the location of the character at index `i` of `s`.
pub proof fn lemma_char_loc(s: Seq<char>, i: int)
    requires
        0 <= i <= s.len(),
    ensures
        is_boundary(s, byte_offset(s, i) as int),
        byte_offset(s, i) <= utf8_len(s),
        i < s.len() ==> byte_offset(s, i + 1) == byte_offset(s, i) + utf8_width(s[i]),
        i < s.len() ==> is_boundary(s, byte_offset(s, i + 1) as int),
        i < s.len() ==> byte_offset(s, i + 1) <= utf8_len(s),
{
    lemma_byte_offset_end(s);
    lemma_byte_offset_mono(s, i, s.len() as int);
    if i < s.len() {
        lemma_byte_offset_step(s, i);
        lemma_byte_offset_mono(s, i + 1, s.len() as int);
        assert(is_boundary(s, byte_offset(s, i + 1) as int));
    }
    assert(is_boundary(s, byte_offset(s, i) as int));
}

/// The part of `s` between two character indices sits at the location of the
/// first one.
pub proof fn lemma_slice_at(s: Seq<char>, i: int, j: int)
    requires
        0 <= i <= j <= s.len(),
    ensures
        slice_at(s, byte_offset(s, i) as int, s.subrange(i, j)),
        byte_offset(s, i) + utf8_len(s.subrange(i, j)) == byte_offset(s, j),
{
    lemma_subrange_len(s, i, j);
}

/// A character that has no meaning in a pattern's syntax.
pub open spec fn plain_char(c: char) -> bool {
    c != '\\' && c != '{' && c != '}' && c != '\0'
}

/// The characters of `s` from index `a` to index `b` have no meaning in a
/// pattern's syntax.
pub open spec fn plain_between(s: Seq<char>, a: int, b: int) -> bool {
    forall|k: int| a <= k < b ==> plain_char(#[trigger] s[k])
}

/// Each part lies in `s`, within its limits, and ends by `bound`.
pub open spec fn parts_placed(parts: Seq<PatternPart>, s: Seq<char>, bound: int) -> bool {
    forall|i: int|
        0 <= i < parts.len() ==> #[trigger] parts[i].wf(s) && parts[i].fits()
            && parts[i].spec_span().end.byte() <= bound
}

/// Where the parts end: the end of the last one, or `a` when there is none.
pub open spec fn parts_end(parts: Seq<PatternPart>, a: int) -> int {
    if parts.len() == 0 {
        a
    } else {
        parts.last().spec_span().end.byte() as int
    }
}

/// The parts follow each other with nothing between them, the first one
/// starting at `a`.
pub open spec fn parts_contiguous(parts: Seq<PatternPart>, a: int) -> bool {
    &&& parts.len() > 0 ==> parts[0].spec_span().start.byte() == a
    &&& forall|i: int, j: int|
        0 <= i && j == i + 1 && j < parts.len() ==> #[trigger] parts[i].spec_span().end.byte()
            == #[trigger] parts[j].spec_span().start.byte()
}

/// `s` ends in a backslash that escapes nothing, which starts at byte `b`.
pub open spec fn ends_in_lone_backslash(s: Seq<char>, b: int) -> bool {
    &&& s.len() > 0
    &&& s.last() == '\\'
    &&& b == byte_offset(s, s.len() - 1)
}

/// `s` ends in a backslash at byte `b` that escapes nothing, and the last
/// diagnostic of `ds` reports it.
pub open spec fn lone_backslash_reported(s: Seq<char>, b: int, ds: Seq<Diagnostic>) -> bool {
    &&& ends_in_lone_backslash(s, b)
    &&& ds.len() > 0
    &&& ds.last() == Diagnostic::EscapeMissingCharacter { slash_loc: Location(b as u32) }
}

/// A part that starts where the others end keeps them contiguous.
proof fn lemma_push_contiguous(parts: Seq<PatternPart>, part: PatternPart, a: int)
    requires
        parts_contiguous(parts, a),
        part.spec_span().start.byte() == parts_end(parts, a),
    ensures
        parts_contiguous(parts.push(part), a),
        parts_end(parts.push(part), a) == part.spec_span().end.byte(),
{
    let q = parts.push(part);
    assert forall|i: int, j: int|
        0 <= i && j == i + 1 && j < q.len() implies #[trigger] q[i].spec_span().end.byte()
            == #[trigger] q[j].spec_span().start.byte() by {
        assert(q[i] == parts[i]);
        if j < parts.len() {
            assert(q[j] == parts[j]);
        }
    }
}

/// Adding a part that starts after the others keeps them placed and in order.
proof fn lemma_push_part(parts: Seq<PatternPart>, part: PatternPart, s: Seq<char>, b0: int, b1: int)
    requires
        parts_placed(parts, s, b0),
        parts_ordered(parts),
        part.wf(s),
        part.fits(),
        b0 <= part.spec_span().start.byte(),
        part.spec_span().end.byte() <= b1,
        b0 <= b1,
    ensures
        parts_placed(parts.push(part), s, b1),
        parts_ordered(parts.push(part)),
{
    let q = parts.push(part);
    assert forall|i: int| 0 <= i < q.len() implies #[trigger] q[i].wf(s) && q[i].fits()
        && q[i].spec_span().end.byte() <= b1 by {
        if i < parts.len() {
            assert(q[i] == parts[i]);
        }
    }
    assert forall|i: int, j: int| 0 <= i < j < q.len() implies #[trigger] q[i].spec_span().end.byte()
        <= #[trigger] q[j].spec_span().start.byte() by {
        assert(q[i] == parts[i]);
        assert(parts[i].wf(s));
        if j < parts.len() {
            assert(q[j] == parts[j]);
        }
    }
}

/// A larger bound keeps parts placed.
proof fn lemma_placed_weaken(parts: Seq<PatternPart>, s: Seq<char>, b0: int, b1: int)
    requires
        parts_placed(parts, s, b0),
        b0 <= b1,
    ensures
        parts_placed(parts, s, b1),
{
    if !parts_placed(parts, s, b1) {
        let i = choose|i: int|
            !(0 <= i < parts.len() ==> #[trigger] parts[i].wf(s) && parts[i].fits()
                && parts[i].spec_span().end.byte() <= b1);
        assert(parts[i].wf(s));
        assert(false);
    }
}

/// A keyword of five ASCII letters after a dot at index `pa` takes six
/// bytes, and its end is a boundary.
proof fn lemma_keyword(s: Seq<char>, pa: int, pn: int, kw: Seq<char>)
    requires
        0 <= pa,
        pa + 1 <= pn <= s.len(),
        s[pa] == '.',
        kw.len() == 5,
        forall|k: int| 0 <= k < 5 ==> (#[trigger] kw[k] as u32) < 0x80,
        s.subrange(pa + 1, pn) =~= kw,
    ensures
        pn == pa + 6,
        is_boundary(s, byte_offset(s, pa) + 6int),
        byte_offset(s, pa) + 6 <= byte_offset(s, pn),
{
    let t = s.subrange(pa + 1, pn);
    assert(t.len() == 5);
    assert forall|k: int| pa <= k < pa + 6 implies (#[trigger] s[k] as u32) < 0x80 by {
        if k > pa {
            assert(s[k] == t[k - pa - 1]);
            assert(t[k - pa - 1] == kw[k - pa - 1]);
        }
    }
    lemma_ascii_len(s, pa, pa + 6);
    lemma_slice_at(s, pa, pa + 6);
    lemma_char_loc(s, pa + 6);
}

/// The index at which the run of name characters that starts at index `k`
/// of `s` ends.
pub open spec fn name_run_end(s: Seq<char>, k: int) -> int
    decreases s.len() - k,
{
    if 0 <= k < s.len() && name_char(s[k]) {
        name_run_end(s, k + 1)
    } else {
        k
    }
}

/// A run of name characters from `a` to `e` that no name character follows
/// ends at `e`.
proof fn lemma_name_run_end(s: Seq<char>, a: int, e: int)
    requires
        0 <= a <= e <= s.len(),
        forall|k: int| a <= k < e ==> name_char(#[trigger] s[k]),
        e < s.len() ==> !name_char(s[e]),
    ensures
        name_run_end(s, a) == e,
    decreases e - a,
{
    if a < e {
        lemma_name_run_end(s, a + 1, e);
    }
}

/// At index `i` of `s` stands the inside of a placeholder that holds a
/// variable, alone or with a function: `$`, a name, then either the
/// closing `}`, or a space, a colon, the function's name and the closing
/// `}`.
pub open spec fn variable_body_at(s: Seq<char>, i: int) -> bool {
    let ne = name_run_end(s, i + 2);
    &&& 0 <= i
    &&& i + 1 < s.len()
    &&& s[i] == '$'
    &&& name_start_char(s[i + 1])
    &&& ne < s.len()
    &&& (s[ne] == '}' || (s[ne] == ' ' && bare_function_at(s, ne + 1)))
}

/// The name of the function of such a body, if it has one.
pub open spec fn body_function(s: Seq<char>, i: int) -> Option<Seq<char>> {
    let ne = name_run_end(s, i + 2);
    if s[ne] == '}' {
        None
    } else {
        Some(s.subrange(ne + 2, name_run_end(s, ne + 3)))
    }
}

/// The index of the closing brace of such a body.
pub open spec fn body_close(s: Seq<char>, i: int) -> int {
    let ne = name_run_end(s, i + 2);
    if s[ne] == '}' {
        ne
    } else {
        name_run_end(s, ne + 3)
    }
}

/// The shape of the part that such a body makes: the variable by its name,
/// with the name of its function if it has one.
pub open spec fn body_shape(s: Seq<char>, i: int) -> PartShape {
    PartShape::Variable(s.subrange(i + 1, name_run_end(s, i + 2)), body_function(s, i))
}

/// At index `i` of `s` stands a name that no colon follows.
pub open spec fn plain_name_at(s: Seq<char>, i: int) -> bool {
    &&& 0 <= i < s.len()
    &&& name_start_char(s[i])
    &&& !(name_run_end(s, i + 1) < s.len() && s[name_run_end(s, i + 1)] == ':')
}

/// At index `i` of `s` stands a function annotation with no namespace and
/// no option, right before a `}`: a colon and a name.
pub open spec fn bare_function_at(s: Seq<char>, i: int) -> bool {
    &&& 0 <= i
    &&& i + 1 < s.len()
    &&& s[i] == ':'
    &&& name_start_char(s[i + 1])
    &&& name_run_end(s, i + 2) < s.len()
    &&& s[name_run_end(s, i + 2)] == '}'
}

/// An annotation of the function `name`, with no namespace and no option.
pub open spec fn is_bare_function(a: Annotation, name: Seq<char>) -> bool {
    a matches Annotation::Function(f) && f.id.namespace is None && f.id.name@ == name
        && f.options.len() == 0
}

/// A character that a backslash escapes in text: a brace, a bar or a
/// backslash.
pub open spec fn escapable(c: char) -> bool {
    c == '}' || c == '{' || c == '|' || c == '\\'
}

/// At index `i` of `s` stands an escape: a backslash and a character that
/// it escapes.
pub open spec fn escape_at(s: Seq<char>, i: int) -> bool {
    0 <= i && i + 1 < s.len() && s[i] == '\\' && escapable(s[i + 1])
}

/// At index `i` of `s` stands a placeholder that holds a variable, alone
/// or with a function that has no namespace and no option: `{$name}` or
/// `{$name :function}`, with no other space and no attribute.
pub open spec fn variable_placeholder_at(s: Seq<char>, i: int) -> bool {
    0 <= i < s.len() && s[i] == '{' && variable_body_at(s, i + 1)
}

/// The index after the placeholder of a variable at index `i`.
pub open spec fn variable_placeholder_end(s: Seq<char>, i: int) -> int {
    body_close(s, i + 1) + 1
}

/// A variable expression of the variable `name`, with no attribute, and
/// with the function `function` where there is one and no annotation
/// otherwise.
pub open spec fn is_bare_variable(e: Expression, name: Seq<char>, function: Option<Seq<char>>) -> bool {
    &&& e matches Expression::VariableExpression(x) && x.attributes.len() == 0
        && x.variable.name@ == name && match function {
        None => x.annotation is None,
        Some(f) => x.annotation matches Some(a) && is_bare_function(a, f),
    }
}

/// A run of name characters ends at or after its start.
pub proof fn lemma_name_run_end_ge(s: Seq<char>, k: int)
    ensures
        name_run_end(s, k) >= k,
        0 <= k <= s.len() ==> name_run_end(s, k) <= s.len(),
    decreases s.len() - k,
{
    if 0 <= k < s.len() && name_char(s[k]) {
        lemma_name_run_end_ge(s, k + 1);
    }
}

/// The index just past the variable whose `$` stands at index `q` of `s`:
/// past its name, or right after the `$` when no name starts there.
pub open spec fn variable_end(s: Seq<char>, q: int) -> int {
    if q + 1 < s.len() && name_start_char(s[q + 1]) {
        name_run_end(s, q + 2)
    } else {
        q + 1
    }
}

/// The indices of the `$` of each selector of a matcher whose selectors are
/// read from index `p` of `s`: spaces are passed over, and each `$` starts a
/// variable, up to the first other character.
pub open spec fn selector_starts(s: Seq<char>, p: int) -> Seq<int>
    decreases s.len() - p,
{
    if 0 <= p < s.len() && space_char(s[p]) {
        selector_starts(s, p + 1)
    } else if 0 <= p < s.len() && s[p] == '$' {
        proof {
            lemma_name_run_end_ge(s, p + 2);
        }
        seq![p] + selector_starts(s, variable_end(s, p))
    } else {
        seq![]
    }
}

/// The index at which the selectors read from index `p` of `s` end: the
/// first character, past spaces and variables, that is neither.
pub open spec fn selectors_end(s: Seq<char>, p: int) -> int
    decreases s.len() - p,
{
    if 0 <= p < s.len() && space_char(s[p]) {
        selectors_end(s, p + 1)
    } else if 0 <= p < s.len() && s[p] == '$' {
        proof {
            lemma_name_run_end_ge(s, p + 2);
        }
        selectors_end(s, variable_end(s, p))
    } else {
        p
    }
}

/// Spaces before the selectors do not change them.
proof fn lemma_selector_starts_spaces(s: Seq<char>, p: int, q: int)
    requires
        0 <= p <= q <= s.len(),
        forall|k: int| p <= k < q ==> space_char(#[trigger] s[k]),
    ensures
        selector_starts(s, p) == selector_starts(s, q),
        selectors_end(s, p) == selectors_end(s, q),
    decreases q - p,
{
    if p < q {
        lemma_selector_starts_spaces(s, p + 1, q);
    }
}

/// Variable `v` was read from the `$` at index `q` of `s`.
pub open spec fn selector_read(v: Variable, s: Seq<char>, q: int) -> bool {
    &&& v.span.start.byte() == byte_offset(s, q)
    &&& v.name@ == s.subrange(q + 1, variable_end(s, q))
}

/// The index at which the run of plain characters that starts at index `a`
/// of `s` ends.
pub open spec fn plain_run_end(s: Seq<char>, a: int) -> int
    decreases s.len() - a,
{
    if 0 <= a < s.len() && plain_char(s[a]) {
        plain_run_end(s, a + 1)
    } else {
        a
    }
}

/// A run of plain characters ends at or after its start.
pub proof fn lemma_plain_run_end_ge(s: Seq<char>, a: int)
    ensures
        plain_run_end(s, a) >= a,
        0 <= a <= s.len() ==> plain_run_end(s, a) <= s.len(),
        0 <= a ==> plain_between(s, a, plain_run_end(s, a)),
    decreases s.len() - a,
{
    if 0 <= a < s.len() && plain_char(s[a]) {
        lemma_plain_run_end_ge(s, a + 1);
    }
}

/// A run of plain characters from `a` to `b` that no plain character
/// follows ends at `b`.
proof fn lemma_plain_run_end(s: Seq<char>, a: int, b: int)
    requires
        0 <= a <= b <= s.len(),
        plain_between(s, a, b),
        b < s.len() ==> !plain_char(s[b]),
    ensures
        plain_run_end(s, a) == b,
    decreases b - a,
{
    if a < b {
        lemma_plain_run_end(s, a + 1, b);
    }
}

/// From index `a` to its end, `s` is text whose characters have no meaning
/// in the syntax, escapes, and placeholders that hold a variable alone.
pub open spec fn text_and_variables_from(s: Seq<char>, a: int) -> bool
    decreases s.len() - a,
{
    let e = plain_run_end(s, a);
    proof {
        lemma_plain_run_end_ge(s, a);
        lemma_name_run_end_ge(s, e + 3);
        lemma_name_run_end_ge(s, name_run_end(s, e + 3) + 3);
    }
    ||| e >= s.len()
    ||| variable_placeholder_at(s, e) && text_and_variables_from(s, variable_placeholder_end(s, e))
    ||| escape_at(s, e) && text_and_variables_from(s, e + 2)
}

/// A part of a pattern as its text shows it: a text, an escape by the
/// character that it escapes, or a placeholder that holds a variable, by
/// its name and the name of its function if it has one.
pub enum PartShape {
    Text(Seq<char>),
    Escape(char),
    Variable(Seq<char>, Option<Seq<char>>),
}

/// The parts that text, escapes and placeholders of variables from index
/// `a` of `s` make: each run of text, each escape and each variable.
pub open spec fn text_and_variables_shapes(s: Seq<char>, a: int) -> Seq<PartShape>
    decreases s.len() - a,
{
    let e = plain_run_end(s, a);
    proof {
        lemma_plain_run_end_ge(s, a);
        lemma_name_run_end_ge(s, e + 3);
        lemma_name_run_end_ge(s, name_run_end(s, e + 3) + 3);
    }
    let text = if e > a {
        seq![PartShape::Text(s.subrange(a, e))]
    } else {
        seq![]
    };
    if e < s.len() && variable_placeholder_at(s, e) {
        text + seq![body_shape(s, e + 1)] + text_and_variables_shapes(s, variable_placeholder_end(s, e))
    } else if escape_at(s, e) {
        text + seq![PartShape::Escape(s[e + 1])] + text_and_variables_shapes(s, e + 2)
    } else {
        text
    }
}

/// Part `p` is what `sh` describes.
pub open spec fn has_shape(p: PatternPart, sh: PartShape) -> bool {
    match sh {
        PartShape::Text(c) => p matches PatternPart::Text(t) && t.content@ == c,
        PartShape::Escape(c) => p matches PatternPart::Escape(x) && x.escaped_char == c,
        PartShape::Variable(n, f) => p matches PatternPart::Expression(x) && is_bare_variable(x, n, f),
    }
}

/// Each part is what the shape at its index describes.
pub open spec fn parts_have_shapes(parts: Seq<PatternPart>, shapes: Seq<PartShape>) -> bool {
    &&& parts.len() == shapes.len()
    &&& forall|i: int| 0 <= i < parts.len() ==> has_shape(#[trigger] parts[i], shapes[i])
}

/// Where text and placeholders of variables stand from `a` on, a character
/// other than plain text after the run of text starts such a placeholder.
proof fn lemma_frag_at_placeholder(s: Seq<char>, a: int)
    requires
        0 <= a,
        text_and_variables_from(s, a),
        plain_run_end(s, a) < s.len(),
    ensures
        variable_placeholder_at(s, plain_run_end(s, a)) || escape_at(s, plain_run_end(s, a)),
        variable_placeholder_at(s, plain_run_end(s, a)) ==> text_and_variables_from(
            s,
            variable_placeholder_end(s, plain_run_end(s, a)),
        ),
        escape_at(s, plain_run_end(s, a)) ==> text_and_variables_from(s, plain_run_end(s, a) + 2),
{
}

/// Adding a part of the shape that is added keeps the parts described.
proof fn lemma_shapes_push(parts: Seq<PatternPart>, shp: Seq<PartShape>, p: PatternPart, sh: PartShape)
    requires
        parts_have_shapes(parts, shp),
        has_shape(p, sh),
    ensures
        parts_have_shapes(parts.push(p), shp.push(sh)),
{
    assert forall|i: int| 0 <= i < parts.len() + 1 implies has_shape(
        #[trigger] parts.push(p)[i],
        shp.push(sh)[i],
    ) by {
        if i < parts.len() {
            assert(parts.push(p)[i] == parts[i]);
            assert(shp.push(sh)[i] == shp[i]);
        }
    }
}

/// The message is a complex one: its first character other than a space is
/// a dot, or a brace followed by another.
pub open spec fn starts_complex(s: Seq<char>) -> bool {
    exists|i: int|
        0 <= i < s.len() && #[trigger] spaces_before(s, i) && (s[i] == '.' || (s[i] == '{' && i + 1
            < s.len() && s[i + 1] == '{'))
}

/// Every character before index `i` is a space.
pub open spec fn spaces_before(s: Seq<char>, i: int) -> bool {
    forall|k: int| 0 <= k < i ==> space_char(#[trigger] s[k])
}

/// A character that starts a literal or a variable.
pub open spec fn literal_or_variable_start(c: char) -> bool {
    c == '$' || c == '|' || name_start_char(c) || c == '-' || c == '.' || digit_char(c)
}

/// The operand read at index `p` of `s`, if any, is of the kind that the
/// character there starts: a variable at `$` (with its name up to
/// `variable_end`), a quoted literal at `|`, a name literal at the start of
/// a name, and a number otherwise.
pub open spec fn operand_read(r: Option<LiteralOrVariable>, s: Seq<char>, p: int) -> bool {
    match r {
        Some(LiteralOrVariable::Variable(v)) => {
            &&& p < s.len() && s[p] == '$'
            &&& selector_read(v, s, p)
        },
        Some(LiteralOrVariable::Literal(Literal::Quoted(_))) => p < s.len() && s[p] == '|',
        Some(LiteralOrVariable::Literal(Literal::Text(_))) => p < s.len() && name_start_char(s[p]),
        Some(LiteralOrVariable::Literal(Literal::Number(_))) => {
            p < s.len() && (s[p] == '-' || s[p] == '.' || digit_char(s[p]))
        },
        None => true,
    }
}

/// The index of the first character at or after index `k` of `s` that is
/// not a space.
pub open spec fn spaces_end(s: Seq<char>, k: int) -> int
    decreases s.len() - k,
{
    if 0 <= k < s.len() && space_char(s[k]) {
        spaces_end(s, k + 1)
    } else {
        k
    }
}

/// A run of spaces from `a` to `e` that no space follows ends at `e`.
proof fn lemma_spaces_end(s: Seq<char>, a: int, e: int)
    requires
        0 <= a <= e <= s.len(),
        forall|k: int| a <= k < e ==> space_char(#[trigger] s[k]),
        e < s.len() ==> !space_char(s[e]),
    ensures
        spaces_end(s, a) == e,
    decreases e - a,
{
    if a < e {
        lemma_spaces_end(s, a + 1, e);
    }
}

/// After index `q` of `s`, past any spaces, stands a colon.
pub open spec fn colon_after(s: Seq<char>, q: int) -> bool {
    let k = spaces_end(s, q);
    0 <= k < s.len() && s[k] == ':'
}

/// An expression read from index `p` of `s` that starts with an operand has
/// an annotation exactly when a colon follows the operand, past any spaces.
pub open spec fn annotation_read(r: Expression, s: Seq<char>, p: int) -> bool {
    p < s.len() && literal_or_variable_start(s[p]) ==> exists|q: int|
        0 <= q <= s.len() && byte_offset(s, q) == #[trigger] operand_end(r) && (
        expression_annotation(r) is Some) == colon_after(s, q)
}

/// Where the operand of an expression ends.
pub open spec fn operand_end(r: Expression) -> int {
    match r {
        Expression::VariableExpression(x) => x.variable.span.end.byte() as int,
        Expression::LiteralExpression(x) => x.literal.spec_span().end.byte() as int,
        Expression::AnnotationExpression(x) => x.span.start.byte() as int,
    }
}

/// The annotation of an expression, if any.
pub open spec fn expression_annotation<'t>(r: Expression<'t>) -> Option<Annotation<'t>> {
    match r {
        Expression::VariableExpression(x) => x.annotation,
        Expression::LiteralExpression(x) => x.annotation,
        Expression::AnnotationExpression(x) => Some(x.annotation),
    }
}

/// The index of the `$` of the variable that an input declaration read from
/// index `p` of `s` declares, when there is one: past spaces an opening
/// brace, and past spaces after it a `$`.
pub open spec fn input_variable_at(s: Seq<char>, p: int) -> Option<int> {
    let k = spaces_end(s, p);
    let v = spaces_end(s, k + 1);
    if 0 <= k < s.len() && s[k] == '{' && 0 <= v < s.len() && s[v] == '$' {
        Some(v)
    } else {
        None
    }
}

/// What `spaces_end` gives: the spaces it passes, and the character it stops
/// at.
proof fn lemma_spaces_end_props(s: Seq<char>, a: int)
    requires
        0 <= a <= s.len(),
    ensures
        a <= spaces_end(s, a) <= s.len(),
        forall|j: int| a <= j < spaces_end(s, a) ==> space_char(#[trigger] s[j]),
        spaces_end(s, a) < s.len() ==> !space_char(s[spaces_end(s, a)]),
    decreases s.len() - a,
{
    if a < s.len() && space_char(s[a]) {
        lemma_spaces_end_props(s, a + 1);
    }
}

/// When a complex message read from index `p` of `s` opens, past spaces,
/// with an `.input` keyword followed by a variable in braces, or a `.local`
/// keyword followed by a variable, an equals sign and a brace, the index of
/// that variable's `$`.
pub open spec fn first_declared_at(s: Seq<char>, p: int) -> Option<int> {
    let k = spaces_end(s, p);
    let e = name_run_end(s, k + 2);
    if 0 <= k && k + 1 < s.len() && s[k] == '.' && s.subrange(k + 1, e) == seq!['i', 'n', 'p', 'u', 't'] {
        input_variable_at(s, e)
    } else if 0 <= k && k + 1 < s.len() && s[k] == '.' && s.subrange(k + 1, e) == seq![
        'l',
        'o',
        'c',
        'a',
        'l',
    ] {
        local_variable_at(s, e)
    } else {
        None
    }
}

/// The variable that a declaration declares was read from the `$` at index
/// `v` of `s`.
pub open spec fn declares_variable_at(d: Declaration, s: Seq<char>, v: int) -> bool {
    match d {
        Declaration::InputDeclaration(x) => selector_read(x.expression.variable, s, v),
        Declaration::LocalDeclaration(x) => selector_read(x.variable, s, v),
    }
}

/// The first of the declarations declares the variable whose `$` stands at
/// index `v` of `s`.
pub open spec fn first_declares(ds: Seq<Declaration>, s: Seq<char>, v: int) -> bool {
    ds.len() > 0 && declares_variable_at(ds[0], s, v)
}

/// The kind of expression read from index `p` of `s` follows the character
/// there: an operand makes a literal or variable expression with that
/// operand (see `operand_read`); without one, a colon makes an annotation
/// expression, and anything else an empty text literal with no annotation.
pub open spec fn expression_read(r: Expression, s: Seq<char>, p: int) -> bool {
    let operand = p < s.len() && literal_or_variable_start(s[p]);
    match r {
        Expression::VariableExpression(x) => operand_read(
            Some(LiteralOrVariable::Variable(x.variable)),
            s,
            p,
        ),
        Expression::LiteralExpression(x) => if operand {
            operand_read(Some(LiteralOrVariable::Literal(x.literal)), s, p)
        } else {
            &&& !(p < s.len() && s[p] == ':')
            &&& x.annotation is None
            &&& x.literal matches Literal::Text(t) && t.content@.len() == 0
        },
        Expression::AnnotationExpression(x) => !operand && p < s.len() && s[p] == ':',
    }
}

/// A character at which an option is read: the start of a key, or (to
/// recover) a colon or an equals sign.
pub open spec fn option_start(c: char) -> bool {
    name_start_char(c) || c == ':' || c == '='
}

/// Every character between `i` and `j` is ASCII.
pub open spec fn ascii_between(s: Seq<char>, i: int, j: int) -> bool {
    forall|k: int| i <= k < j ==> (#[trigger] s[k] as u32) < 0x80
}

/// The text of a number (sign, digits, point, digits, exponent mark, sign,
/// digits) is ASCII.
proof fn lemma_number_text(s: Seq<char>, p0: int, p1: int, p2: int, p3: int, p4: int, pe: int)
    requires
        0 <= p0 <= p1 <= p2 <= p3 <= p4 <= pe <= s.len(),
        p1 > p0 ==> s[p0] == '-',
        p1 <= p0 + 1,
        forall|k: int| p1 <= k < p2 ==> digit_char(#[trigger] s[k]),
        p3 > p2 ==> s[p2] == '.',
        forall|k: int| p2 < k < p3 ==> digit_char(#[trigger] s[k]),
        p4 > p3 ==> (s[p3] == 'e' || s[p3] == 'E'),
        p4 <= p3 + 2,
        p4 == p3 + 2 ==> (s[p3 + 1] == '-' || s[p3 + 1] == '+'),
        forall|k: int| p4 <= k < pe ==> digit_char(#[trigger] s[k]),
        p4 == p3 ==> pe == p3,
    ensures
        ascii_between(s, p0, pe),
{
    assert forall|k: int| p0 <= k < pe implies (#[trigger] s[k] as u32) < 0x80 by {
        if k < p1 {
        } else if k < p2 {
            assert(digit_char(s[k]));
        } else if k < p3 {
            if k > p2 {
                assert(digit_char(s[k]));
            }
        } else if k < p4 {
        } else {
            assert(digit_char(s[k]));
        }
    }
}

/// An ASCII part of `s` takes one byte per character.
proof fn lemma_ascii_len(s: Seq<char>, i: int, j: int)
    requires
        0 <= i <= j <= s.len(),
        ascii_between(s, i, j),
    ensures
        utf8_len(s.subrange(i, j)) == j - i,
        forall|k: int| 0 <= k < j - i ==> (#[trigger] s.subrange(i, j)[k] as u32) < 0x80,
{
    let t = s.subrange(i, j);
    assert forall|k: int| 0 <= k < t.len() implies (#[trigger] t[k] as u32) < 0x80 by {
        assert(t[k] == s[i + k]);
    }
    lemma_ascii_offsets(t, t.len() as int);
    assert(t.take(t.len() as int) =~= t);
}

pub struct Parser<'a> {
    text: SourceTextIterator<'a>,
    diagnostics: Vec<Diagnostic<'a>>,
}

/// How a markup tag starts: `{#` or `{/`.
pub enum MarkupStartKind {
    OpenOrStandalone,
    Close,
}

impl<'a> Parser<'a> {
    /// The characters of the message.
    pub closed spec fn src(&self) -> Seq<char> {
        self.text.text()
    }

    /// Index of the next character to read.
    pub closed spec fn pos(&self) -> int {
        self.text.pos()
    }

    /// The diagnostics reported so far.
    pub closed spec fn reported(&self) -> Seq<Diagnostic<'a>> {
        self.diagnostics@
    }

    /// The parser's state is consistent, and every diagnostic reported so far
    /// lies in the message.
    pub closed spec fn inv(&self) -> bool {
        &&& self.text.wf()
        &&& forall|i: int|
            0 <= i < self.diagnostics.len() ==> #[trigger] self.diagnostics[i].wf(self.src())
    }

    /// Byte offset of character index `i`.
    pub open spec fn off(&self, i: int) -> int {
        byte_offset(self.src(), i) as int
    }

    /// `new` is `old` after some more reading.
    pub open spec fn step(old: &Self, new: &Self) -> bool {
        &&& new.inv()
        &&& new.src() == old.src()
        &&& old.pos() <= new.pos()
        &&& new.pos() <= new.src().len()
        &&& kept(old.reported(), new.reported())
    }

    proof fn lemma_inv(&self)
        requires
            self.inv(),
        ensures
            0 <= self.pos() <= self.src().len(),
            utf8_len(self.src()) <= u32::MAX,
            is_boundary(self.src(), self.off(self.pos())),
            self.off(self.pos()) <= utf8_len(self.src()),
    {
        self.text.lemma_wf();
        lemma_char_loc(self.src(), self.pos());
    }

    pub fn new(input: &'a str) -> (r: Self)
        requires
            utf8_len(input@) <= u32::MAX,
        ensures
            r.inv(),
            r.src() == input@,
            r.pos() == 0,
            r.reported() == Seq::<Diagnostic<'a>>::empty(),
    {
        Parser { text: SourceTextIterator::new(input), diagnostics: Vec::new() }
    }

    fn current_location(&self) -> (r: Location)
        requires
            self.inv(),
        ensures
            r.byte() == self.off(self.pos()),
    {
        self.text.current_location()
    }

    fn report(&mut self, diagnostic: Diagnostic<'a>)
        requires
            old(self).inv(),
            diagnostic.wf(old(self).src()),
        ensures
            final(self).inv(),
            final(self).src() == old(self).src(),
            final(self).pos() == old(self).pos(),
            final(self).pos() <= final(self).src().len(),
            final(self).reported() == old(self).reported().push(diagnostic),
            kept(old(self).reported(), final(self).reported()),
    {
        proof {
            self.text.lemma_wf();
        }
        self.diagnostics.push(diagnostic);
        proof {
            assert forall|i: int| 0 <= i < old(self).reported().len() implies #[trigger] self.reported()[i]
                == old(self).reported()[i] by {
                assert(self.diagnostics@ == old(self).diagnostics@.push(diagnostic));
            }
        }
    }

    /// Reports a character after a backslash that cannot be escaped.
    fn report_invalid_escape(&mut self, slash_loc: Location, c: char)
        requires
            old(self).inv(),
            (Diagnostic::EscapeInvalidCharacter { slash_loc, char: c }).wf(old(self).src()),
        ensures
            final(self).inv(),
            final(self).src() == old(self).src(),
            final(self).pos() == old(self).pos(),
            kept(old(self).reported(), final(self).reported()),
            reported_at(final(self).reported(), (Diagnostic::EscapeInvalidCharacter { slash_loc, char: c })),
    {
        let ghost r0 = self.reported();
        self.report(Diagnostic::EscapeInvalidCharacter { slash_loc, char: c });
        proof {
            assert(self.reported()[r0.len() as int] == Diagnostic::EscapeInvalidCharacter { slash_loc, char: c });
        }
    }

    fn next(&mut self) -> (r: Option<(Location, char)>)
        requires
            old(self).inv(),
        ensures
            Self::step(old(self), final(self)),
            old(self).pos() < old(self).src().len() ==> final(self).pos() == old(self).pos() + 1
                && r == Some(
                (Location(old(self).off(old(self).pos()) as u32), old(self).src()[old(self).pos()]),
            ),
            old(self).pos() >= old(self).src().len() ==> final(self).pos() == old(self).pos()
                && r.is_none(),
            final(self).reported() == old(self).reported(),
    {
        proof {
            self.text.lemma_wf();
        }
        let r = self.text.next();
        assert(self.diagnostics == old(self).diagnostics);
        assert(self.text.wf());
        assert(self.src() == old(self).src());
        proof {
            self.text.lemma_wf();
        }
        r
    }

    fn peek(&mut self) -> (r: Option<(Location, char)>)
        requires
            old(self).inv(),
        ensures
            Self::step(old(self), final(self)),
            final(self).pos() == old(self).pos(),
            old(self).pos() < old(self).src().len() ==> r == Some(
                (Location(old(self).off(old(self).pos()) as u32), old(self).src()[old(self).pos()]),
            ),
            old(self).pos() >= old(self).src().len() ==> r.is_none(),
            final(self).reported() == old(self).reported(),
    {
        proof {
            self.text.lemma_wf();
        }
        let r = self.text.peek();
        assert(self.diagnostics == old(self).diagnostics);
        assert(self.text.wf());
        assert(self.src() == old(self).src());
        proof {
            self.text.lemma_wf();
        }
        r
    }

    fn reset_to(&mut self, loc: Location, Ghost(i): Ghost<int>)
        requires
            old(self).inv(),
            0 <= i <= old(self).pos(),
            loc.byte() == old(self).off(i),
        ensures
            final(self).inv(),
            final(self).src() == old(self).src(),
            final(self).pos() == i,
            i <= final(self).src().len(),
            final(self).reported() == old(self).reported(),
    {
        proof {
            self.lemma_inv();
            lemma_byte_offset_mono(self.src(), i, self.pos());
            lemma_char_loc(self.src(), i);
        }
        self.text.reset_to(loc);
        assert(self.diagnostics == old(self).diagnostics);
        proof {
            let p = self.text.pos();
            self.text.lemma_wf();
            if p < i {
                lemma_byte_offset_mono(self.src(), p, i);
            } else if p > i {
                lemma_byte_offset_mono(self.src(), i, p);
            }
        }
    }

    /// The part of the message between two read positions.
    fn slice(&self, range: Range<Location>, Ghost(i): Ghost<int>, Ghost(j): Ghost<int>) -> (r: &'a str)
        requires
            self.inv(),
            0 <= i <= j <= self.src().len(),
            range.start.byte() == self.off(i),
            range.end.byte() == self.off(j),
        ensures
            r@ == self.src().subrange(i, j),
    {
        proof {
            lemma_char_loc(self.src(), i);
            lemma_char_loc(self.src(), j);
            lemma_byte_offset_mono(self.src(), i, j);
        }
        let r = self.text.slice(range);
        proof {
            let (a, b) = choose|a: int, b: int|
                0 <= a <= b <= self.src().len() && byte_offset(self.src(), a) == range.start.byte()
                    && byte_offset(self.src(), b) == range.end.byte() && r@ == self.src().subrange(a, b);
            if a < i {
                lemma_byte_offset_mono(self.src(), a, i);
            } else if a > i {
                lemma_byte_offset_mono(self.src(), i, a);
            }
            if b < j {
                lemma_byte_offset_mono(self.src(), b, j);
            } else if b > j {
                lemma_byte_offset_mono(self.src(), j, b);
            }
        }
        r
    }

    fn slice_text(&self, range: Range<Location>, Ghost(i): Ghost<int>, Ghost(j): Ghost<int>) -> (r: Text<'a>)
        requires
            self.inv(),
            0 <= i <= j <= self.src().len(),
            range.start.byte() == self.off(i),
            range.end.byte() == self.off(j),
        ensures
            r.wf(self.src()),
            r.fits(),
            r.start == range.start,
            r.content@ == self.src().subrange(i, j),
    {
        let start = range.start;
        let content = self.slice(range, Ghost(i), Ghost(j));
        proof {
            self.lemma_inv();
            lemma_slice_at(self.src(), i, j);
        }
        Text { start, content }
    }

    /// An empty text at the current location.
    fn empty_text(&self) -> (r: Text<'a>)
        requires
            self.inv(),
        ensures
            r.wf(self.src()),
            r.fits(),
            r.start.byte() == self.off(self.pos()),
            r.content@.len() == 0,
    {
        let loc = self.current_location();
        proof {
            self.lemma_inv();
        }
        self.slice_text(loc..loc, Ghost(self.pos()), Ghost(self.pos()))
    }

    fn eat(&mut self, c: char) -> (r: Option<Location>)
        requires
            old(self).inv(),
        ensures
            Self::step(old(self), final(self)),
            (old(self).pos() < old(self).src().len() && old(self).src()[old(self).pos()] == c)
                ==> final(self).pos() == old(self).pos() + 1 && r == Some(
                Location(old(self).off(old(self).pos()) as u32),
            ),
            !(old(self).pos() < old(self).src().len() && old(self).src()[old(self).pos()] == c)
                ==> final(self).pos() == old(self).pos() && r.is_none(),
            final(self).reported() == old(self).reported(),
    {
        if let Some((loc, ch)) = self.peek() {
            if ch == c {
                self.next();
                return Some(loc);
            }
        }
        None
    }

    /// Skips spaces, and tells whether there were any.
    fn skip_spaces(&mut self) -> (r: bool)
        requires
            old(self).inv(),
        ensures
            Self::step(old(self), final(self)),
            final(self).reported() == old(self).reported(),
            r == (final(self).pos() > old(self).pos()),
            forall|k: int| old(self).pos() <= k < final(self).pos() ==> space_char(#[trigger] final(self).src()[k]),
            final(self).pos() < final(self).src().len() ==> !space_char(
                final(self).src()[final(self).pos()],
            ),
    {
        let mut any_spaces = false;
        let ghost p0 = self.pos();
        loop
            invariant
                self.inv(),
                self.src() == old(self).src(),
                kept(old(self).reported(), self.reported()),
                p0 == old(self).pos(),
                p0 <= self.pos(),
                any_spaces == (self.pos() > p0),
                self.reported() == old(self).reported(),
                forall|k: int| p0 <= k < self.pos() ==> space_char(#[trigger] self.src()[k]),
            ensures
                self.pos() < self.src().len() ==> !space_char(self.src()[self.pos()]),
            decreases self.src().len() - self.pos(),
        {
            proof {
                self.lemma_inv();
            }
            match self.peek() {
                Some((_, c)) => {
                    if is_space(c) {
                        any_spaces = true;
                        self.next();
                    } else {
                        break;
                    }
                },
                None => {
                    break;
                },
            }
        }
        proof {
            self.lemma_inv();
        }
        any_spaces
    }

    /// Skips a name, if one starts here.
    fn skip_name(&mut self)
        requires
            old(self).inv(),
        ensures
            Self::step(old(self), final(self)),
            final(self).reported() == old(self).reported(),
            final(self).pos() > old(self).pos() ==> name_start_char(
                old(self).src()[old(self).pos()],
            ),
            (old(self).pos() < old(self).src().len() && name_start_char(
                old(self).src()[old(self).pos()],
            )) ==> final(self).pos() > old(self).pos(),
            forall|k: int| old(self).pos() < k < final(self).pos() ==> name_char(#[trigger] final(self).src()[k]),
            final(self).pos() > old(self).pos() && final(self).pos() < final(self).src().len()
                ==> !name_char(final(self).src()[final(self).pos()]),
    {
        proof {
            self.lemma_inv();
        }
        if let Some((_, c)) = self.peek() {
            if is_name_start(c) {
                self.next();
                let ghost p0 = old(self).pos();
                loop
                    invariant
                        self.inv(),
                        self.src() == old(self).src(),
                        kept(old(self).reported(), self.reported()),
                        p0 == old(self).pos(),
                        p0 < self.pos(),
                        self.reported() == old(self).reported(),
                        name_start_char(self.src()[p0]),
                        forall|k: int| p0 < k < self.pos() ==> name_char(#[trigger] self.src()[k]),
                    ensures
                        self.pos() < self.src().len() ==> !name_char(self.src()[self.pos()]),
                    decreases self.src().len() - self.pos(),
                {
                    proof {
                        self.lemma_inv();
                    }
                    match self.peek() {
                        Some((_, c)) => {
                            if is_name_char(c) {
                                self.next();
                            } else {
                                break;
                            }
                        },
                        None => {
                            break;
                        },
                    }
                }
            }
        }
        proof {
            self.lemma_inv();
        }
    }

    /// Reads a name; the caller handles an empty one.
    fn parse_name(&mut self) -> (r: &'a str)
        requires
            old(self).inv(),
        ensures
            Self::step(old(self), final(self)),
            final(self).reported() == old(self).reported(),
            forall|k: int| old(self).pos() < k < final(self).pos() ==> name_char(#[trigger] final(self).src()[k]),
            final(self).pos() > old(self).pos() && final(self).pos() < final(self).src().len()
                ==> !name_char(final(self).src()[final(self).pos()]),
            r@ == final(self).src().subrange(old(self).pos(), final(self).pos()),
            (old(self).pos() < old(self).src().len() && name_start_char(
                old(self).src()[old(self).pos()],
            )) == (r@.len() > 0),
    {
        proof {
            self.lemma_inv();
        }
        let start = self.current_location();
        let ghost i = self.pos();
        self.skip_name();
        let end = self.current_location();
        proof {
            self.lemma_inv();
            lemma_byte_offset_mono(self.src(), i, self.pos());
        }
        self.slice(start..end, Ghost(i), Ghost(self.pos()))
    }

    fn parse_literal_name(&mut self) -> (r: Text<'a>)
        requires
            old(self).inv(),
        ensures
            Self::step(old(self), final(self)),
            r.wf(final(self).src()),
            r.fits(),
            r.start.byte() == old(self).off(old(self).pos()),
            r.content@ == final(self).src().subrange(old(self).pos(), final(self).pos()),
            (old(self).pos() < old(self).src().len() && name_start_char(
                old(self).src()[old(self).pos()],
            )) ==> final(self).pos() > old(self).pos(),
    {
        proof {
            self.lemma_inv();
        }
        let start = self.current_location();
        let ghost i = self.pos();
        self.skip_name();
        let end = self.current_location();
        proof {
            self.lemma_inv();
            lemma_byte_offset_mono(self.src(), i, self.pos());
        }
        self.slice_text(start..end, Ghost(i), Ghost(self.pos()))
    }

    /// Reads a backslash and the character that it escapes.
    fn parse_escape(&mut self) -> (r: Option<Escape>)
        requires
            old(self).inv(),
            old(self).pos() < old(self).src().len(),
            old(self).src()[old(self).pos()] == '\\',
        ensures
            Self::step(old(self), final(self)),
            final(self).pos() > old(self).pos(),
            r matches Some(e) ==> e.wf(final(self).src()) && e.fits() && e.start.byte() == old(
                self,
            ).off(old(self).pos()) && e.spec_span().end.byte() == final(self).off(final(self).pos()),
            r is None ==> final(self).pos() == final(self).src().len(),
            r is None ==> final(self).pos() == old(self).pos() + 1,
            final(self).pos() == escape_next(old(self).src(), old(self).pos()),
            r matches Some(e) ==> part_recovered(PatternPart::Escape(e), final(self).reported()),
            r is None ==> final(self).reported() == old(self).reported().push(
                Diagnostic::EscapeMissingCharacter { slash_loc: Location(old(self).off(old(self).pos()) as u32) },
            ),
            escape_at(old(self).src(), old(self).pos()) ==> {
                &&& final(self).reported() == old(self).reported()
                &&& final(self).pos() == old(self).pos() + 2
                &&& r matches Some(e) && e.escaped_char == old(self).src()[old(self).pos() + 1]
            },
    {
        proof {
            self.lemma_inv();
        }
        let ghost p = self.pos();
        let (start, _) = self.next().unwrap();
        proof {
            self.lemma_inv();
            lemma_char_loc(self.src(), p);
            lemma_char_loc(self.src(), p + 1);
        }
        let nx = self.next();
        let escaped_char = match nx {
            Some((_, c)) => c,
            None => {
                self.report(Diagnostic::EscapeMissingCharacter { slash_loc: start });
                return None;
            },
        };
        proof {
            lemma_char_loc(self.src(), p + 2);
        }
        let ghost r0 = self.reported();
        let invalid = !(escaped_char == '}' || escaped_char == '{' || escaped_char == '|' || escaped_char
            == '\\');
        if invalid {
            self.report_invalid_escape(start, escaped_char);
        }
        proof {
            assert(byte_offset(self.src(), p) == start.byte());
        }
        Some(Escape { start, escaped_char })
    }

    fn parse_variable(&mut self) -> (r: Variable<'a>)
        requires
            old(self).inv(),
            old(self).pos() < old(self).src().len(),
            old(self).src()[old(self).pos()] == '$',
        ensures
            Self::step(old(self), final(self)),
            final(self).pos() > old(self).pos(),
            r.wf(final(self).src()),
            r.span.start.byte() == old(self).off(old(self).pos()),
            r.span.end.byte() == final(self).off(final(self).pos()),
            r.name@ == final(self).src().subrange(old(self).pos() + 1, final(self).pos()),
            final(self).pos() == variable_end(old(self).src(), old(self).pos()),
            variable_recovered(r, final(self).reported()),
            old(self).pos() + 1 < old(self).src().len() && name_start_char(
                old(self).src()[old(self).pos() + 1],
            ) ==> final(self).reported() == old(self).reported() && final(self).pos()
                == name_run_end(old(self).src(), old(self).pos() + 2),
    {
        proof {
            self.lemma_inv();
        }
        let ghost p = self.pos();
        let (start, _) = self.next().unwrap();
        let name = self.parse_name();
        let end = self.current_location();
        proof {
            self.lemma_inv();
            lemma_char_loc(self.src(), p);
            lemma_byte_offset_mono(self.src(), p, self.pos());
            lemma_slice_at(self.src(), p + 1, self.pos());
        }
        let span = Span::new(start..end);
        proof {
            if p + 1 < self.src().len() && name_start_char(self.src()[p + 1]) {
                lemma_name_run_end(self.src(), p + 2, self.pos());
            } else {
                assert(name@.len() == 0);
                assert(self.pos() == p + 1);
            }
        }
        if name.is_empty() {
            self.report(Diagnostic::VariableMissingName { span });
            proof {
                assert(self.reported()[self.reported().len() - 1] == Diagnostic::VariableMissingName { span });
            }
        }
        Variable { span, name }
    }

    /// Reads an identifier, and tells whether it is empty (no namespace and no
    /// name); the caller reports an empty identifier.
    fn parse_identifier(&mut self) -> (r: (Identifier<'a>, bool))
        requires
            old(self).inv(),
        ensures
            Self::step(old(self), final(self)),
            r.0.wf(final(self).src()),
            r.0.fits(),
            r.0.start.byte() == old(self).off(old(self).pos()),
            r.0.start.byte() + r.0.len() == final(self).off(final(self).pos()),
            r.1 == (final(self).pos() == old(self).pos()),
            r.1 == identifier_empty(r.0),
            (old(self).pos() < old(self).src().len() && (name_start_char(
                old(self).src()[old(self).pos()],
            ) || old(self).src()[old(self).pos()] == ':')) == (final(self).pos() > old(self).pos()),
            plain_name_at(old(self).src(), old(self).pos()) ==> {
                &&& final(self).reported() == old(self).reported()
                &&& final(self).pos() == name_run_end(old(self).src(), old(self).pos() + 1)
                &&& r.0.namespace is None
                &&& r.0.name@ == old(self).src().subrange(old(self).pos(), final(self).pos())
            },
    {
        proof {
            self.lemma_inv();
        }
        let ghost p0 = self.pos();
        let start = self.current_location();
        let name_or_namespace = self.parse_name();
        let ghost p1 = self.pos();
        proof {
            if plain_name_at(self.src(), p0) {
                lemma_name_run_end(self.src(), p0 + 1, p1);
            }
        }
        let id = if self.eat(':').is_some() {
            let name = self.parse_name();
            let ghost p2 = self.pos();
            proof {
                self.lemma_inv();
                assert(self.src().subrange(p0, p2) =~= name_or_namespace@ + seq![':'] + name@);
                lemma_slice_at(self.src(), p0, p2);
                lemma_slice_at_end(self.src(), start.byte(), self.src().subrange(p0, p2));
                crate::strings::lemma_utf8_len_concat(name_or_namespace@ + seq![':'], name@);
                crate::strings::lemma_utf8_len_concat(name_or_namespace@, seq![':']);
                crate::strings::lemma_utf8_len_single(':');
            }
            Identifier { start, namespace: Some(name_or_namespace), name }
        } else {
            proof {
                self.lemma_inv();
                lemma_slice_at(self.src(), p0, p1);
            }
            Identifier { start, namespace: None, name: name_or_namespace }
        };
        if id.name.is_empty() && id.namespace.is_some() {
            self.report(Diagnostic::MissingIdentifierName { identifier: id });
        }
        if let Some(ns) = id.namespace {
            if ns.is_empty() {
                self.report(Diagnostic::MissingIdentifierNamespace { identifier: id });
            }
        }
        let is_empty = id.namespace.is_none() && id.name.is_empty();
        (id, is_empty)
    }

    fn parse_quoted(&mut self) -> (r: Quoted<'a>)
        requires
            old(self).inv(),
            old(self).pos() < old(self).src().len(),
            old(self).src()[old(self).pos()] == '|',
        ensures
            Self::step(old(self), final(self)),
            final(self).pos() > old(self).pos(),
            r.wf(final(self).src()),
            r.span.start.byte() == old(self).off(old(self).pos()),
            r.span.end.byte() == final(self).off(final(self).pos()),
            final(self).pos() == quoted_scan(old(self).src(), old(self).pos() + 1),
    {
        proof {
            self.lemma_inv();
        }
        let ghost p0 = self.pos();
        let (open, _) = self.next().unwrap();
        let mut parts: Vec<QuotedPart<'a>> = Vec::new();
        let mut start = self.current_location();
        let ghost mut q = self.pos();
        loop
            invariant
                self.inv(),
                self.src() == old(self).src(),
                kept(old(self).reported(), self.reported()),
                p0 == old(self).pos(),
                0 <= p0 < q <= self.pos() <= self.src().len(),
                start.byte() == self.off(q),
                open.byte() == self.off(p0),
                forall|i: int| 0 <= i < parts.len() ==> #[trigger] parts[i].wf(self.src()),
                quoted_scan(self.src(), p0 + 1) == quoted_scan(self.src(), self.pos()),
            ensures
                self.pos() == self.src().len() || self.src()[self.pos()] == '|',
            decreases self.src().len() - self.pos(),
        {
            proof {
                self.lemma_inv();
            }
            let ghost p = self.pos();
            match self.peek() {
                Some((loc, ch)) => {
                    if ch == '\\' {
                        if start.0 != loc.0 {
                            let t = self.slice_text(start..loc, Ghost(q), Ghost(p));
                            parts.push(QuotedPart::Text(t));
                        }
                        let escape = self.parse_escape();
                        if let Some(escape) = escape {
                            parts.push(QuotedPart::Escape(escape));
                        }
                        start = self.current_location();
                        proof {
                            q = self.pos();
                        }
                        assert(self.pos() > p);
                    } else if ch == '|' {
                        if start.0 != loc.0 {
                            let t = self.slice_text(start..loc, Ghost(q), Ghost(p));
                            parts.push(QuotedPart::Text(t));
                        }
                        break;
                    } else if ch == '\0' {
                        proof {
                            lemma_char_loc(self.src(), p);
                        }
                        self.report(Diagnostic::InvalidNullCharacter { char_loc: loc });
                        self.next();
                        assert(self.pos() > p);
                    } else {
                        self.next();
                        assert(self.pos() > p);
                    }
                },
                None => {
                    break;
                },
            }
        }
        let maybe_close = self.eat('|');
        let end = self.current_location();
        proof {
            self.lemma_inv();
            lemma_char_loc(self.src(), p0);
            lemma_byte_offset_mono(self.src(), p0, self.pos());
        }
        let span = Span::new(open..end);
        if maybe_close.is_none() {
            self.report(Diagnostic::UnterminatedQuoted { span });
        }
        proof {
            assert forall|i: int| 0 <= i < parts.len() implies #[trigger] parts[i].fits() by {
                assert(parts[i].wf(self.src()));
            }
        }
        Quoted { span, parts }
    }

    /// Reads decimal digits.
    fn parse_digits(&mut self) -> (r: &'a str)
        requires
            old(self).inv(),
        ensures
            Self::step(old(self), final(self)),
            r@ == final(self).src().subrange(old(self).pos(), final(self).pos()),
            forall|k: int| old(self).pos() <= k < final(self).pos() ==> digit_char(#[trigger] final(self).src()[k]),
            final(self).pos() < final(self).src().len() ==> !digit_char(
                final(self).src()[final(self).pos()],
            ),
    {
        proof {
            self.lemma_inv();
        }
        let start = self.current_location();
        let ghost p0 = self.pos();
        loop
            invariant
                self.inv(),
                self.src() == old(self).src(),
                kept(old(self).reported(), self.reported()),
                p0 == old(self).pos(),
                p0 <= self.pos(),
                forall|k: int| p0 <= k < self.pos() ==> digit_char(#[trigger] self.src()[k]),
            ensures
                self.pos() < self.src().len() ==> !digit_char(self.src()[self.pos()]),
            decreases self.src().len() - self.pos(),
        {
            proof {
                self.lemma_inv();
            }
            match self.peek() {
                Some((_, c)) => {
                    if is_digit(c) {
                        self.next();
                    } else {
                        break;
                    }
                },
                None => {
                    break;
                },
            }
        }
        let end = self.current_location();
        proof {
            self.lemma_inv();
            lemma_byte_offset_mono(self.src(), p0, self.pos());
        }
        self.slice(start..end, Ghost(p0), Ghost(self.pos()))
    }

    /// Reads a number literal: a sign, digits, a fraction and an exponent,
    /// each part possibly missing; missing parts are reported.
    #[verifier::rlimit(60)]
    #[verifier::spinoff_prover]
    fn parse_number(&mut self) -> (r: Number<'a>)
        requires
            old(self).inv(),
        ensures
            Self::step(old(self), final(self)),
            r.wf(final(self).src()),
            r.fits(),
            r.start.byte() == old(self).off(old(self).pos()),
            r.raw@ == final(self).src().subrange(old(self).pos(), final(self).pos()),
            r.start.byte() + r.raw@.len() == final(self).off(final(self).pos()),
            (old(self).pos() < old(self).src().len() && (old(self).src()[old(self).pos()] == '-'
                || old(self).src()[old(self).pos()] == '.' || digit_char(
                old(self).src()[old(self).pos()],
            ))) ==> final(self).pos() > old(self).pos(),
    {
        proof {
            self.lemma_inv();
        }
        let ghost p0 = self.pos();
        let start = self.current_location();
        let is_negative = self.eat('-').is_some();
        let ghost p1 = self.pos();
        let first_is_zero = match self.peek() {
            Some((_, c)) => c == '0',
            None => false,
        };
        let integral_part = self.parse_digits();
        let ghost p2 = self.pos();
        let fractional_part = if self.eat('.').is_some() {
            Some(self.parse_digits())
        } else {
            None
        };
        let ghost p3 = self.pos();
        let mut exponent_part: Option<(ExponentSign, &'a str)> = None;
        let ghost mut p4 = p3;
        if let Some((_, c)) = self.peek() {
            if c == 'e' || c == 'E' {
                self.next();
                let sign = if self.eat('-').is_some() {
                    ExponentSign::Minus
                } else if self.eat('+').is_some() {
                    ExponentSign::Plus
                } else {
                    ExponentSign::Unsigned
                };
                proof {
                    p4 = self.pos();
                }
                let digits = self.parse_digits();
                exponent_part = Some((sign, digits));
            }
        }
        let end = self.current_location();
        let ghost pe = self.pos();
        proof {
            self.lemma_inv();
            lemma_byte_offset_mono(self.src(), p0, pe);
            lemma_number_text(self.src(), p0, p1, p2, p3, p4, pe);
        }
        let raw = self.slice(start..end, Ghost(p0), Ghost(pe));
        proof {
            let s = self.src();
            lemma_ascii_len(s, p0, pe);
            lemma_ascii_len(s, p1, p2);
            lemma_slice_at(s, p0, pe);
            if let Some(f) = fractional_part {
                lemma_ascii_len(s, p2 + 1, p3);
            }
            if let Some((_, e)) = exponent_part {
                lemma_ascii_len(s, p4, pe);
            }
            lemma_str_len(integral_part);
        }
        let integral_len = LengthShort::new_from_str(integral_part);
        let fractional_len = match fractional_part {
            Some(f) => Some(LengthShort::new_from_str(f)),
            None => None,
        };
        let exponent_len = match exponent_part {
            Some((sign, e)) => Some((sign, LengthShort::new_from_str(e))),
            None => None,
        };
        let num = Number { start, raw, is_negative, integral_len, fractional_len, exponent_len };
        assert(num.wf(self.src()) && num.fits());
        if integral_part.len() > 1 && first_is_zero {
            self.report(Diagnostic::NumberLeadingZeroIntegralPart { number: num });
        }
        if integral_part.is_empty() {
            self.report(Diagnostic::NumberMissingIntegralPart { number: num });
        }
        if let Some(f) = fractional_part {
            if f.is_empty() {
                self.report(Diagnostic::NumberMissingFractionalPart { number: num });
            }
        }
        if let Some((_, e)) = exponent_part {
            if e.is_empty() {
                self.report(Diagnostic::NumberMissingExponentPart { number: num });
            }
        }
        num
    }

    /// Reads a literal or a variable, if one starts here.
    fn parse_literal_or_variable(&mut self) -> (r: Option<LiteralOrVariable<'a>>)
        requires
            old(self).inv(),
        ensures
            Self::step(old(self), final(self)),
            r is Some == (old(self).pos() < old(self).src().len() && literal_or_variable_start(
                old(self).src()[old(self).pos()],
            )),
            r is None ==> final(self).pos() == old(self).pos(),
            r matches Some(v) ==> {
                &&& v.wf(final(self).src())
                &&& v.fits()
                &&& final(self).pos() > old(self).pos()
                &&& v.spec_span().start.byte() == old(self).off(old(self).pos())
                &&& v.spec_span().end.byte() == final(self).off(final(self).pos())
            },
            old(self).pos() + 1 < old(self).src().len() && old(self).src()[old(self).pos()] == '$'
                && name_start_char(old(self).src()[old(self).pos() + 1]) ==> {
                &&& final(self).reported() == old(self).reported()
                &&& final(self).pos() == name_run_end(old(self).src(), old(self).pos() + 2)
                &&& r matches Some(LiteralOrVariable::Variable(v)) && v.name@ == old(self).src().subrange(
                    old(self).pos() + 1,
                    final(self).pos(),
                )
            },
            operand_read(r, old(self).src(), old(self).pos()),
            r matches Some(LiteralOrVariable::Variable(v)) ==> variable_recovered(v, final(self).reported()),
    {
        proof {
            self.lemma_inv();
        }
        let ghost p0 = self.pos();
        let c = match self.peek() {
            Some((_, c)) => c,
            None => {
                return None;
            },
        };
        if c == '$' {
            let v = self.parse_variable();
            assert(v.spec_span().end.byte() == self.off(self.pos()));
            Some(LiteralOrVariable::Variable(v))
        } else if c == '|' {
            let q = self.parse_quoted();
            assert(q.spec_span().end.byte() == self.off(self.pos()));
            Some(LiteralOrVariable::Literal(Literal::Quoted(q)))
        } else if is_name_start(c) {
            let t = self.parse_literal_name();
            proof {
                self.lemma_inv();
                lemma_slice_at(self.src(), p0, self.pos());
            }
            assert(t.wf(self.src()) && t.fits());
            assert(t.spec_span().end.byte() == self.off(self.pos()));
            Some(LiteralOrVariable::Literal(Literal::Text(t)))
        } else if c == '-' || c == '.' || is_digit(c) {
            let n = self.parse_number();
            assert(n.wf(self.src()) && n.fits());
            assert(n.spec_span().end.byte() == self.off(self.pos()));
            Some(LiteralOrVariable::Literal(Literal::Number(n)))
        } else {
            None
        }
    }

    /// Reads an option `key = value`; a missing key or value is reported, and
    /// a missing value becomes an empty text.
    fn parse_option(&mut self) -> (r: FnOrMarkupOption<'a>)
        requires
            old(self).inv(),
        ensures
            Self::step(old(self), final(self)),
            r.wf(final(self).src()),
            r.spec_span().start.byte() == old(self).off(old(self).pos()),
            r.spec_span().end.byte() == final(self).off(final(self).pos()),
            (old(self).pos() < old(self).src().len() && option_start(
                old(self).src()[old(self).pos()],
            )) ==> final(self).pos() > old(self).pos(),
            option_read_at(r, old(self).src(), old(self).pos()),
            option_recovered(r, final(self).reported()),
    {
        proof {
            self.lemma_inv();
        }
        let ghost p0 = self.pos();
        let (key, is_key_empty) = self.parse_identifier();
        let ghost p1 = self.pos();
        proof {
            lemma_identifier_span(key, self.src());
        }
        self.skip_spaces();
        let ghost p2 = self.pos();
        proof {
            lemma_spaces_end(self.src(), p1, p2);
        }
        let value = if let Some(equals_loc) = self.eat('=') {
            let ghost p2e = self.pos();
            self.skip_spaces();
            let ghost p3 = self.pos();
            proof {
                lemma_spaces_end(self.src(), p2e, p3);
            }
            match self.parse_literal_or_variable() {
                Some(v) => {
                    proof {
                        lemma_literal_or_variable_span(v, self.src());
                    }
                    v
                },
                None => {
                    proof {
                        self.lemma_inv();
                        lemma_char_loc(self.src(), p2);
                    }
                    self.reset_to(equals_loc.add_char('='), Ghost(p2 + 1));
                    let here = self.current_location();
                    proof {
                        self.lemma_inv();
                        lemma_byte_offset_mono(self.src(), p0, self.pos());
                    }
                    self.report(Diagnostic::OptionMissingValue { span: Span::new(key.start..here) });
                    let t = self.empty_text();
                    LiteralOrVariable::Literal(Literal::Text(t))
                },
            }
        } else {
            self.reset_to(key.span().end, Ghost(p1));
            let here = self.current_location();
            proof {
                self.lemma_inv();
                lemma_byte_offset_mono(self.src(), p0, self.pos());
            }
            self.report(Diagnostic::OptionMissingValue { span: Span::new(key.start..here) });
            let t = self.empty_text();
            LiteralOrVariable::Literal(Literal::Text(t))
        };
        proof {
            self.lemma_inv();
            lemma_byte_offset_mono(self.src(), p0, self.pos());
        }
        let option = FnOrMarkupOption { key, value };
        if is_key_empty {
            let span = option.span();
            self.report(Diagnostic::OptionMissingKey { span });
            proof {
                assert(span == option.spec_span());
                assert(self.reported().last() == Diagnostic::OptionMissingKey { span });
                assert(self.reported()[self.reported().len() - 1] == Diagnostic::OptionMissingKey { span });
            }
        }
        option
    }

    /// Reads a function annotation `:id option*`, if one starts here, and
    /// records in `had_space` whether spaces followed it.
    fn maybe_parse_annotation(&mut self, had_space: &mut bool) -> (r: Option<Annotation<'a>>)
        requires
            old(self).inv(),
        ensures
            Self::step(old(self), final(self)),
            r is Some == (old(self).pos() < old(self).src().len() && old(self).src()[old(
                self,
            ).pos()] == ':'),
            r is None ==> final(self).pos() == old(self).pos() && *final(had_space) == *old(
                had_space,
            ) && final(self).reported() == old(self).reported(),
            r matches Some(a) ==> {
                &&& a.wf(final(self).src())
                &&& a.fits()
                &&& final(self).pos() > old(self).pos()
                &&& a.spec_span().start.byte() == old(self).off(old(self).pos())
                &&& a.spec_span().end.byte() <= final(self).off(final(self).pos())
            },
            r matches Some(Annotation::Function(f)) ==> function_read(f, old(self).src()),
            r matches Some(Annotation::Function(f)) ==> function_ends_at(f, old(self).src(), final(self).pos()),
            annotation_recovered(r, final(self).reported()),
            bare_function_at(old(self).src(), old(self).pos()) ==> {
                &&& final(self).reported() == old(self).reported()
                &&& final(self).pos() == name_run_end(old(self).src(), old(self).pos() + 2)
                &&& !*final(had_space)
                &&& r matches Some(a) && is_bare_function(
                    a,
                    old(self).src().subrange(old(self).pos() + 1, final(self).pos()),
                )
            },
    {
        proof {
            self.lemma_inv();
        }
        let ghost p0 = self.pos();
        let ghost bare = bare_function_at(self.src(), p0);
        let ghost nre = name_run_end(self.src(), p0 + 2);
        let start = match self.peek() {
            Some((loc, c)) => {
                if c == ':' {
                    loc
                } else {
                    return None;
                }
            },
            None => {
                return None;
            },
        };
        self.next();
        let (id, is_id_empty) = self.parse_identifier();
        proof {
            self.lemma_inv();
            lemma_identifier_span(id, self.src());
            lemma_char_loc(self.src(), p0);
            lemma_byte_offset_mono(self.src(), p0, self.pos());
        }
        let ghost mut last_end: int = id.spec_span().end.byte();
        let ghost e0 = self.pos();
        let ghost mut ends: Seq<int> = Seq::empty();
        let mut options: Vec<FnOrMarkupOption<'a>> = Vec::new();
        loop
            invariant_except_break
                self.pos() == option_prev(ends, e0, options.len() as int),
            invariant
                self.inv(),
                0 <= e0 <= self.src().len(),
                byte_offset(self.src(), e0) == id.spec_span().end.byte(),
                options_placed(options@, self.src(), e0, ends),
                self.src() == old(self).src(),
                kept(old(self).reported(), self.reported()),
                p0 == old(self).pos(),
                p0 < self.pos(),
                start.byte() == self.off(p0),
                is_boundary(self.src(), start.byte()),
                id.wf(self.src()),
                id.fits(),
                id.start.byte() == self.off(p0 + 1),
                options_wf(options@, self.src()),
                options_fit(options@),
                items_recovered(Seq::empty(), options@, self.reported()),
                is_boundary(self.src(), last_end),
                start.byte() <= last_end <= self.off(self.pos()),
                options.len() == 0 ==> last_end == id.spec_span().end.byte(),
                options.len() > 0 ==> last_end == options[options.len() - 1].spec_span().end.byte(),
                bare == bare_function_at(self.src(), p0),
                nre == name_run_end(self.src(), p0 + 2),
                bare ==> {
                    &&& self.pos() == nre
                    &&& options.len() == 0
                    &&& self.reported() == old(self).reported()
                    &&& id.namespace is None
                    &&& id.name@ == self.src().subrange(p0 + 1, nre)
                    &&& !is_id_empty
                },
            ensures
                bare ==> !*had_space,
                !option_follows(self.src(), option_prev(ends, e0, options.len() as int)),
                self.pos() == spaces_end(self.src(), option_prev(ends, e0, options.len() as int)),
            decreases self.src().len() - self.pos(),
        {
            proof {
                self.lemma_inv();
            }
            let ghost pa = self.pos();
            *had_space = self.skip_spaces();
            proof {
                self.lemma_inv();
                lemma_byte_offset_mono(self.src(), pa, self.pos());
                lemma_spaces_end(self.src(), pa, self.pos());
            }
            if !*had_space {
                break;
            }
            let has_option_start = match self.peek() {
                Some((_, c)) => is_name_start(c) || c == ':' || c == '=',
                None => false,
            };
            if !has_option_start {
                break;
            }
            let ghost pb = self.pos();
            let ghost db = self.reported();
            let option = self.parse_option();
            proof {
                self.lemma_inv();
                lemma_byte_offset_mono(self.src(), pb, self.pos());
                last_end = option.spec_span().end.byte();
                lemma_items_kept(Seq::empty(), options@, db, self.reported());
            }
            proof {
                lemma_push_option(options@, option, self.src(), e0, ends, self.pos());
                ends = ends.push(self.pos());
            }
            let ghost prev = options@;
            options.push(option);
            proof {
                assert forall|i: int| 0 <= i < options.len() implies #[trigger] options[i].wf(
                    self.src(),
                ) && options[i].fits() by {
                    if i < options.len() - 1 {
                        assert(options@[i] == prev[i]);
                    }
                }
                assert forall|i: int| 0 <= i < options.len() implies #[trigger] option_recovered(
                    options@[i],
                    self.reported(),
                ) by {
                    if i < options.len() - 1 {
                        assert(options@[i] == prev[i]);
                    }
                }
            }
        }
        proof {
            self.lemma_inv();
        }
        let function = Function { start, id, options };
        proof {
            assert(options_placed(function.options@, old(self).src(), e0, ends));
            assert(options_read(function.options@, old(self).src(), e0));
            assert(function_read(function, old(self).src()));
            assert(function_ends_at(function, old(self).src(), self.pos()));
        }
        assert(function.spec_span().end.byte() == last_end);
        let ghost df = self.reported();
        if is_id_empty {
            let span = function.span();
            self.report(Diagnostic::FunctionMissingIdentifier { span });
            proof {
                assert(self.reported()[self.reported().len() - 1] == Diagnostic::FunctionMissingIdentifier {
                    span,
                });
            }
        }
        proof {
            lemma_items_kept(Seq::empty(), function.options@, df, self.reported());
        }
        Some(Annotation::Function(function))
    }

    /// Reads an attribute `@key = value`, with `start` the location of its
    /// `@`; `had_space` tells whether spaces came before it, and afterwards
    /// whether spaces followed it.
    fn parse_attribute(&mut self, start: Location, had_space: &mut bool) -> (r: Attribute<'a>)
        requires
            old(self).inv(),
            old(self).pos() < old(self).src().len(),
            old(self).src()[old(self).pos()] == '@',
            start.byte() == old(self).off(old(self).pos()),
        ensures
            Self::step(old(self), final(self)),
            final(self).pos() > old(self).pos(),
            r.wf(final(self).src()),
            r.span.start == start,
            r.span.end.byte() <= final(self).off(final(self).pos()),
            attribute_read_at(r, old(self).src(), old(self).pos()),
            attribute_ends_at(r, old(self).src(), final(self).pos()),
            attribute_stop(r, old(self).src(), final(self).pos(), *final(had_space)),
            attribute_recovered(r, final(self).reported()),
    {
        proof {
            self.lemma_inv();
        }
        let ghost p0 = self.pos();
        self.next();
        let report_missing_space_before = !*had_space;
        let (key, is_key_empty) = self.parse_identifier();
        proof {
            self.lemma_inv();
            lemma_identifier_span(key, self.src());
            lemma_char_loc(self.src(), p0);
            lemma_byte_offset_mono(self.src(), p0, self.pos());
        }
        let mut end = self.current_location();
        let ghost mut pend = self.pos();
        let ghost p1 = self.pos();
        *had_space = self.skip_spaces();
        proof {
            lemma_spaces_end(self.src(), p1, self.pos());
        }
        let mut value: Option<Literal<'a>> = None;
        if self.eat('=').is_some() {
            end = self.current_location();
            proof {
                pend = self.pos();
            }
            let ghost p2e = self.pos();
            *had_space = self.skip_spaces();
            let ghost p3 = self.pos();
            proof {
                lemma_spaces_end(self.src(), p2e, p3);
            }
            match self.parse_literal_or_variable() {
                Some(LiteralOrVariable::Literal(l)) => {
                    end = self.current_location();
                    proof {
                        pend = self.pos();
                    }
                    value = Some(l);
                    *had_space = self.skip_spaces();
                    proof {
                        lemma_spaces_end(self.src(), pend, self.pos());
                    }
                },
                Some(LiteralOrVariable::Variable(v)) => {
                    end = self.current_location();
                    let ghost p4 = self.pos();
                    proof {
                        pend = p4;
                        self.lemma_inv();
                        lemma_char_loc(self.src(), p3);
                        lemma_byte_offset_mono(self.src(), p3, p4);
                    }
                    self.report(Diagnostic::AttributeValueIsVariable { span: v.span });
                    let text = self.slice_text(v.span.start..v.span.end, Ghost(p3), Ghost(p4));
                    value = Some(Literal::Text(text));
                    *had_space = self.skip_spaces();
                    proof {
                        lemma_spaces_end(self.src(), pend, self.pos());
                    }
                },
                None => {
                    proof {
                        self.lemma_inv();
                        lemma_byte_offset_mono(self.src(), p0, pend);
                        lemma_char_loc(self.src(), pend);
                    }
                    self.report(Diagnostic::AttributeMissingValue { span: Span::new(start..end) });
                },
            }
        }
        proof {
            self.lemma_inv();
            lemma_byte_offset_mono(self.src(), p0, pend);
            lemma_byte_offset_mono(self.src(), pend, self.pos());
            lemma_char_loc(self.src(), pend);
        }
        let span = Span::new(start..end);
        if report_missing_space_before {
            self.report(Diagnostic::AttributeMissingSpaceBefore { span });
        }
        if is_key_empty {
            self.report(Diagnostic::AttributeMissingKey { span });
            proof {
                assert(self.reported()[self.reported().len() - 1] == Diagnostic::AttributeMissingKey { span });
            }
        }
        let attribute = Attribute { span, key, value };
        proof {
            assert(byte_offset(self.src(), pend) == attribute.span.end.byte());
            assert(attribute_ends_at(attribute, old(self).src(), self.pos()));
            assert(attribute_stop(attribute, old(self).src(), self.pos(), *had_space));
        }
        attribute
    }

    /// Reads the inside of a placeholder expression and its closing brace;
    /// `start` is the location of the opening brace (at index `ps`), which
    /// the caller consumed together with the spaces after it.
    #[verifier::rlimit(30)]
    fn parse_expression(&mut self, start: Location, Ghost(ps): Ghost<int>) -> (r: Expression<'a>)
        requires
            old(self).inv(),
            0 <= ps < old(self).pos(),
            start.byte() == old(self).off(ps),
            old(self).src()[ps] == '{',
            old(self).pos() == spaces_end(old(self).src(), ps + 1),
        ensures
            Self::step(old(self), final(self)),
            r.wf(final(self).src()),
            r.stored_span().start == start,
            r.stored_span().end.byte() == final(self).off(final(self).pos()),
            expression_read(r, old(self).src(), old(self).pos()),
            annotation_read(r, old(self).src(), old(self).pos()),
            annotation_function_read(r, old(self).src()),
            attributes_read(expression_attributes(r), old(self).src()),
            expression_attributes_read(r, old(self).src(), old(self).pos()),
            expression_recovered(r, final(self).reported()),
            contents_clean(r, old(self).src()) || invalid_contents_reported(final(self).reported()),
            expression_closed(r) || unclosed_reported(final(self).reported()),
            expression_closed(r) ==> final(self).pos() > 0 && final(self).src()[final(self).pos() - 1]
                == '}',
            !expression_closed(r) ==> final(self).pos() == final(self).src().len()
                && missing_brace_reported(final(self).reported(), start, final(self).off(final(self).pos())),
            variable_body_at(old(self).src(), old(self).pos()) ==> {
                &&& final(self).reported() == old(self).reported()
                &&& final(self).pos() == body_close(old(self).src(), old(self).pos()) + 1
                &&& has_shape(PatternPart::Expression(r), body_shape(old(self).src(), old(self).pos()))
            },
    {
        proof {
            self.lemma_inv();
            lemma_char_loc(self.src(), ps);
        }
        let ghost p0 = self.pos();
        let ghost bare = variable_body_at(self.src(), p0);
        let ghost e = name_run_end(self.src(), p0 + 2);
        let ghost c = body_close(self.src(), p0);
        let ghost func = body_function(self.src(), p0);
        let lit_or_var = self.parse_literal_or_variable();
        let ghost dv = self.reported();
        let ghost glv = lit_or_var;
        proof {
            if let Some(LiteralOrVariable::Literal(Literal::Text(t))) = glv {
                lemma_byte_offset_mono(self.src(), p0, self.pos());
                if t.content@.len() == 0 {
                    assert(utf8_len(t.content@) == 0);
                    assert(false);
                }
            }
        }
        let ghost q = self.pos();
        let had_space_before_annotation = if lit_or_var.is_none() {
            true
        } else {
            self.skip_spaces()
        };
        proof {
            if lit_or_var is Some {
                lemma_spaces_end(self.src(), q, self.pos());
            }
            lemma_char_loc(self.src(), q);
        }
        proof {
            if bare && self.src()[e] == ' ' {
                assert(self.src()[e + 1] == ':');
                assert(!space_char(self.src()[e + 1]));
                assert(self.pos() == e + 1);
            }
        }
        let mut had_space = false;
        let annotation = self.maybe_parse_annotation(&mut had_space);
        let ghost dm = self.reported();
        let ghost ga = annotation;
        match &annotation {
            Some(a) => {
                if !had_space_before_annotation {
                    let span = a.span();
                    self.report(Diagnostic::AnnotationMissingSpaceBefore { span });
                }
            },
            None => {
                had_space = had_space || had_space_before_annotation;
            },
        }
        proof {
            lemma_annotation_kept(ga, dm, self.reported());
        }
        let mut attributes: Vec<Attribute<'a>> = Vec::new();
        let ghost h0 = self.pos();
        let ghost mut aends: Seq<int> = Seq::empty();
        proof {
            if annotation is None && lit_or_var is Some {
                lemma_spaces_end(self.src(), q, self.pos());
                assert(self.off(q) == lit_or_var->0.spec_span().end.byte());
            }
        }
        let ghost anchor_f = annotation_ends_at(annotation, old(self).src(), h0);
        let ghost anchor_o = annotation is None && lit_or_var is Some ==> exists|k: int|
            0 <= k <= old(self).src().len() && #[trigger] byte_offset(old(self).src(), k)
                == lit_or_var->0.spec_span().end.byte() && h0 == spaces_end(old(self).src(), k);
        let ghost anchor_n = annotation is None && lit_or_var is None ==> h0 == p0;
        assert(anchor_f && anchor_o && anchor_n);
        loop
            invariant_except_break
                self.pos() == option_prev(aends, h0, attributes.len() as int),
            invariant
                attributes_placed(attributes@, old(self).src(), h0, aends),
                annotation_recovered(ga, self.reported()),
                items_recovered(attributes@, Seq::empty(), self.reported()),
                kept(dv, self.reported()),
                ga == annotation,
                self.inv(),
                self.src() == old(self).src(),
                kept(old(self).reported(), self.reported()),
                p0 == old(self).pos(),
                0 <= ps < p0 <= self.pos(),
                start.byte() == self.off(ps),
                attributes_wf(attributes@, self.src()),
                attributes_read(attributes@, old(self).src()),
                bare == variable_body_at(self.src(), p0),
                e == name_run_end(self.src(), p0 + 2),
                c == body_close(self.src(), p0),
                func == body_function(self.src(), p0),
                bare ==> {
                    &&& self.pos() == c
                    &&& self.reported() == old(self).reported()
                    &&& attributes.len() == 0
                    &&& match func {
                        None => annotation is None,
                        Some(f) => annotation matches Some(a) && is_bare_function(a, f),
                    }
                    &&& lit_or_var matches Some(LiteralOrVariable::Variable(v)) && v.name@
                        == self.src().subrange(p0 + 1, e)
                },
            ensures
                self.pos() == option_prev(aends, h0, attributes.len() as int),
                !(0 <= self.pos() < self.src().len() && self.src()[self.pos()] == '@'),
            decreases self.src().len() - self.pos(),
        {
            proof {
                self.lemma_inv();
            }
            let ghost pa = self.pos();
            let ghost d0 = self.reported();
            match self.peek() {
                Some((loc, c)) => {
                    if c == '@' {
                        let attribute = self.parse_attribute(loc, &mut had_space);
                        proof {
                            assert(attribute_read(attribute, old(self).src()));
                            lemma_push_attribute(attributes@, attribute, old(self).src(), h0, aends, self.pos());
                            aends = aends.push(self.pos());
                        }
                        let ghost prev = attributes@;
                        attributes.push(attribute);
                        proof {
                            assert forall|i: int| 0 <= i < attributes.len() implies attribute_read(
                                #[trigger] attributes[i],
                                old(self).src(),
                            ) by {
                                if i < attributes.len() - 1 {
                                    assert(attributes@[i] == prev[i]);
                                }
                            }
                            assert forall|i: int| 0 <= i < attributes.len() implies #[trigger] attributes[i].wf(
                                self.src(),
                            ) by {
                                if i < attributes.len() - 1 {
                                    assert(attributes@[i] == prev[i]);
                                }
                            }
                            lemma_annotation_kept(ga, d0, self.reported());
                            lemma_items_kept(prev, Seq::empty(), d0, self.reported());
                            assert forall|i: int| 0 <= i < attributes.len() implies #[trigger] attribute_recovered(
                                attributes@[i],
                                self.reported(),
                            ) by {
                                if i < attributes.len() - 1 {
                                    assert(attributes@[i] == prev[i]);
                                }
                            }
                        }
                    } else {
                        break;
                    }
                },
                None => {
                    break;
                },
            }
        }
        proof {
            self.lemma_inv();
        }
        proof {
            assert(attributes_from(attributes@, old(self).src(), h0));
        }
        let contents_end = self.current_location();
        let ghost pc = self.pos();
        let ghost k0 = lemma_contents_anchor(old(self).src(), attributes@, ga, glv, h0, aends, pc, ps, p0);
        let mut after_invalid: Option<Location> = None;
        let mut has_closing_brace = false;
        let ghost mut pinv: int = pc;
        let ghost db = self.reported();
        loop
            invariant_except_break
                !has_closing_brace,
                after_invalid is None ==> forall|j: int| pc <= j < self.pos() ==> space_char(#[trigger] self.src()[j]),
            invariant
                kept(db, self.reported()),
                self.inv(),
                self.src() == old(self).src(),
                kept(old(self).reported(), self.reported()),
                p0 == old(self).pos(),
                0 <= ps < p0 <= pc <= pinv <= self.pos(),
                start.byte() == self.off(ps),
                contents_end.byte() == self.off(pc),
                after_invalid matches Some(l) ==> l.byte() == self.off(pinv),
                bare == variable_body_at(self.src(), p0),
                e == name_run_end(self.src(), p0 + 2),
                c == body_close(self.src(), p0),
                bare ==> pc == c && after_invalid is None && self.reported() == old(self).reported()
                    && (if has_closing_brace {
                    self.pos() == c + 1
                } else {
                    self.pos() == c
                }),
            ensures
                bare ==> has_closing_brace,
                has_closing_brace ==> self.pos() > 0 && self.src()[self.pos() - 1] == '}',
                !has_closing_brace ==> self.pos() == self.src().len() && self.reported().len() > 0
                    && is_missing_brace(self.reported().last(), start, self.off(self.pos())),
                has_closing_brace && after_invalid is None ==> forall|j: int|
                    pc <= j < self.pos() - 1 ==> space_char(#[trigger] self.src()[j]),
            decreases self.src().len() - self.pos(),
        {
            proof {
                self.lemma_inv();
            }
            let ghost pa = self.pos();
            match self.peek() {
                Some((_, c)) => {
                    if c == '|' {
                        self.parse_quoted();
                        after_invalid = Some(self.current_location());
                        proof {
                            pinv = self.pos();
                        }
                    } else if c == '}' {
                        self.next();
                        has_closing_brace = true;
                        proof {
                            assert(self.pos() == pa + 1);
                        }
                        break;
                    } else if is_space(c) {
                        self.next();
                    } else if c == '\\' {
                        self.parse_escape();
                        after_invalid = Some(self.current_location());
                        proof {
                            pinv = self.pos();
                        }
                    } else {
                        self.next();
                        after_invalid = Some(self.current_location());
                        proof {
                            pinv = self.pos();
                        }
                    }
                },
                None => {
                    let here = self.current_location();
                    proof {
                        self.lemma_inv();
                        lemma_byte_offset_mono(self.src(), ps, self.pos());
                    }
                    self.report(
                        Diagnostic::PlaceholderMissingClosingBrace { span: Span::new(start..here) },
                    );
                    break;
                },
            }
        }
        proof {
            self.lemma_inv();
            lemma_char_loc(self.src(), pc);
            lemma_char_loc(self.src(), pinv);
            lemma_byte_offset_mono(self.src(), pc, pinv);
            lemma_byte_offset_mono(self.src(), ps, self.pos());
        }
        let ghost nr = self.reported().len();
        let ghost pend = self.pos();
        if let Some(invalid_end) = after_invalid {
            self.report(
                Diagnostic::PlaceholderInvalidContents { span: Span::new(contents_end..invalid_end) },
            );
        }
        let ghost dinv = self.reported();
        proof {
            if !has_closing_brace {
                assert(is_missing_brace(self.reported()[nr - 1], start, self.off(self.pos())));
            }
        }
        let end = self.current_location();
        let span = Span::new(start..end);
        let ghost al = attributes@;
        let ghost mut dmb: Seq<Diagnostic> = Seq::empty();
        let result = match lit_or_var {
            Some(LiteralOrVariable::Variable(variable)) => {
                Expression::VariableExpression(
                    VariableExpression { span, variable, annotation, attributes, has_closing_brace },
                )
            },
            Some(LiteralOrVariable::Literal(literal)) => {
                Expression::LiteralExpression(
                    LiteralExpression { span, literal, annotation, attributes, has_closing_brace },
                )
            },
            None => {
                match annotation {
                    Some(annotation) => {
                        Expression::AnnotationExpression(
                            AnnotationExpression { span, annotation, attributes, has_closing_brace },
                        )
                    },
                    None => {
                        let ghost mb = self.reported();
                        self.report(Diagnostic::PlaceholderMissingBody { span });
                        proof {
                            dmb = self.reported();
                            if !has_closing_brace {
                                assert(self.reported()[nr - 1] == mb[nr - 1]);
                                assert(is_missing_brace(self.reported()[nr - 1], start, self.off(self.pos())));
                            }
                        }
                        let text = self.slice_text(start..start, Ghost(ps), Ghost(ps));
                        Expression::LiteralExpression(
                            LiteralExpression {
                                span,
                                literal: Literal::Text(text),
                                annotation: None,
                                attributes,
                                has_closing_brace,
                            },
                        )
                    },
                }
            },
        };
        proof {
            assert(kept(db, self.reported()));
            lemma_items_kept(al, Seq::empty(), db, self.reported());
            lemma_annotation_kept(ga, db, self.reported());
            assert(kept(dv, self.reported()));
            if let Some(LiteralOrVariable::Variable(v)) = glv {
                if v.name@.len() == 0 {
                    lemma_reported_kept(dv, self.reported(), Diagnostic::VariableMissingName { span: v.span });
                }
            }
            assert(expression_attributes(result) == al);
            let ghost gr = result;
            if let Expression::LiteralExpression(x) = gr {
                if x.annotation is None && x.literal is Text && x.literal->Text_0.content@.len() == 0 {
                    assert(glv is None);
                    assert(dmb[dmb.len() - 1] == Diagnostic::PlaceholderMissingBody { span: x.span });
                    lemma_reported_kept(dmb, self.reported(), Diagnostic::PlaceholderMissingBody { span: x.span });
                }
            }
            assert(expression_recovered(result, self.reported()));
            if after_invalid is Some {
                assert(dinv[nr as int] is PlaceholderInvalidContents);
                assert(kept(dinv, self.reported()));
                assert(self.reported()[nr as int] == dinv[nr as int]);
                assert(invalid_contents_reported(self.reported()));
            } else if has_closing_brace {
                let sq = old(self).src();
                assert(contents_end_byte(result) == contents_end_of(al, ga, glv, start.byte() as int));
                lemma_spaces_end_props(sq, k0);
                let cb = pend - 1;
                crate::strings::lemma_byte_offset_step(sq, cb);
                assert(result.stored_span().end.byte() == byte_offset(sq, cb) + 1);
                assert forall|j: int|
                    k0 <= j < sq.len() && byte_offset(sq, j) + 1 < result.stored_span().end.byte() implies space_char(
                    #[trigger] sq[j],
                ) by {
                    if j >= cb {
                        lemma_byte_offset_mono(sq, cb, j);
                    }
                }
                assert(contents_clean(result, sq));
            }
            assert(attributes_anchor(result, old(self).src(), p0, h0));
            assert(expression_attributes_read(result, old(self).src(), p0));
        }
        result
    }

    /// Skips what cannot stand in a markup tag, from `start` (at index `ps`)
    /// up to a brace, slash, at-sign, or the start of an option after
    /// spaces, and reports it; `had_space` tells whether spaces end it.
    fn skip_invalid_markup_contents(
        &mut self,
        start: Location,
        Ghost(ps): Ghost<int>,
        had_space: &mut bool,
    )
        requires
            old(self).inv(),
            0 <= ps <= old(self).pos(),
            start.byte() == old(self).off(ps),
        ensures
            Self::step(old(self), final(self)),
            (old(self).pos() < old(self).src().len() && !(old(self).src()[old(self).pos()] == '}'
                || old(self).src()[old(self).pos()] == '/' || old(self).src()[old(self).pos()]
                == '@')) ==> final(self).pos() > old(self).pos(),
            (final(self).pos(), *final(had_space)) == invalid_scan(old(self).src(), old(self).pos(), false),
    {
        proof {
            self.lemma_inv();
        }
        let ghost p0 = self.pos();
        let mut last_space_start: Option<Location> = None;
        let ghost mut pl: int = p0;
        loop
            invariant
                self.inv(),
                self.src() == old(self).src(),
                kept(old(self).reported(), self.reported()),
                p0 == old(self).pos(),
                0 <= ps <= p0 <= self.pos(),
                start.byte() == self.off(ps),
                p0 <= pl <= self.pos(),
                last_space_start matches Some(l) ==> l.byte() == self.off(pl),
                (p0 < self.src().len() && !(self.src()[p0] == '}' || self.src()[p0] == '/'
                    || self.src()[p0] == '@') && self.pos() == p0) ==> last_space_start is None,
                invalid_scan(self.src(), p0, false) == invalid_scan(
                    self.src(),
                    self.pos(),
                    last_space_start is Some,
                ),
            ensures
                invalid_scan(self.src(), p0, false) == (self.pos(), last_space_start is Some),
                (p0 < self.src().len() && !(self.src()[p0] == '}' || self.src()[p0] == '/'
                    || self.src()[p0] == '@')) ==> self.pos() > p0,
            decreases self.src().len() - self.pos(),
        {
            proof {
                self.lemma_inv();
            }
            let ghost pa = self.pos();
            match self.peek() {
                Some((loc, c)) => {
                    if c == '}' || c == '/' || c == '@' {
                        break;
                    } else if c == '\\' {
                        self.parse_escape();
                        last_space_start = None;
                    } else if c == '|' {
                        self.parse_quoted();
                        last_space_start = None;
                    } else if is_space(c) {
                        if last_space_start.is_none() {
                            last_space_start = Some(loc);
                            proof {
                                pl = pa;
                            }
                        }
                        self.next();
                    } else if (is_name_start(c) || c == ':' || c == '=')
                        && last_space_start.is_some() {
                        break;
                    } else {
                        self.next();
                        last_space_start = None;
                    }
                },
                None => {
                    break;
                },
            }
        }
        proof {
            self.lemma_inv();
            lemma_char_loc(self.src(), pl);
            lemma_char_loc(self.src(), ps);
            lemma_byte_offset_mono(self.src(), ps, pl);
            lemma_byte_offset_mono(self.src(), ps, self.pos());
        }
        let end = match last_space_start {
            Some(l) => {
                *had_space = true;
                l
            },
            None => {
                *had_space = false;
                self.current_location()
            },
        };
        if end.0 != start.0 {
            self.report(Diagnostic::MarkupInvalidContents { span: Span::new(start..end) });
        }
    }

    /// Reads a markup tag; `open` is the location of its opening brace (at
    /// index `po`), which the caller consumed, and the sigil `#` or `/` comes
    /// next.
    #[verifier::rlimit(40)]
    fn parse_markup(&mut self, open: Location, Ghost(po): Ghost<int>, kind: MarkupStartKind) -> (r: Markup<'a>)
        requires
            old(self).inv(),
            0 <= po < old(self).pos() < old(self).src().len(),
            open.byte() == old(self).off(po),
            old(self).src()[old(self).pos()] == '#' || old(self).src()[old(self).pos()] == '/',
        ensures
            Self::step(old(self), final(self)),
            final(self).pos() > old(self).pos(),
            r.wf(final(self).src()),
            r.span.start == open,
            r.span.end.byte() == final(self).off(final(self).pos()),
            r.kind is Open ==> kind is OpenOrStandalone,
            r.kind is Close ==> kind is Close,
            forall|i: int| 0 <= i < r.options.len() ==> option_read(#[trigger] r.options[i], old(self).src()),
            attributes_read(r.attributes@, old(self).src()),
            markup_items_read(r, old(self).src()),
            markup_recovered(r, final(self).reported()),
            r.kind is Standalone ==> exists|j: int|
                old(self).pos() < j && #[trigger] self_close_ends(old(self).src(), j, final(self).pos()),
            kind is OpenOrStandalone && plain_self_closing_at(old(self).src(), old(self).pos()) is Some
                ==> r.kind is Standalone && final(self).pos() == plain_self_closing_at(
                old(self).src(),
                old(self).pos(),
            )->0,
            plain_name_at(old(self).src(), old(self).pos() + 1) ==> r.id.namespace is None && r.id.name@
                == old(self).src().subrange(
                old(self).pos() + 1,
                name_run_end(old(self).src(), old(self).pos() + 2),
            ),
    {
        proof {
            self.lemma_inv();
        }
        let ghost p0 = self.pos();
        let (sigil_loc, _) = self.next().unwrap();
        let spaces_before_id = self.skip_spaces();
        let ghost pk = self.pos();
        let (id, is_id_empty) = self.parse_identifier();
        let ghost pid = self.pos();
        proof {
            self.lemma_inv();
            lemma_identifier_span(id, self.src());
            lemma_char_loc(self.src(), p0);
            lemma_byte_offset_mono(self.src(), p0 + 1, pk);
        }
        if spaces_before_id && !is_id_empty {
            self.report(Diagnostic::MarkupInvalidSpaceBeforeIdentifier { id, start_loc: sigil_loc });
        }
        let mut markup_kind = match kind {
            MarkupStartKind::OpenOrStandalone => MarkupKind::Open,
            MarkupStartKind::Close => MarkupKind::Close,
        };
        let mut options: Vec<FnOrMarkupOption<'a>> = Vec::new();
        let mut attributes: Vec<Attribute<'a>> = Vec::new();
        let mut had_space = self.skip_spaces();
        let ghost sc = kind is OpenOrStandalone && plain_self_closing_at(self.src(), p0) is Some;
        let ghost sj = spaces_end(self.src(), name_run_end(self.src(), p0 + 2));
        proof {
            lemma_spaces_end(self.src(), pid, self.pos());
            if plain_name_at(self.src(), p0 + 1) {
                assert(pid == name_run_end(self.src(), p0 + 2));
            }
        }
        let mut report_missing_close = false;
        let ghost h0 = self.pos();
        let ghost sp0 = had_space;
        let ghost mut kinds: Seq<int> = Seq::empty();
        let ghost mut heads: Seq<int> = seq![h0];
        let ghost mut sps: Seq<bool> = seq![sp0];
        proof {
            assert(markup_items_placed(attributes@, options@, self.src(), kinds, heads, sps));
        }
        loop
            invariant_except_break
                !(markup_kind is Standalone),
                sc ==> self.pos() == sj,
                heads.last() == self.pos(),
                sps.last() == had_space,
            invariant
                markup_items_placed(attributes@, options@, old(self).src(), kinds, heads, sps),
                items_recovered(attributes@, options@, self.reported()),
                heads.len() >= 1,
                heads[0] == h0,
                sps[0] == sp0,
                self.inv(),
                self.src() == old(self).src(),
                kept(old(self).reported(), self.reported()),
                p0 == old(self).pos(),
                0 <= po < p0 < self.pos(),
                open.byte() == self.off(po),
                options_wf(options@, self.src()),
                forall|i: int| 0 <= i < options.len() ==> option_read(#[trigger] options[i], old(self).src()),
                attributes_wf(attributes@, self.src()),
                attributes_read(attributes@, old(self).src()),
                markup_kind is Open ==> kind is OpenOrStandalone,
                markup_kind is Close ==> kind is Close,
                sc == (kind is OpenOrStandalone && plain_self_closing_at(self.src(), p0) is Some),
                sj == spaces_end(self.src(), name_run_end(self.src(), p0 + 2)),
                plain_name_at(old(self).src(), p0 + 1) ==> id.namespace is None && id.name@
                    == old(self).src().subrange(p0 + 1, name_run_end(old(self).src(), p0 + 2)),
            ensures
                markup_kind is Standalone ==> exists|j: int|
                    p0 < j && #[trigger] self_close_ends(self.src(), j, self.pos()),
                sc ==> markup_kind is Standalone && self.pos() == plain_self_closing_at(self.src(), p0)->0,
                markup_stop(old(self).src(), heads.last()),
            decreases self.src().len() - self.pos(),
        {
            proof {
                self.lemma_inv();
            }
            let ghost pa = self.pos();
            let ghost d0 = self.reported();
            match self.peek() {
                Some((loc, c)) => {
                    if c == '@' {
                        let attribute = self.parse_attribute(loc, &mut had_space);
                        proof {
                            assert(attribute_read(attribute, old(self).src()));
                        }
                        let ghost prev = attributes@;
                        attributes.push(attribute);
                        proof {
                            assert forall|i: int| 0 <= i < attributes.len() implies attribute_read(
                                #[trigger] attributes[i],
                                old(self).src(),
                            ) by {
                                if i < attributes.len() - 1 {
                                    assert(attributes@[i] == prev[i]);
                                }
                            }
                            assert forall|i: int| 0 <= i < attributes.len() implies #[trigger] attributes[i].wf(
                                self.src(),
                            ) by {
                                if i < attributes.len() - 1 {
                                    assert(attributes@[i] == prev[i]);
                                }
                            }
                            lemma_kind_count_push(kinds, 0, 0);
                            lemma_kind_count_push(kinds, 0, 1);
                            assert(kinds.push(0).take(kinds.len() as int) =~= kinds);
                            lemma_push_item(
                                prev,
                                options@,
                                attributes@,
                                options@,
                                old(self).src(),
                                kinds,
                                heads,
                                sps,
                                0,
                                self.pos(),
                                had_space,
                            );
                            kinds = kinds.push(0);
                            heads = heads.push(self.pos());
                            sps = sps.push(had_space);
                            lemma_items_kept(prev, options@, d0, self.reported());
                            assert forall|i: int| 0 <= i < attributes.len() implies #[trigger] attribute_recovered(
                                attributes@[i],
                                self.reported(),
                            ) by {
                                if i < attributes.len() - 1 {
                                    assert(attributes@[i] == prev[i]);
                                }
                            }
                        }
                    } else if c == '/' {
                        self.next();
                        let ghost pb = self.pos();
                        had_space = self.skip_spaces();
                        proof {
                            self.lemma_inv();
                            lemma_char_loc(self.src(), pa);
                            lemma_byte_offset_mono(self.src(), pb, self.pos());
                            lemma_spaces_end(self.src(), pb, self.pos());
                        }
                        let ghost pq = self.pos();
                        match self.peek() {
                            Some((_, c2)) => {
                                if c2 == '}' {
                                    if had_space {
                                        let here = self.current_location();
                                        self.report(
                                            Diagnostic::MarkupInvalidSpaceBetweenSelfCloseAndBrace {
                                                space: Span::new(loc.add_char('/')..here),
                                            },
                                        );
                                    }
                                    let ghost pc = self.pos();
                                    self.next();
                                    if let MarkupKind::Close = markup_kind {
                                        self.report(
                                            Diagnostic::MarkupCloseInvalidSelfClose {
                                                self_close_loc: loc,
                                            },
                                        );
                                    }
                                    markup_kind = MarkupKind::Standalone;
                                    report_missing_close = false;
                                    proof {
                                        lemma_items_kept(attributes@, options@, d0, self.reported());
                                        assert(self.pos() == pc + 1);
                                        assert(self_close_ends(self.src(), pa, self.pos()));
                                        if sc {
                                            lemma_spaces_end(self.src(), pb, pc);
                                        }
                                    }
                                    break;
                                } else {
                                    self.skip_invalid_markup_contents(loc, Ghost(pa), &mut had_space);
                                    proof {
                                        assert(!option_start('/'));
                                        assert(!self_closing_slash(old(self).src(), pa));
                                        lemma_kind_count_push(kinds, 2, 0);
                                        lemma_kind_count_push(kinds, 2, 1);
                                        assert(kinds.push(2).take(kinds.len() as int) =~= kinds);
                                        lemma_push_item(
                                            attributes@,
                                            options@,
                                            attributes@,
                                            options@,
                                            old(self).src(),
                                            kinds,
                                            heads,
                                            sps,
                                            2,
                                            self.pos(),
                                            had_space,
                                        );
                                        kinds = kinds.push(2);
                                        heads = heads.push(self.pos());
                                        sps = sps.push(had_space);
                                        lemma_items_kept(attributes@, options@, d0, self.reported());
                                    }
                                }
                            },
                            None => {
                                if let MarkupKind::Close = markup_kind {
                                    self.report(
                                        Diagnostic::MarkupCloseInvalidSelfClose {
                                            self_close_loc: loc,
                                        },
                                    );
                                }
                                markup_kind = MarkupKind::Standalone;
                                report_missing_close = true;
                                proof {
                                    lemma_items_kept(attributes@, options@, d0, self.reported());
                                    assert(self_close_ends(self.src(), pa, self.pos()));
                                    if sc {
                                        lemma_spaces_end(self.src(), pb, self.pos());
                                    }
                                }
                                break;
                            },
                        }
                    } else if c == '}' {
                        self.next();
                        report_missing_close = false;
                        break;
                    } else if had_space && (is_name_start(c) || c == ':' || c == '=') {
                        let option = self.parse_option();
                        let ghost d1 = self.reported();
                        let n = attributes.len();
                        if n > 0 {
                            let previous_attribute = attributes[n - 1].duplicate();
                            let option_copy = option.duplicate();
                            proof {
                                let a = attributes@[n - 1];
                                assert(a.wf(self.src()));
                                if let Some(v) = a.value {
                                    lemma_same_literal(v, previous_attribute.value->0, self.src());
                                }
                                if option.value is Literal {
                                    lemma_same_literal(
                                        option.value->Literal_0,
                                        option_copy.value->Literal_0,
                                        self.src(),
                                    );
                                }
                            }
                            self.report(
                                Diagnostic::MarkupOptionAfterAttribute {
                                    previous_attribute,
                                    option: option_copy,
                                },
                            );
                        }
                        proof {
                            lemma_char_loc(self.src(), pa);
                            assert(option_read(option, old(self).src()));
                        }
                        let ghost prev = options@;
                        let ghost oend = self.pos();
                        options.push(option);
                        proof {
                            assert forall|i: int| 0 <= i < options.len() implies #[trigger] options[i].wf(
                                self.src(),
                            ) by {
                                if i < options.len() - 1 {
                                    assert(options@[i] == prev[i]);
                                }
                            }
                            assert forall|i: int| 0 <= i < options.len() implies option_read(
                                #[trigger] options[i],
                                old(self).src(),
                            ) by {
                                if i < options.len() - 1 {
                                    assert(options@[i] == prev[i]);
                                }
                            }
                        }
                        had_space = self.skip_spaces();
                        proof {
                            lemma_spaces_end(self.src(), oend, self.pos());
                            let o = options@[options.len() - 1];
                            assert(byte_offset(old(self).src(), oend) == o.spec_span().end.byte());
                            assert(option_stop(o, old(self).src(), self.pos(), had_space));
                            lemma_kind_count_push(kinds, 1, 0);
                            lemma_kind_count_push(kinds, 1, 1);
                            assert(kinds.push(1).take(kinds.len() as int) =~= kinds);
                            lemma_push_item(
                                attributes@,
                                prev,
                                attributes@,
                                options@,
                                old(self).src(),
                                kinds,
                                heads,
                                sps,
                                1,
                                self.pos(),
                                had_space,
                            );
                            kinds = kinds.push(1);
                            heads = heads.push(self.pos());
                            sps = sps.push(had_space);
                            lemma_items_kept(attributes@, prev, d0, self.reported());
                            if identifier_empty(o.key) {
                                lemma_reported_kept(d1, self.reported(), Diagnostic::OptionMissingKey { span: o.spec_span() });
                            }
                            assert forall|i: int| 0 <= i < options.len() implies #[trigger] option_recovered(
                                options@[i],
                                self.reported(),
                            ) by {
                                if i < options.len() - 1 {
                                    assert(options@[i] == prev[i]);
                                }
                            }
                        }
                    } else {
                        self.skip_invalid_markup_contents(loc, Ghost(pa), &mut had_space);
                        proof {
                            lemma_kind_count_push(kinds, 2, 0);
                            lemma_kind_count_push(kinds, 2, 1);
                            assert(kinds.push(2).take(kinds.len() as int) =~= kinds);
                            lemma_push_item(
                                attributes@,
                                options@,
                                attributes@,
                                options@,
                                old(self).src(),
                                kinds,
                                heads,
                                sps,
                                2,
                                self.pos(),
                                had_space,
                            );
                            kinds = kinds.push(2);
                            heads = heads.push(self.pos());
                            sps = sps.push(had_space);
                            lemma_items_kept(attributes@, options@, d0, self.reported());
                        }
                    }
                },
                None => {
                    report_missing_close = true;
                    break;
                },
            }
        }
        let end = self.current_location();
        proof {
            self.lemma_inv();
            lemma_char_loc(self.src(), po);
            lemma_byte_offset_mono(self.src(), po, self.pos());
        }
        let span = Span::new(open..end);
        let markup = Markup { span, kind: markup_kind, id, options, attributes };
        proof {
            assert(byte_offset(old(self).src(), pid) == markup.id.spec_span().end.byte());
            assert(markup_items_placed(markup.attributes@, markup.options@, old(self).src(), kinds, heads, sps));
            assert(heads[kinds.len() as int] == heads.last());
            assert(markup_items_read(markup, old(self).src()));
        }
        let ghost d2 = self.reported();
        if is_id_empty {
            self.report(Diagnostic::MarkupMissingIdentifier { span });
        }
        proof {
            lemma_items_kept(markup.attributes@, markup.options@, d2, self.reported());
            if identifier_empty(markup.id) {
                assert(self.reported().last() == Diagnostic::MarkupMissingIdentifier { span: markup.span });
                assert(reported_at(self.reported(), Diagnostic::MarkupMissingIdentifier { span: markup.span }));
            }
            assert(markup_recovered(markup, self.reported()));
        }
        let ghost d3 = self.reported();
        if report_missing_close {
            self.report(Diagnostic::MarkupMissingClosingBrace { span });
        }
        proof {
            lemma_markup_kept(markup, d3, self.reported());
        }
        markup
    }

    /// Reads a placeholder: an expression or a markup tag in braces.
    fn parse_placeholder(&mut self) -> (r: PatternPart<'a>)
        requires
            old(self).inv(),
            old(self).pos() < old(self).src().len(),
            old(self).src()[old(self).pos()] == '{',
        ensures
            Self::step(old(self), final(self)),
            final(self).pos() > old(self).pos(),
            r.wf(final(self).src()),
            r.fits(),
            r.spec_span().start.byte() == old(self).off(old(self).pos()),
            r.spec_span().end.byte() == final(self).off(final(self).pos()),
            variable_placeholder_at(old(self).src(), old(self).pos()) ==> {
                &&& final(self).reported() == old(self).reported()
                &&& final(self).pos() == variable_placeholder_end(old(self).src(), old(self).pos())
                &&& has_shape(r, body_shape(old(self).src(), old(self).pos() + 1))
            },
            part_read(r, old(self).src()),
            part_recovered(r, final(self).reported()),
            part_clean(r, final(self).src(), final(self).reported()),
            r is Expression || r is Markup,
            unclosed_placeholder_at(old(self).src(), old(self).pos()) ==> {
                &&& final(self).pos() == final(self).src().len()
                &&& missing_brace_reported(
                    final(self).reported(),
                    Location(old(self).off(old(self).pos()) as u32),
                    final(self).off(final(self).pos()),
                )
            },
    {
        proof {
            self.lemma_inv();
        }
        let ghost p0 = self.pos();
        let (start, _) = self.next().unwrap();
        let ghost p1 = self.pos();
        self.skip_spaces();
        proof {
            lemma_spaces_end(self.src(), p1, self.pos());
        }
        match self.peek() {
            Some((_, c)) => {
                if c == '#' {
                    let ghost pj = self.pos();
                    let m = self.parse_markup(start, Ghost(p0), MarkupStartKind::OpenOrStandalone);
                    proof {
                        assert(markup_read(m, self.src(), pj, self.pos()));
                        assert(byte_offset(self.src(), p0) == m.span.start.byte());
                    }
                    return PatternPart::Markup(m);
                } else if c == '/' {
                    let ghost pj = self.pos();
                    let m = self.parse_markup(start, Ghost(p0), MarkupStartKind::Close);
                    proof {
                        assert(markup_read(m, self.src(), pj, self.pos()));
                        assert(byte_offset(self.src(), p0) == m.span.start.byte());
                    }
                    return PatternPart::Markup(m);
                }
            },
            None => {},
        }
        let e = self.parse_expression(start, Ghost(p0));
        proof {
            assert(byte_offset(self.src(), p0) == e.stored_span().start.byte());
        }
        PatternPart::Expression(e)
    }

    /// Reads a pattern up to the end of the text, or, inside a quoted
    /// pattern, up to its closing `}}`; `start` (at index `ps`) is where its
    /// text begins.
    #[verifier::rlimit(100)]
    #[verifier::spinoff_prover]
    fn parse_pattern(&mut self, start: Location, Ghost(ps): Ghost<int>, inside_quoted: bool) -> (r: Pattern<'a>)
        requires
            old(self).inv(),
            0 <= ps <= old(self).pos(),
            start.byte() == old(self).off(ps),
            forall|k: int| ps <= k < old(self).pos() ==> space_char(#[trigger] old(self).src()[k]),
        ensures
            Self::step(old(self), final(self)),
            r.wf(final(self).src()),
            r.fits(),
            !inside_quoted ==> final(self).pos() == final(self).src().len(),
            inside_quoted ==> final(self).pos() == final(self).src().len() || (final(self).pos() + 1
                < final(self).src().len() && final(self).src()[final(self).pos()] == '}'
                && final(self).src()[final(self).pos() + 1] == '}'),
            !inside_quoted && plain_between(final(self).src(), ps, final(self).src().len() as int) ==> {
                &&& final(self).reported() == old(self).reported()
                &&& r.parts.len() == if ps < final(self).src().len() {
                    1int
                } else {
                    0
                }
                &&& ps < final(self).src().len() ==> (r.parts[0] matches PatternPart::Text(t) && t.start
                    == start && t.content@ == final(self).src().subrange(ps, final(self).src().len() as int))
            },
            !inside_quoted && plain_between(old(self).src(), ps, old(self).pos())
                && text_and_variables_from(old(self).src(), ps) ==> {
                &&& final(self).reported() == old(self).reported()
                &&& parts_have_shapes(r.parts@, text_and_variables_shapes(old(self).src(), ps))
            },
            !inside_quoted && plain_between(old(self).src(), ps, old(self).pos())
                && unclosed_placeholder_at(old(self).src(), plain_run_end(old(self).src(), ps))
                ==> missing_brace_reported(
                final(self).reported(),
                Location(byte_offset(old(self).src(), plain_run_end(old(self).src(), ps)) as u32),
                final(self).off(final(self).pos()),
            ),
            parts_contiguous(r.parts@, start.byte() as int),
            parts_read(r.parts@, old(self).src()),
            parts_recovered(r.parts@, final(self).reported()),
            parts_clean(r.parts@, final(self).src(), final(self).reported()),
            parts_end(r.parts@, start.byte() as int) == final(self).off(final(self).pos())
                || lone_backslash_reported(
                final(self).src(),
                parts_end(r.parts@, start.byte() as int),
                final(self).reported(),
            ),
    {
        proof {
            self.lemma_inv();
        }
        let ghost p0 = self.pos();
        let mut parts: Vec<PatternPart<'a>> = Vec::new();
        let ghost mut dclean = self.reported();
        let mut seg = start;
        let ghost mut pseg = ps;
        let ghost frag = !inside_quoted && plain_between(self.src(), ps, p0)
            && text_and_variables_from(self.src(), ps);
        let ghost mut shp: Seq<PartShape> = seq![];
        let ghost ui = plain_run_end(self.src(), ps);
        let ghost uc = !inside_quoted && plain_between(self.src(), ps, p0) && unclosed_placeholder_at(
            self.src(),
            ui,
        );
        let ghost ul = Location(byte_offset(self.src(), ui) as u32);
        proof {
            if uc {
                lemma_plain_run_end_covers(self.src(), ps, p0);
                lemma_plain_run_end_ge(self.src(), ps);
            }
            assert forall|k: int| ps <= k < p0 implies #[trigger] char_recovered(
                self.src()[k],
                byte_offset(self.src(), k) as int,
                self.reported(),
            ) by {
                assert(space_char(self.src()[k]));
            }
        }
        loop
            invariant
                self.inv(),
                self.src() == old(self).src(),
                kept(old(self).reported(), self.reported()),
                p0 == old(self).pos(),
                0 <= pseg <= self.pos(),
                p0 <= self.pos(),
                seg.byte() == self.off(pseg),
                parts_placed(parts@, self.src(), self.off(pseg)),
                parts_ordered(parts@),
                parts_contiguous(parts@, start.byte() as int),
                parts_read(parts@, old(self).src()),
                parts_recovered(parts@, self.reported()),
                parts_clean(parts@, self.src(), dclean),
                kept(dclean, self.reported()),
                segment_recovered(self.src(), pseg, self.pos(), self.reported()),
                parts_end(parts@, start.byte() as int) == self.off(pseg) || (pseg == self.src().len()
                    && self.pos() == pseg && lone_backslash_reported(
                    self.src(),
                    parts_end(parts@, start.byte() as int),
                    self.reported(),
                )),
                plain_between(self.src(), ps, self.pos()) ==> parts@.len() == 0 && pseg == ps && seg
                    == start && self.reported() == old(self).reported(),
                frag == (!inside_quoted && plain_between(self.src(), ps, p0)
                    && text_and_variables_from(self.src(), ps)),
                ui == plain_run_end(self.src(), ps),
                ul == Location(byte_offset(self.src(), ui) as u32),
                uc ==> plain_between(self.src(), ps, ui) && unclosed_placeholder_at(self.src(), ui),
                uc ==> self.pos() <= ui || (self.pos() == self.src().len() && missing_brace_reported(
                    self.reported(),
                    ul,
                    self.off(self.pos()),
                )),
                frag ==> {
                    &&& self.reported() == old(self).reported()
                    &&& text_and_variables_from(self.src(), pseg)
                    &&& plain_between(self.src(), pseg, self.pos())
                    &&& parts_have_shapes(parts@, shp)
                    &&& shp + text_and_variables_shapes(self.src(), pseg) == text_and_variables_shapes(
                        self.src(),
                        ps,
                    )
                },
            ensures
                !inside_quoted && plain_between(self.src(), ps, self.pos()) ==> parts@.len() == 0 && pseg
                    == ps && seg == start && self.reported() == old(self).reported(),
                !inside_quoted ==> self.pos() == self.src().len(),
                inside_quoted ==> self.pos() == self.src().len() || (self.pos() + 1 < self.src().len()
                    && self.src()[self.pos()] == '}' && self.src()[self.pos() + 1] == '}'),
            decreases self.src().len() - self.pos(),
        {
            proof {
                self.lemma_inv();
            }
            let ghost pa = self.pos();
            proof {
                if frag && pa < self.src().len() && !plain_char(self.src()[pa]) {
                    lemma_plain_run_end(self.src(), pseg, pa);
                    lemma_frag_at_placeholder(self.src(), pseg);
                }
                if uc && pa < ui {
                    assert(plain_char(self.src()[pa]));
                }
            }
            let ghost rep0 = self.reported();
            match self.peek() {
                Some((loc, c)) => {
                    if c == '\\' || c == '{' {
                        proof {
                            lemma_byte_offset_mono(self.src(), pseg, pa);
                        }
                        let ghost shp0 = shp;
                        if loc.0 != seg.0 {
                            let t = self.slice_text(seg..loc, Ghost(pseg), Ghost(pa));
                            proof {
                                lemma_recovered_kept(parts@, self.src(), pseg, pa, rep0, self.reported());
                                lemma_text_recovered(t, self.src(), pseg, pa, self.reported());
                                lemma_push_recovered(parts@, PatternPart::Text(t), self.reported());
                                lemma_text_span(t, self.src());
                                lemma_slice_at(self.src(), pseg, pa);
                                lemma_push_contiguous(parts@, PatternPart::Text(t), start.byte() as int);
                                lemma_push_read(parts@, PatternPart::Text(t), old(self).src());
                                lemma_push_part(
                                    parts@,
                                    PatternPart::Text(t),
                                    self.src(),
                                    self.off(pseg),
                                    self.off(pa),
                                );
                            }
                            parts.push(PatternPart::Text(t));
                            proof {
                                if frag {
                                    lemma_shapes_push(
                                        parts@.drop_last(),
                                        shp,
                                        PatternPart::Text(t),
                                        PartShape::Text(self.src().subrange(pseg, pa)),
                                    );
                                    assert(parts@.drop_last().push(PatternPart::Text(t)) =~= parts@);
                                }
                                shp = shp.push(PartShape::Text(self.src().subrange(pseg, pa)));
                            }
                        }
                        let ghost rep1 = self.reported();
                        proof {
                            lemma_recovered_kept(parts@, self.src(), pa, pa, rep0, rep1);
                        }
                        if c == '\\' {
                            match self.parse_escape() {
                                Some(escape) => {
                                    proof {
                                        lemma_recovered_kept(parts@, self.src(), pa, pa, rep1, self.reported());
                                        lemma_push_recovered(parts@, PatternPart::Escape(escape), self.reported());
                                        lemma_escape_span(escape, self.src());
                                        lemma_push_contiguous(
                                            parts@,
                                            PatternPart::Escape(escape),
                                            start.byte() as int,
                                        );
                                        lemma_push_read(parts@, PatternPart::Escape(escape), old(self).src());
                                        lemma_push_part(
                                            parts@,
                                            PatternPart::Escape(escape),
                                            self.src(),
                                            self.off(pa),
                                            self.off(self.pos()),
                                        );
                                        if frag {
                                            lemma_shapes_push(
                                                parts@,
                                                shp,
                                                PatternPart::Escape(escape),
                                                PartShape::Escape(self.src()[pa + 1]),
                                            );
                                        }
                                        shp = shp.push(PartShape::Escape(self.src()[pa + 1]));
                                    }
                                    parts.push(PatternPart::Escape(escape));
                                },
                                None => {
                                    proof {
                                        lemma_recovered_kept(parts@, self.src(), pa, pa, rep1, self.reported());
                                        self.lemma_inv();
                                        lemma_char_loc(self.src(), pa);
                                        lemma_byte_offset_mono(self.src(), pa, self.pos());
                                        lemma_placed_weaken(
                                            parts@,
                                            self.src(),
                                            self.off(pa),
                                            self.off(self.pos()),
                                        );
                                    }
                                },
                            }
                        } else {
                            proof {
                                if uc && pa == ui {
                                    assert(self.pos() == pa);
                                    assert(unclosed_placeholder_at(self.src(), self.pos()));
                                }
                            }
                            let part = self.parse_placeholder();
                            proof {
                                lemma_clean_kept(parts@, self.src(), dclean, self.reported());
                                dclean = self.reported();
                                lemma_recovered_kept(parts@, self.src(), pa, pa, rep1, self.reported());
                                lemma_push_recovered(parts@, part, self.reported());
                                if uc && pa == ui {
                                    assert(self.pos() == self.src().len());
                                    assert(missing_brace_reported(self.reported(), ul, self.off(self.pos())));
                                }
                                if frag {
                                    lemma_shapes_push(
                                        parts@,
                                        shp,
                                        part,
                                        body_shape(self.src(), pa + 1),
                                    );
                                }
                                shp = shp.push(
                                    body_shape(self.src(), pa + 1),
                                );
                                lemma_pattern_part_span(part, self.src());
                                lemma_push_contiguous(parts@, part, start.byte() as int);
                                lemma_push_read(parts@, part, old(self).src());
                                lemma_push_part(
                                    parts@,
                                    part,
                                    self.src(),
                                    self.off(pa),
                                    self.off(self.pos()),
                                );
                            }
                            parts.push(part);
                        }
                        seg = self.current_location();
                        proof {
                            self.lemma_inv();
                            lemma_char_loc(self.src(), pa);
                            lemma_byte_offset_mono(self.src(), pa, self.pos());
                            if frag {
                                let text: Seq<PartShape> = if pa > pseg {
                                    seq![PartShape::Text(self.src().subrange(pseg, pa))]
                                } else {
                                    seq![]
                                };
                                let var = if c == '\\' {
                                    PartShape::Escape(self.src()[pa + 1])
                                } else {
                                    body_shape(self.src(), pa + 1)
                                };
                                assert(shp =~= shp0 + text + seq![var]);
                                assert(text_and_variables_shapes(self.src(), pseg) == text + seq![var]
                                    + text_and_variables_shapes(self.src(), self.pos()));
                                assert(shp + text_and_variables_shapes(self.src(), self.pos()) =~= shp0
                                    + text_and_variables_shapes(self.src(), pseg));
                            }
                            pseg = self.pos();
                        }
                    } else if c == '}' {
                        self.next();
                        let next_is_brace = match self.peek() {
                            Some((_, c2)) => c2 == '}',
                            None => false,
                        };
                        if inside_quoted && next_is_brace {
                            self.reset_to(loc, Ghost(pa));
                            proof {
                                lemma_recovered_kept(parts@, self.src(), pseg, pa, rep0, self.reported());
                            }
                            break;
                        } else {
                            proof {
                                lemma_char_loc(self.src(), pa);
                            }
                            let ghost r0 = self.reported();
                            self.report(Diagnostic::InvalidClosingBrace { brace_loc: loc });
                            proof {
                                lemma_recovered_kept(parts@, self.src(), pseg, pa, rep0, self.reported());
                                assert(self.reported()[r0.len() as int] == Diagnostic::InvalidClosingBrace {
                                    brace_loc: loc,
                                });
                                assert(char_recovered(self.src()[pa], byte_offset(self.src(), pa) as int, self.reported()));
                                lemma_segment_push(self.src(), pseg, pa, self.reported());
                                assert(self.pos() == pa + 1);
                            }
                        }
                    } else if c == '\0' {
                        proof {
                            lemma_char_loc(self.src(), pa);
                        }
                        let ghost r0 = self.reported();
                        self.report(Diagnostic::InvalidNullCharacter { char_loc: loc });
                        proof {
                            lemma_recovered_kept(parts@, self.src(), pseg, pa, rep0, self.reported());
                            assert(self.reported()[r0.len() as int] == Diagnostic::InvalidNullCharacter {
                                char_loc: loc,
                            });
                            assert(char_recovered(self.src()[pa], byte_offset(self.src(), pa) as int, self.reported()));
                            lemma_segment_push(self.src(), pseg, pa, self.reported());
                        }
                        let ghost r1 = self.reported();
                        self.next();
                        proof {
                            lemma_recovered_kept(parts@, self.src(), pseg, pa + 1, r1, self.reported());
                            assert(self.pos() == pa + 1);
                        }
                    } else {
                        self.next();
                        proof {
                            lemma_recovered_kept(parts@, self.src(), pseg, pa, rep0, self.reported());
                            assert(char_recovered(self.src()[pa], byte_offset(self.src(), pa) as int, self.reported()));
                            lemma_segment_push(self.src(), pseg, pa, self.reported());
                            assert(self.pos() == pa + 1);
                        }
                    }
                },
                None => {
                    break;
                },
            }
        }
        proof {
            self.lemma_inv();
            lemma_char_loc(self.src(), pseg);
            lemma_byte_offset_mono(self.src(), pseg, self.pos());
        }
        let end = self.current_location();
        if end.0 != seg.0 {
            let t = self.slice_text(seg..end, Ghost(pseg), Ghost(self.pos()));
            proof {
                lemma_text_recovered(t, self.src(), pseg, self.pos(), self.reported());
                lemma_push_recovered(parts@, PatternPart::Text(t), self.reported());
                lemma_text_span(t, self.src());
                lemma_slice_at(self.src(), pseg, self.pos());
                lemma_push_contiguous(parts@, PatternPart::Text(t), start.byte() as int);
                lemma_push_read(parts@, PatternPart::Text(t), old(self).src());
                lemma_push_part(
                    parts@,
                    PatternPart::Text(t),
                    self.src(),
                    self.off(pseg),
                    self.off(self.pos()),
                );
            }
            parts.push(PatternPart::Text(t));
            proof {
                if frag {
                    lemma_shapes_push(
                        parts@.drop_last(),
                        shp,
                        PatternPart::Text(t),
                        PartShape::Text(self.src().subrange(pseg, self.pos())),
                    );
                    assert(parts@.drop_last().push(PatternPart::Text(t)) =~= parts@);
                }
                shp = shp.push(PartShape::Text(self.src().subrange(pseg, self.pos())));
            }
        }
        proof {
            if frag {
                lemma_plain_run_end(self.src(), pseg, self.pos());
                if self.pos() > pseg {
                    assert(text_and_variables_shapes(self.src(), pseg) == seq![
                        PartShape::Text(self.src().subrange(pseg, self.pos())),
                    ]);
                } else {
                    assert(text_and_variables_shapes(self.src(), pseg) =~= Seq::<PartShape>::empty());
                }
                assert(shp =~= text_and_variables_shapes(self.src(), ps));
            }
        }
        let pattern = Pattern { parts };
        proof {
            let n = pattern.parts.len();
            assert(parts_placed(pattern.parts@, self.src(), self.off(self.pos())));
            if n > 0 {
                let first = pattern.parts[0];
                let last = pattern.parts[n - 1];
                assert(first.wf(self.src()));
                assert(last.wf(self.src()));
                lemma_pattern_part_span(first, self.src());
                lemma_pattern_part_span(last, self.src());
                if n > 1 {
                    assert(first.spec_span().end.byte() <= last.spec_span().start.byte());
                }
            } else {
                assert(self.src().take(0) =~= Seq::<char>::empty());
                lemma_char_loc(self.src(), 0);
            }
            assert forall|i: int| 0 <= i < n implies #[trigger] pattern.parts[i].fits() by {
                assert(pattern.parts[i].wf(self.src()));
            }
            lemma_clean_kept(pattern.parts@, self.src(), dclean, self.reported());
        }
        pattern
    }

    /// Reads a quoted pattern `{{...}}`; `start` is the location of its first
    /// brace (at index `ps`), which the caller consumed, and the second one
    /// comes next.
    fn parse_quoted_pattern(&mut self, start: Location, Ghost(ps): Ghost<int>) -> (r: QuotedPattern<'a>)
        requires
            old(self).inv(),
            0 <= ps < old(self).pos() < old(self).src().len(),
            start.byte() == old(self).off(ps),
            old(self).src()[old(self).pos()] == '{',
        ensures
            Self::step(old(self), final(self)),
            final(self).pos() > old(self).pos(),
            r.wf(final(self).src()),
            r.span.start == start,
            r.span.end.byte() == final(self).off(final(self).pos()),
            parts_read(r.pattern.parts@, old(self).src()),
            parts_recovered(r.pattern.parts@, final(self).reported()),
            parts_clean(r.pattern.parts@, final(self).src(), final(self).reported()),
    {
        proof {
            self.lemma_inv();
        }
        self.next();
        let here = self.current_location();
        let pattern = self.parse_pattern(here, Ghost(self.pos()), true);
        let ghost rq = self.reported();
        if self.eat('}').is_some() {
            self.eat('}');
        } else {
            let end = self.current_location();
            proof {
                self.lemma_inv();
                lemma_char_loc(self.src(), ps);
                lemma_byte_offset_mono(self.src(), ps, self.pos());
            }
            self.report(Diagnostic::UnterminatedQuotedPattern { span: Span::new(start..end) });
        }
        let end = self.current_location();
        proof {
            self.lemma_inv();
            lemma_char_loc(self.src(), ps);
            lemma_byte_offset_mono(self.src(), ps, self.pos());
        }
        proof {
            lemma_recovered_kept(pattern.parts@, self.src(), 0, 0, rq, self.reported());
            lemma_clean_kept(pattern.parts@, self.src(), rq, self.reported());
        }
        QuotedPattern { span: Span::new(start..end), pattern }
    }

    /// Reads an input declaration after its keyword; `start` is the location
    /// of its dot (at index `ps`). A declaration that cannot be read is
    /// reported and left out.
    fn parse_input_declaration(&mut self, start: Location, Ghost(ps): Ghost<int>) -> (r: Option<InputDeclaration<'a>>)
        requires
            old(self).inv(),
            0 <= ps < old(self).pos(),
            start.byte() == old(self).off(ps),
        ensures
            Self::step(old(self), final(self)),
            r matches Some(d) ==> d.wf(final(self).src()) && d.start == start,
            r is Some == input_variable_at(old(self).src(), old(self).pos()) is Some,
            r matches Some(d) ==> selector_read(
                d.expression.variable,
                old(self).src(),
                input_variable_at(old(self).src(), old(self).pos())->0,
            ),
            r matches Some(d) ==> declaration_content_read(
                Declaration::InputDeclaration(d),
                old(self).src(),
                old(self).pos(),
            ),
            r matches Some(d) ==> declaration_recovered(Declaration::InputDeclaration(d), final(self).reported()),
            r matches Some(d) ==> declaration_clean(Declaration::InputDeclaration(d), old(self).src(), final(self).reported()),
    {
        proof {
            self.lemma_inv();
            lemma_char_loc(self.src(), ps);
        }
        let ghost pi = self.pos();
        self.skip_spaces();
        proof {
            self.lemma_inv();
            lemma_spaces_end(self.src(), pi, self.pos());
        }
        let ghost po = self.pos();
        let open = match self.eat('{') {
            Some(open) => open,
            None => {
                let here = self.current_location();
                proof {
                    self.lemma_inv();
                    lemma_byte_offset_mono(self.src(), ps, self.pos());
                }
                self.report(
                    Diagnostic::InputDeclarationMissingExpression { span: Span::new(start..here) },
                );
                return None;
            },
        };
        let ghost pb = self.pos();
        self.skip_spaces();
        proof {
            lemma_spaces_end(self.src(), pb, self.pos());
        }
        let expression = self.parse_expression(open, Ghost(po));
        proof {
            self.lemma_inv();
            lemma_byte_offset_mono(self.src(), ps, po);
        }
        match expression {
            Expression::VariableExpression(expression) => Some(InputDeclaration { start, expression }),
            _ => {
                let span = expression.span();
                self.report(Diagnostic::InputDeclarationWithInvalidExpression { span, expression });
                None
            },
        }
    }

    /// Reads a local declaration after its keyword; `start` is the location
    /// of its dot (at index `ps`). A declaration that cannot be read is
    /// reported and left out.
    #[verifier::rlimit(60)]
    #[verifier::spinoff_prover]
    fn parse_local_declaration(&mut self, start: Location, Ghost(ps): Ghost<int>) -> (r: Option<LocalDeclaration<'a>>)
        requires
            old(self).inv(),
            0 <= ps < old(self).pos(),
            start.byte() == old(self).off(ps),
            start.byte() + 6 <= old(self).off(old(self).pos()),
        ensures
            Self::step(old(self), final(self)),
            r matches Some(d) ==> d.wf(final(self).src()) && d.start == start,
            local_variable_at(old(self).src(), old(self).pos()) matches Some(k) ==> (r matches Some(d)
                && selector_read(d.variable, old(self).src(), k)),
            r matches Some(d) ==> declaration_content_read(
                Declaration::LocalDeclaration(d),
                old(self).src(),
                old(self).pos(),
            ),
            r matches Some(d) ==> declaration_recovered(Declaration::LocalDeclaration(d), final(self).reported()),
            r matches Some(d) ==> declaration_clean(Declaration::LocalDeclaration(d), old(self).src(), final(self).reported()),
    {
        proof {
            self.lemma_inv();
            lemma_char_loc(self.src(), ps);
        }
        let ghost p0 = self.pos();
        let has_space = self.skip_spaces();
        proof {
            lemma_spaces_end(self.src(), p0, self.pos());
        }
        if !has_space {
            let here = self.current_location();
            proof {
                self.lemma_inv();
                lemma_byte_offset_mono(self.src(), ps, self.pos());
            }
            self.report(
                Diagnostic::LocalKeywordMissingTrailingSpace { span: Span::new(start..here) },
            );
        }
        proof {
            self.lemma_inv();
        }
        let ghost pv = self.pos();
        let variable = match self.peek() {
            Some((vstart, c)) => {
                if c == '$' {
                    let v = self.parse_variable();
                    let ghost pe = self.pos();
                    self.skip_spaces();
                    proof {
                        lemma_spaces_end(self.src(), pe, self.pos());
                    }
                    v
                } else if is_name_start(c) {
                    let name = self.parse_name();
                    let here = self.current_location();
                    proof {
                        self.lemma_inv();
                        lemma_char_loc(self.src(), pv);
                        lemma_byte_offset_mono(self.src(), pv, self.pos());
                        lemma_slice_at(self.src(), pv, self.pos());
                    }
                    let span = Span::new(vstart..here);
                    self.report(Diagnostic::LocalVariableMissingDollar { span });
                    Variable { span, name }
                } else {
                    let here = self.current_location();
                    proof {
                        lemma_byte_offset_mono(self.src(), ps, self.pos());
                    }
                    self.report(Diagnostic::LocalDeclarationMalformed { span: Span::new(start..here) });
                    return None;
                }
            },
            None => {
                let here = self.current_location();
                proof {
                    lemma_byte_offset_mono(self.src(), ps, self.pos());
                }
                self.report(Diagnostic::LocalDeclarationMalformed { span: Span::new(start..here) });
                return None;
            },
        };
        let ghost pm = self.pos();
        self.skip_spaces();
        proof {
            lemma_spaces_end(self.src(), pm, self.pos());
        }
        if self.eat('=').is_none() {
            let here = self.current_location();
            proof {
                self.lemma_inv();
                lemma_byte_offset_mono(self.src(), ps, self.pos());
            }
            self.report(
                Diagnostic::LocalDeclarationVariableMissingTrailingEquals {
                    span: Span::new(start..here),
                },
            );
            let brace_next = match self.peek() {
                Some((_, c)) => c == '{',
                None => false,
            };
            if !brace_next {
                return None;
            }
        }
        let ghost pq = self.pos();
        self.skip_spaces();
        proof {
            self.lemma_inv();
            lemma_spaces_end(self.src(), pq, self.pos());
        }
        let ghost po = self.pos();
        let open = match self.eat('{') {
            Some(open) => open,
            None => {
                match self.parse_literal_or_variable() {
                    Some(value) => {
                        proof {
                            lemma_literal_or_variable_span(value, self.src());
                        }
                        let span = value.span();
                        self.report(Diagnostic::LocalDeclarationValueNotWrappedInBraces { span });
                    },
                    None => {
                        let here = self.current_location();
                        proof {
                            self.lemma_inv();
                            lemma_byte_offset_mono(self.src(), ps, self.pos());
                        }
                        self.report(
                            Diagnostic::LocalDeclarationMissingExpression {
                                span: Span::new(start..here),
                            },
                        );
                    },
                }
                return None;
            },
        };
        let ghost pr = self.pos();
        self.skip_spaces();
        proof {
            lemma_spaces_end(self.src(), pr, self.pos());
        }
        let expression = self.parse_expression(open, Ghost(po));
        proof {
            self.lemma_inv();
            lemma_byte_offset_mono(self.src(), ps, po);
        }
        Some(LocalDeclaration { start, variable, expression })
    }

    /// Reads a key of a matcher variant: `*`, a literal, or (to recover) a
    /// variable or other text up to the next space or brace.
    fn parse_matcher_key(&mut self, had_space: bool) -> (r: Key<'a>)
        requires
            old(self).inv(),
            old(self).pos() < old(self).src().len(),
            old(self).src()[old(self).pos()] != '{',
            !space_char(old(self).src()[old(self).pos()]),
        ensures
            Self::step(old(self), final(self)),
            final(self).pos() > old(self).pos(),
            r.wf(final(self).src()),
            r.spec_span().start.byte() == old(self).off(old(self).pos()),
            r.spec_span().end.byte() == final(self).off(final(self).pos()),
    {
        proof {
            self.lemma_inv();
        }
        let ghost p0 = self.pos();
        let (loc, c) = self.peek().unwrap();
        let key = if c == '*' {
            self.next();
            proof {
                lemma_char_loc(self.src(), p0);
                crate::strings::lemma_byte_offset_step(self.src(), p0);
            }
            Key::Star(Star { start: loc })
        } else {
            match self.parse_literal_or_variable() {
                Some(LiteralOrVariable::Literal(literal)) => Key::Literal(literal),
                Some(LiteralOrVariable::Variable(variable)) => {
                    let ghost p1 = self.pos();
                    proof {
                        self.lemma_inv();
                        lemma_char_loc(self.src(), p0);
                        lemma_byte_offset_mono(self.src(), p0, p1);
                    }
                    self.report(Diagnostic::MatcherKeyIsVariable { span: variable.span });
                    let text = self.slice_text(variable.span.start..variable.span.end, Ghost(p0), Ghost(p1));
                    proof {
                        lemma_slice_at(self.src(), p0, p1);
                    }
                    Key::Literal(Literal::Text(text))
                },
                None => {
                    loop
                        invariant
                            self.inv(),
                            self.src() == old(self).src(),
                            kept(old(self).reported(), self.reported()),
                            p0 == old(self).pos(),
                            p0 <= self.pos(),
                            p0 < self.src().len(),
                            self.pos() == p0 ==> self.src()[p0] != '{' && !space_char(self.src()[p0]),
                        ensures
                            self.pos() > p0,
                        decreases self.src().len() - self.pos(),
                    {
                        proof {
                            self.lemma_inv();
                        }
                        match self.peek() {
                            Some((_, c2)) => {
                                if c2 == '{' || is_space(c2) {
                                    break;
                                }
                                self.next();
                            },
                            None => {
                                break;
                            },
                        }
                    }
                    let here = self.current_location();
                    let ghost p1 = self.pos();
                    proof {
                        self.lemma_inv();
                        lemma_char_loc(self.src(), p0);
                        lemma_byte_offset_mono(self.src(), p0, p1);
                    }
                    self.report(Diagnostic::InvalidMatcherLiteralKey { span: Span::new(loc..here) });
                    let text = self.slice_text(loc..here, Ghost(p0), Ghost(p1));
                    proof {
                        lemma_slice_at(self.src(), p0, p1);
                    }
                    Key::Literal(Literal::Text(text))
                },
            }
        };
        proof {
            lemma_key_span(key, self.src());
        }
        if !had_space {
            let span = key.span();
            self.report(Diagnostic::MissingSpaceBeforeMatcherKey { span });
        }
        key
    }

    /// Reads the body of a matcher variant at a brace: a quoted pattern, or
    /// (to recover) an expression, which is reported and wrapped.
    fn parse_variant_body(&mut self) -> (r: QuotedPattern<'a>)
        requires
            old(self).inv(),
            old(self).pos() < old(self).src().len(),
            old(self).src()[old(self).pos()] == '{',
        ensures
            Self::step(old(self), final(self)),
            final(self).pos() > old(self).pos(),
            r.wf(final(self).src()),
            r.span.start.byte() == old(self).off(old(self).pos()),
            r.span.end.byte() == final(self).off(final(self).pos()),
            parts_read(r.pattern.parts@, old(self).src()),
            parts_recovered(r.pattern.parts@, final(self).reported()),
            parts_clean(r.pattern.parts@, final(self).src(), final(self).reported()),
    {
        proof {
            self.lemma_inv();
        }
        let ghost p0 = self.pos();
        let (open, _) = self.next().unwrap();
        let second_brace = match self.peek() {
            Some((_, c)) => c == '{',
            None => false,
        };
        if second_brace {
            self.parse_quoted_pattern(open, Ghost(p0))
        } else {
            let ghost p1 = self.pos();
            self.skip_spaces();
            proof {
                lemma_spaces_end(self.src(), p1, self.pos());
            }
            let expression = self.parse_expression(open, Ghost(p0));
            let ghost de = self.reported();
            let span = expression.span();
            self.report(Diagnostic::MatcherVariantExpressionBodyNotQuoted { span });
            proof {
                lemma_expression_kept(expression, de, self.reported());
                lemma_clean_kept(seq![PatternPart::Expression(expression)], self.src(), de, self.reported());
            }
            let mut parts: Vec<PatternPart<'a>> = Vec::new();
            parts.push(PatternPart::Expression(expression));
            let pattern = Pattern { parts };
            proof {
                assert(part_read(pattern.parts@[0], old(self).src()));
                assert(part_recovered(pattern.parts@[0], self.reported()));
                assert(pattern.parts@ =~= seq![PatternPart::Expression(expression)]);
            }
            QuotedPattern { span, pattern }
        }
    }

    /// Reads a matcher after its keyword: selectors, then variants of keys
    /// and quoted patterns; `start` is the location of its dot (at index
    /// `ps`), and the six bytes of `.match` follow it.
    #[verifier::rlimit(40)]
    fn parse_matcher(&mut self, start: Location, Ghost(ps): Ghost<int>) -> (r: Matcher<'a>)
        requires
            old(self).inv(),
            0 <= ps < old(self).pos(),
            start.byte() == old(self).off(ps),
            is_boundary(old(self).src(), start.byte() + 6),
            start.byte() + 6 <= old(self).off(old(self).pos()),
        ensures
            Self::step(old(self), final(self)),
            r.wf(final(self).src()),
            r.start == start,
            r.selectors.len() == selector_starts(old(self).src(), old(self).pos()).len(),
            forall|i: int|
                0 <= i < r.selectors.len() ==> selector_read(
                    #[trigger] r.selectors[i],
                    old(self).src(),
                    selector_starts(old(self).src(), old(self).pos())[i],
                ),
            final(self).pos() == final(self).src().len() || final(self).src()[final(self).pos()] == '.',
            variants_read(r.variants@, old(self).src(), selectors_end(old(self).src(), old(self).pos())),
            matcher_read(r, old(self).src(), old(self).pos()),
            matcher_recovered(r, final(self).reported()),
            variants_clean(r.variants@, final(self).src(), final(self).reported()),
    {
        proof {
            self.lemma_inv();
            lemma_char_loc(self.src(), ps);
        }
        let ghost p0 = self.pos();
        let ghost all = selector_starts(self.src(), p0);
        let ghost mut pre: Seq<int> = Seq::empty();
        let mut selectors: Vec<Variable<'a>> = Vec::new();
        let mut had_space = self.skip_spaces();
        proof {
            lemma_selector_starts_spaces(self.src(), p0, self.pos());
            assert(all =~= pre + selector_starts(self.src(), self.pos()));
        }
        loop
            invariant
                self.inv(),
                self.src() == old(self).src(),
                kept(old(self).reported(), self.reported()),
                p0 == old(self).pos(),
                0 <= ps < p0 <= self.pos(),
                start.byte() == self.off(ps),
                start.byte() + 6 <= self.off(p0),
                forall|i: int| 0 <= i < selectors.len() ==> #[trigger] selectors[i].wf(self.src()),
                selectors.len() > 0 ==> selectors[selectors.len() - 1].span.end.byte() >= start.byte(),
                self.pos() < self.src().len() ==> !space_char(self.src()[self.pos()]),
                all == selector_starts(self.src(), p0),
                all == pre + selector_starts(self.src(), self.pos()),
                pre.len() == selectors.len(),
                forall|i: int| 0 <= i < selectors.len() ==> selector_read(#[trigger] selectors[i], self.src(), pre[i]),
                selectors_end(self.src(), p0) == selectors_end(self.src(), self.pos()),
            ensures
                all == pre,
                self.pos() == selectors_end(self.src(), p0),
            decreases self.src().len() - self.pos(),
        {
            proof {
                self.lemma_inv();
            }
            let ghost pa = self.pos();
            match self.peek() {
                Some((_, c)) => {
                    if c != '$' {
                        proof {
                            assert(selector_starts(self.src(), pa) =~= Seq::<int>::empty());
                            assert(all =~= pre);
                        }
                        break;
                    }
                    proof {
                        assert(selector_starts(self.src(), pa) == seq![pa] + selector_starts(
                            self.src(),
                            variable_end(self.src(), pa),
                        ));
                        assert(selectors_end(self.src(), pa) == selectors_end(self.src(), variable_end(self.src(), pa)));
                    }
                    let variable = self.parse_variable();
                    proof {
                        self.lemma_inv();
                        lemma_byte_offset_mono(self.src(), p0, pa);
                    }
                    if !had_space {
                        self.report(Diagnostic::MissingSpaceBeforeMatcherSelector { span: variable.span });
                    }
                    let ghost prev = selectors@;
                    selectors.push(variable);
                    proof {
                        assert forall|i: int| 0 <= i < selectors.len() implies #[trigger] selectors[i].wf(
                            self.src(),
                        ) by {
                            if i < prev.len() {
                                assert(selectors@[i] == prev[i]);
                            }
                        }
                    }
                    let ghost pv = self.pos();
                    had_space = self.skip_spaces();
                    proof {
                        lemma_selector_starts_spaces(self.src(), pv, self.pos());
                        let old_pre = pre;
                        pre = pre.push(pa);
                        assert(all =~= pre + selector_starts(self.src(), self.pos()));
                        assert forall|i: int| 0 <= i < selectors.len() implies selector_read(
                            #[trigger] selectors[i],
                            self.src(),
                            pre[i],
                        ) by {
                            if i < prev.len() {
                                assert(selectors@[i] == prev[i]);
                                assert(pre[i] == old_pre[i]);
                            }
                        }
                    }
                },
                None => {
                    proof {
                        assert(selector_starts(self.src(), pa) =~= Seq::<int>::empty());
                        assert(all =~= pre);
                    }
                    break;
                },
            }
        }
        proof {
            assert(forall|i: int|
                0 <= i < selectors.len() ==> selector_read(
                    #[trigger] selectors[i],
                    old(self).src(),
                    selector_starts(old(self).src(), p0)[i],
                ));
        }
        if selectors.len() == 0 {
            proof {
                self.lemma_inv();
            }
            self.report(
                Diagnostic::MatcherMissingSelectors { span: Span::new(start..Location(start.0 + 6)) },
            );
        }
        let mut variants: Vec<Variant<'a>> = Vec::new();
        let mut keys: Vec<Key<'a>> = Vec::new();
        let mut keys_end = self.current_location();
        let ghost e0 = self.pos();
        let ghost mut toks: Seq<Span> = Seq::empty();
        let ghost mut ends: Seq<int> = Seq::empty();
        proof {
            self.lemma_inv();
            assert(e0 < self.src().len() ==> !space_char(self.src()[e0]));
            lemma_spaces_end(self.src(), e0, e0);
            assert(variants_tokens(variants@) + key_spans(keys@) =~= toks);
        }
        loop
            invariant
                self.inv(),
                e0 == selectors_end(old(self).src(), p0),
                toks == variants_tokens(variants@) + key_spans(keys@),
                tokens_placed(toks, old(self).src(), e0, ends),
                forall|i: int| 0 <= i < variants.len() ==> parts_read(
                    (#[trigger] variants[i]).pattern.pattern.parts@,
                    old(self).src(),
                ),
                variants_recovered(variants@, self.reported()),
                variants_clean(variants@, self.src(), self.reported()),
                self.pos() == spaces_end(old(self).src(), option_prev(ends, e0, toks.len() as int)),
                self.src() == old(self).src(),
                kept(old(self).reported(), self.reported()),
                p0 == old(self).pos(),
                0 <= ps < p0 <= self.pos(),
                start.byte() == self.off(ps),
                start.byte() + 6 <= self.off(p0),
                forall|i: int| 0 <= i < selectors.len() ==> #[trigger] selectors[i].wf(self.src()),
                selectors.len() > 0 ==> selectors[selectors.len() - 1].span.end.byte() >= start.byte(),
                self.pos() < self.src().len() ==> !space_char(self.src()[self.pos()]),
                forall|i: int| 0 <= i < variants.len() ==> #[trigger] variants[i].wf(self.src()),
                variants.len() > 0 ==> variants[variants.len() - 1].spec_span().end.byte()
                    >= start.byte(),
                forall|i: int| 0 <= i < keys.len() ==> #[trigger] keys[i].wf(self.src()),
                keys.len() > 0 ==> {
                    &&& is_boundary(self.src(), keys[0].spec_span().start.byte())
                    &&& is_boundary(self.src(), keys_end.byte())
                    &&& start.byte() <= keys[0].spec_span().start.byte() <= keys_end.byte()
                        <= self.off(self.pos())
                },
            ensures
                self.pos() == self.src().len() || self.src()[self.pos()] == '.',
            decreases self.src().len() - self.pos(),
        {
            proof {
                self.lemma_inv();
            }
            let ghost pa = self.pos();
            let ghost d0 = self.reported();
            match self.peek() {
                Some((_, c)) => {
                    if c == '{' {
                        let pattern = self.parse_variant_body();
                        let ghost d1 = self.reported();
                        proof {
                            lemma_push_token(toks, pattern.span, old(self).src(), e0, ends, self.pos());
                            toks = toks.push(pattern.span);
                            ends = ends.push(self.pos());
                        }
                        proof {
                            self.lemma_inv();
                            lemma_byte_offset_mono(self.src(), p0, pa);
                            lemma_byte_offset_mono(self.src(), pa, self.pos());
                        }
                        let nk = keys.len();
                        proof {
                            assert forall|i: int| 0 <= i < keys.len() implies #[trigger] keys[i].fits() by {
                                assert(keys[i].wf(self.src()));
                            }
                        }
                        let variant_keys = keys;
                        keys = Vec::new();
                        let variant = Variant { keys: variant_keys, pattern };
                        assert(variant.wf(self.src()));
                        if nk == 0 {
                            self.report(Diagnostic::MatcherVariantMissingKeys { span: variant.pattern.span });
                        } else if nk != selectors.len() {
                            let span = variant.span();
                            self.report(
                                Diagnostic::MatcherVariantKeysMismatch {
                                    span,
                                    selectors: selectors.len(),
                                    keys: nk,
                                },
                            );
                        }
                        let ghost prev = variants@;
                        variants.push(variant);
                        proof {
                            assert forall|i: int| 0 <= i < variants.len() implies #[trigger] variants[i].wf(
                                self.src(),
                            ) by {
                                if i < prev.len() {
                                    assert(variants@[i] == prev[i]);
                                }
                            }
                            lemma_variants_tokens_push(prev, variant);
                            assert(toks =~= variants_tokens(variants@) + key_spans(keys@));
                            lemma_variants_kept(prev, d0, self.reported());
                            lemma_recovered_kept(variant.pattern.pattern.parts@, Seq::empty(), 0, 0, d1, self.reported());
                            lemma_variants_clean_kept(prev, self.src(), d0, self.reported());
                            lemma_clean_kept(variant.pattern.pattern.parts@, self.src(), d1, self.reported());
                            assert forall|i: int| 0 <= i < variants.len() implies parts_clean(
                                (#[trigger] variants[i]).pattern.pattern.parts@,
                                self.src(),
                                self.reported(),
                            ) by {
                                if i < prev.len() {
                                    assert(variants@[i] == prev[i]);
                                }
                            }
                            assert forall|i: int| 0 <= i < variants.len() implies parts_recovered(
                                (#[trigger] variants[i]).pattern.pattern.parts@,
                                self.reported(),
                            ) by {
                                if i < prev.len() {
                                    assert(variants@[i] == prev[i]);
                                }
                            }
                        }
                        let ghost pv = self.pos();
                        self.skip_spaces();
                        proof {
                            lemma_spaces_end(self.src(), pv, self.pos());
                        }
                        had_space = true;
                    } else if c == '.' {
                        break;
                    } else {
                        let key = self.parse_matcher_key(had_space);
                        keys_end = self.current_location();
                        proof {
                            self.lemma_inv();
                            lemma_byte_offset_mono(self.src(), p0, pa);
                            lemma_byte_offset_mono(self.src(), pa, self.pos());
                            lemma_char_loc(self.src(), self.pos());
                            lemma_key_span(key, self.src());
                        }
                        proof {
                            lemma_push_token(toks, key.spec_span(), old(self).src(), e0, ends, self.pos());
                            toks = toks.push(key.spec_span());
                            ends = ends.push(self.pos());
                        }
                        let ghost prev = keys@;
                        keys.push(key);
                        proof {
                            assert forall|i: int| 0 <= i < keys.len() implies #[trigger] keys[i].wf(
                                self.src(),
                            ) by {
                                if i < prev.len() {
                                    assert(keys@[i] == prev[i]);
                                }
                            }
                            assert(key_spans(keys@) =~= key_spans(prev).push(key.spec_span()));
                            assert(toks =~= variants_tokens(variants@) + key_spans(keys@));
                        }
                        let ghost pk = self.pos();
                        had_space = self.skip_spaces();
                        proof {
                            lemma_variants_kept(variants@, d0, self.reported());
                            lemma_variants_clean_kept(variants@, self.src(), d0, self.reported());
                            self.lemma_inv();
                            lemma_byte_offset_mono(self.src(), pk, self.pos());
                            lemma_spaces_end(self.src(), pk, self.pos());
                        }
                    }
                },
                None => {
                    break;
                },
            }
        }
        proof {
            self.lemma_inv();
            lemma_byte_offset_mono(self.src(), p0, self.pos());
        }
        proof {
            assert forall|i: int| 0 <= i < keys.len() implies #[trigger] keys[i].fits() by {
                assert(keys[i].wf(self.src()));
            }
        }
        if keys.len() > 0 {
            let first_key_start = keys[0].span().start;
            let ghost dm = self.reported();
            let text = self.empty_text();
            let here = text.start;
            proof {
                lemma_text_span(text, self.src());
            }
            let mut parts: Vec<PatternPart<'a>> = Vec::new();
            parts.push(PatternPart::Text(text));
            let pattern = QuotedPattern { span: Span::new(here..here), pattern: Pattern { parts } };
            proof {
                lemma_push_token(toks, pattern.span, old(self).src(), e0, ends, self.pos());
                toks = toks.push(pattern.span);
                ends = ends.push(self.pos());
            }
            self.report(
                Diagnostic::MatcherVariantMissingBody { span: Span::new(first_key_start..keys_end) },
            );
            let variant_keys = keys;
            keys = Vec::new();
            let variant = Variant { keys: variant_keys, pattern };
            assert(variant.wf(self.src()));
            let ghost prev = variants@;
            variants.push(variant);
            proof {
                assert forall|i: int| 0 <= i < variants.len() implies #[trigger] variants[i].wf(
                    self.src(),
                ) by {
                    if i < prev.len() {
                        assert(variants@[i] == prev[i]);
                    }
                }
                lemma_variants_tokens_push(prev, variant);
                assert(toks =~= variants_tokens(variants@) + key_spans(keys@));
                lemma_variants_kept(prev, dm, self.reported());
                lemma_variants_clean_kept(prev, self.src(), dm, self.reported());
                assert forall|i: int| 0 <= i < variants.len() implies parts_clean(
                    (#[trigger] variants[i]).pattern.pattern.parts@,
                    self.src(),
                    self.reported(),
                ) by {
                    if i < prev.len() {
                        assert(variants@[i] == prev[i]);
                    }
                }
                assert forall|i: int| 0 <= i < variants.len() implies parts_recovered(
                    (#[trigger] variants[i]).pattern.pattern.parts@,
                    self.reported(),
                ) by {
                    if i < prev.len() {
                        assert(variants@[i] == prev[i]);
                    }
                }
            }
        }
        proof {
            lemma_spaces_end(self.src(), self.pos(), self.pos());
            assert(keys.len() == 0);
            assert(key_spans(keys@) =~= Seq::<Span>::empty());
            assert(toks =~= variants_tokens(variants@));
            assert(tokens_placed(variants_tokens(variants@), old(self).src(), e0, ends));
            assert(variants_read(variants@, old(self).src(), e0));
        }
        let mut has_fallback = false;
        let mut i: usize = 0;
        while i < variants.len()
            invariant
                i <= variants.len(),
                has_fallback == exists|j: int| 0 <= j < i && #[trigger] is_fallback(variants@[j]),
            decreases variants.len() - i,
        {
            let mut all_stars = true;
            let mut k: usize = 0;
            while k < variants[i].keys.len()
                invariant
                    i < variants.len(),
                    k <= variants[i as int].keys.len(),
                    all_stars == forall|m: int| 0 <= m < k ==> #[trigger] variants@[i as int].keys[m] is Star,
                decreases variants[i as int].keys.len() - k,
            {
                if let Key::Literal(_) = &variants[i].keys[k] {
                    all_stars = false;
                }
                k = k + 1;
            }
            if all_stars {
                has_fallback = true;
            }
            proof {
                assert(all_stars == is_fallback(variants@[i as int]));
                if !has_fallback {
                    assert forall|j: int| 0 <= j < i + 1 implies !#[trigger] is_fallback(variants@[j]) by {
                        if j < i {
                        }
                    }
                }
            }
            i = i + 1;
        }
        let matcher = Matcher { start, selectors, variants };
        proof {
            self.lemma_inv();
            assert forall|i: int| 0 <= i < matcher.variants.len() implies #[trigger] matcher.variants[i].fits() by {
                assert(matcher.variants[i].wf(self.src()));
            }
        }
        proof {
            let s = self.src();
            lemma_byte_offset_mono(s, ps, p0);
            lemma_char_loc(s, p0);
            assert(boundary_with_room(s, start.byte(), 6));
            assert(source_fits(s));
            let sp = matcher.spec_span();
            assert(is_boundary(s, sp.start.byte()));
            let nv = matcher.variants.len();
            let ns = matcher.selectors.len();
            if nv > 0 {
                assert(matcher.variants[nv - 1].wf(s));
            } else if ns > 0 {
                assert(matcher.selectors[ns - 1].wf(s));
            } else {
                assert(is_boundary(old(self).src(), start.byte() + 6));
            }
            assert(is_boundary(s, sp.end.byte()));
            assert(sp.start.byte() <= sp.end.byte());
        }
        assert(matcher.wf(self.src()));
        let ghost dl = self.reported();
        if !has_fallback {
            let span = matcher.span();
            self.report(Diagnostic::MatcherMissingFallback { span });
            proof {
                assert(self.reported()[self.reported().len() - 1] == Diagnostic::MatcherMissingFallback { span });
            }
        }
        proof {
            assert(matcher.variants@ == variants@);
            lemma_variants_kept(matcher.variants@, dl, self.reported());
            lemma_variants_clean_kept(matcher.variants@, self.src(), dl, self.reported());
        }
        matcher
    }

    /// Records a declaration, reporting it when it follows the body.
    fn push_declaration(
        &mut self,
        declarations: &mut Vec<Declaration<'a>>,
        declaration: Declaration<'a>,
        body: &Option<ComplexMessageBody<'a>>,
    )
        requires
            old(self).inv(),
            declaration.wf(old(self).src()),
            forall|i: int| 0 <= i < old(declarations).len() ==> #[trigger] old(declarations)[i].wf(old(self).src()),
            body matches Some(b) ==> b.wf(old(self).src()),
        ensures
            final(self).inv(),
            final(self).src() == old(self).src(),
            final(self).pos() == old(self).pos(),
            final(declarations)@ == old(declarations)@.push(declaration),
            kept(old(self).reported(), final(self).reported()),
            forall|i: int| 0 <= i < final(declarations).len() ==> #[trigger] final(declarations)[i].wf(final(self).src()),
    {
        proof {
            lemma_declaration_span(declaration, self.src());
        }
        if let Some(b) = body {
            proof {
                lemma_body_span(*b, self.src());
            }
            let body_start = b.span().start;
            let span = declaration.span();
            self.report(Diagnostic::ComplexMessageDeclarationAfterBody { span, body_start });
        }
        let ghost prev = declarations@;
        declarations.push(declaration);
        proof {
            assert forall|i: int| 0 <= i < declarations.len() implies #[trigger] declarations[i].wf(
                self.src(),
            ) by {
                if i < prev.len() {
                    assert(declarations@[i] == prev[i]);
                }
            }
        }
    }

    /// Reads a complex message: declarations and a body; `start` (at index
    /// `ps`) is where it begins. Whatever cannot be read is reported, and
    /// the whole text is read.
    #[verifier::rlimit(60)]
    fn parse_complex_message(&mut self, start: Location, Ghost(ps): Ghost<int>) -> (r: ComplexMessage<'a>)
        requires
            old(self).inv(),
            0 <= ps <= old(self).pos(),
            start.byte() == old(self).off(ps),
        ensures
            Self::step(old(self), final(self)),
            r.wf(final(self).src()),
            final(self).pos() == final(self).src().len(),
            first_declared_at(old(self).src(), old(self).pos()) matches Some(v) ==> first_declares(
                r.declarations@,
                old(self).src(),
                v,
            ),
            declarations_read(r.declarations@, old(self).src()),
            body_read(r.body, old(self).src()),
            body_recovered(r.body, final(self).reported()),
            declarations_recovered(r.declarations@, final(self).reported()),
            body_clean(r.body, old(self).src(), final(self).reported()),
            declarations_clean(r.declarations@, old(self).src(), final(self).reported()),
    {
        proof {
            self.lemma_inv();
        }
        let ghost p0 = self.pos();
        let ghost kk = spaces_end(self.src(), p0);
        let ghost fi = first_declared_at(self.src(), p0);
        proof {
            lemma_spaces_end_props(self.src(), p0);
        }
        let mut declarations: Vec<Declaration<'a>> = Vec::new();
        let mut body: Option<ComplexMessageBody<'a>> = None;
        let ghost mut dbody: Seq<Diagnostic> = self.reported();
        loop
            invariant
                body matches Some(b) ==> body_recovered(b, dbody),
                body matches Some(b) ==> body_clean(b, old(self).src(), dbody),
                kept(dbody, self.reported()),
                declarations_recovered(declarations@, self.reported()),
                declarations_clean(declarations@, old(self).src(), self.reported()),
                self.inv(),
                self.src() == old(self).src(),
                kept(old(self).reported(), self.reported()),
                p0 == old(self).pos(),
                0 <= ps <= p0 <= self.pos(),
                start.byte() == self.off(ps),
                forall|i: int| 0 <= i < declarations.len() ==> #[trigger] declarations[i].wf(self.src()),
                body matches Some(b) ==> b.wf(self.src()),
                kk == spaces_end(self.src(), p0),
                p0 <= kk <= self.src().len(),
                forall|j: int| p0 <= j < kk ==> space_char(#[trigger] self.src()[j]),
                fi == first_declared_at(self.src(), p0),
                fi matches Some(v) ==> (self.pos() <= kk && declarations.len() == 0)
                    || first_declares(declarations@, self.src(), v),
                declarations_read(declarations@, old(self).src()),
                body matches Some(b) ==> body_read(b, old(self).src()),
                forall|i: int|
                    0 <= i < declarations.len() ==> declaration_start(#[trigger] declarations[i]) < self.off(
                        self.pos(),
                    ),
            ensures
                fi matches Some(v) ==> first_declares(declarations@, self.src(), v),
            decreases self.src().len() - self.pos(),
        {
            proof {
                self.lemma_inv();
            }
            let ghost pa = self.pos();
            let ghost d0 = self.reported();
            let ghost mut dt = d0;
            let ghost before = fi is Some && pa <= kk && declarations.len() == 0;
            proof {
                if before {
                    lemma_name_run_end_ge(self.src(), kk + 2);
                    assert(self.src()[kk] == '.');
                    if pa < kk {
                        assert(space_char(self.src()[pa]));
                    }
                }
            }
            match self.peek() {
                Some((loc, c)) => {
                    if is_space(c) {
                        self.next();
                        proof {
                            if before {
                                assert(pa < kk);
                            }
                        }
                    } else if c == '.' {
                        self.next();
                        let name = self.parse_name();
                        let ghost pn = self.pos();
                        proof {
                            reveal_strlit("input");
                            reveal_strlit("local");
                            reveal_strlit("match");
                            if fi is Some && pa <= kk && declarations.len() == 0 {
                                let sq = self.src();
                                let e = name_run_end(sq, kk + 2);
                                let t = sq.subrange(kk + 1, e);
                                assert(pa == kk);
                                lemma_name_run_end_ge(sq, kk + 2);
                                assert(t == seq!['i', 'n', 'p', 'u', 't'] || t == seq!['l', 'o', 'c', 'a', 'l']);
                                assert(t.len() == 5);
                                assert(t[0] == sq[kk + 1]);
                                assert(sq[kk + 1] == 'i' || sq[kk + 1] == 'l');
                                lemma_name_run_end(sq, kk + 2, pn);
                                assert(name@ =~= t);
                            }
                        }
                        let is_input = str_eq(name, "input");
                        proof {
                            if before && name@ =~= seq!['i', 'n', 'p', 'u', 't'] {
                                assert(name@ =~= "input"@);
                                assert(is_input);
                            }
                            if before && !is_input {
                                assert(name@ =~= seq!['l', 'o', 'c', 'a', 'l']);
                                assert(name@ =~= "local"@);
                            }
                        }
                        if is_input {
                            let ghost was_empty = declarations.len() == 0;
                            proof {
                                assert(name@ =~= seq!['i', 'n', 'p', 'u', 't']);
                                lemma_keyword(self.src(), pa, pn, seq!['i', 'n', 'p', 'u', 't']);
                                assert(self.src().subrange(pa + 1, pa + 6) == seq!['i', 'n', 'p', 'u', 't']);
                            }
                            if let Some(d) = self.parse_input_declaration(loc, Ghost(pa)) {
                                let ghost d1 = self.reported();
                                let ghost prevd = declarations@;
                                proof {
                                    lemma_char_loc(self.src(), pa);
                                    lemma_byte_offset_mono(self.src(), pa + 1, self.pos());
                                    lemma_push_declaration_read(
                                        declarations@,
                                        Declaration::InputDeclaration(d),
                                        old(self).src(),
                                    );
                                }
                                self.push_declaration(&mut declarations, Declaration::InputDeclaration(d), &body);
                                proof {
                                    lemma_declarations_push(prevd, Declaration::InputDeclaration(d), d0, d1, self.reported());
                                    lemma_declarations_clean_push(prevd, Declaration::InputDeclaration(d), old(self).src(), d0, d1, self.reported());
                                    dt = self.reported();
                                    if fi is Some && pa <= kk && was_empty {
                                        assert(declarations[0] == Declaration::InputDeclaration(d));
                                        assert(first_declares(declarations@, self.src(), fi->0));
                                    }
                                }
                            } else {
                                proof {
                                    assert(!(fi is Some && pa <= kk && was_empty));
                                }
                            }
                        } else if str_eq(name, "local") {
                            let ghost was_empty = declarations.len() == 0;
                            proof {
                                assert(name@ =~= seq!['l', 'o', 'c', 'a', 'l']);
                                lemma_keyword(self.src(), pa, pn, seq!['l', 'o', 'c', 'a', 'l']);
                            }
                            let local = self.parse_local_declaration(loc, Ghost(pa));
                            proof {
                                if before {
                                    assert(local is Some);
                                }
                            }
                            if let Some(d) = local {
                                let ghost d1 = self.reported();
                                let ghost prevd = declarations@;
                                proof {
                                    assert(self.src().subrange(pa + 1, pa + 6) == seq!['l', 'o', 'c', 'a', 'l']);
                                    lemma_char_loc(self.src(), pa);
                                    lemma_byte_offset_mono(self.src(), pa + 1, self.pos());
                                    lemma_push_declaration_read(
                                        declarations@,
                                        Declaration::LocalDeclaration(d),
                                        old(self).src(),
                                    );
                                }
                                self.push_declaration(&mut declarations, Declaration::LocalDeclaration(d), &body);
                                proof {
                                    lemma_declarations_push(prevd, Declaration::LocalDeclaration(d), d0, d1, self.reported());
                                    lemma_declarations_clean_push(prevd, Declaration::LocalDeclaration(d), old(self).src(), d0, d1, self.reported());
                                    dt = self.reported();
                                    if fi is Some && pa <= kk && was_empty {
                                        assert(declarations[0] == Declaration::LocalDeclaration(d));
                                        assert(first_declares(declarations@, self.src(), fi->0));
                                    }
                                }
                            }
                        } else if str_eq(name, "match") {
                            proof {
                                assert(name@ =~= seq!['m', 'a', 't', 'c', 'h']);
                                lemma_keyword(self.src(), pa, pn, seq!['m', 'a', 't', 'c', 'h']);
                            }
                            let matcher = self.parse_matcher(loc, Ghost(pa));
                            if body.is_some() {
                                proof {
                                    lemma_matcher_fits(matcher, self.src());
                                }
                                let span = matcher.span();
                                self.report(Diagnostic::ComplexMessageMultipleBodies { span });
                            } else {
                                body = Some(ComplexMessageBody::Matcher(matcher));
                                proof {
                                    dbody = self.reported();
                                }
                            }
                        } else {
                            let here = self.current_location();
                            proof {
                                self.lemma_inv();
                                lemma_char_loc(self.src(), pa);
                                lemma_byte_offset_mono(self.src(), pa, pn);
                            }
                            self.report(
                                Diagnostic::InvalidStatement { span: Span::new(loc..here), keyword: name },
                            );
                        }
                    } else if c == '{' {
                        proof {
                            assert(!before);
                        }
                        self.next();
                        let second_brace = match self.peek() {
                            Some((_, c2)) => c2 == '{',
                            None => false,
                        };
                        if second_brace {
                            let quoted = self.parse_quoted_pattern(loc, Ghost(pa));
                            if body.is_some() {
                                self.report(Diagnostic::ComplexMessageMultipleBodies { span: quoted.span });
                            } else {
                                body = Some(ComplexMessageBody::QuotedPattern(quoted));
                                proof {
                                    dbody = self.reported();
                                }
                            }
                        } else {
                            self.reset_to(loc, Ghost(pa));
                            break;
                        }
                    } else {
                        break;
                    }
                },
                None => {
                    break;
                },
            }
            proof {
                lemma_byte_offset_mono(self.src(), pa, self.pos());
                lemma_declarations_kept(declarations@, dt, self.reported());
                lemma_declarations_clean_kept(declarations@, old(self).src(), dt, self.reported());
            }
        }
        let ghost dl = self.reported();
        proof {
            self.lemma_inv();
        }
        if self.pos_less_than_len() {
            let here = self.current_location();
            let ghost ph = self.pos();
            if body.is_some() {
                let end = self.text.end_location();
                proof {
                    self.lemma_inv();
                    lemma_char_loc(self.src(), ph);
                    lemma_char_loc(self.src(), self.src().len() as int);
                    lemma_byte_offset_mono(self.src(), ph, self.src().len() as int);
                }
                self.report(Diagnostic::ComplexMessageTrailingContent { span: Span::new(here..end) });
                loop
                    invariant
                        body matches Some(b) ==> body_recovered(b, dbody),
                        body matches Some(b) ==> body_clean(b, old(self).src(), dbody),
                        kept(dbody, self.reported()),
                        kept(dl, self.reported()),
                        self.inv(),
                        self.src() == old(self).src(),
                        kept(old(self).reported(), self.reported()),
                        p0 <= self.pos(),
                        forall|i: int| 0 <= i < declarations.len() ==> #[trigger] declarations[i].wf(self.src()),
                        body matches Some(b) ==> b.wf(self.src()),
                    ensures
                        self.pos() == self.src().len(),
                    decreases self.src().len() - self.pos(),
                {
                    proof {
                        self.lemma_inv();
                    }
                    if self.next().is_none() {
                        break;
                    }
                }
            } else {
                let pattern = self.parse_pattern(here, Ghost(ph), false);
                proof {
                    dbody = self.reported();
                }
                let span = pattern.span();
                self.report(Diagnostic::ComplexMessageBodyNotQuoted { span });
                body = Some(ComplexMessageBody::QuotedPattern(QuotedPattern { span, pattern }));
            }
        }
        proof {
            self.lemma_inv();
        }
        let body = match body {
            Some(b) => b,
            None => {
                let text = self.empty_text();
                let here = text.start;
                proof {
                    lemma_text_span(text, self.src());
                }
                self.report(Diagnostic::ComplexMessageMissingBody { span: Span::new(here..here) });
                let mut parts: Vec<PatternPart<'a>> = Vec::new();
                parts.push(PatternPart::Text(text));
                proof {
                    dbody = self.reported();
                    assert(parts_recovered(parts@, dbody));
                }
                ComplexMessageBody::QuotedPattern(
                    QuotedPattern { span: Span::new(here..here), pattern: Pattern { parts } },
                )
            },
        };
        let end = self.current_location();
        proof {
            self.lemma_inv();
            lemma_char_loc(self.src(), ps);
            lemma_byte_offset_mono(self.src(), ps, self.pos());
            lemma_body_kept(body, dbody, self.reported());
            lemma_declarations_kept(declarations@, dl, self.reported());
            lemma_body_clean_kept(body, old(self).src(), dbody, self.reported());
            lemma_declarations_clean_kept(declarations@, old(self).src(), dl, self.reported());
        }
        ComplexMessage { span: Span::new(start..end), declarations, body }
    }

    /// Whether characters are left to read.
    fn pos_less_than_len(&mut self) -> (r: bool)
        requires
            old(self).inv(),
        ensures
            Self::step(old(self), final(self)),
            final(self).pos() == old(self).pos(),
            r == (old(self).pos() < old(self).src().len()),
    {
        self.peek().is_some()
    }

    /// Parses the whole message: a complex message when its first character
    /// other than a space is a dot or the start of `{{`, else a simple one.
    /// Returns the syntax tree, the diagnostics, and the line information of
    /// the text.
    #[verifier::rlimit(100)]
    #[verifier::spinoff_prover]
    pub fn parse(self) -> (r: (Message<'a>, Vec<Diagnostic<'a>>, SourceTextInfo<'a>))
        requires
            self.inv(),
            self.pos() == 0,
        ensures
            r.0.wf(self.src()),
            forall|i: int| 0 <= i < r.1.len() ==> #[trigger] r.1[i].wf(self.src()),
            r.2.wf(),
            r.2.chars() == self.src(),
            (r.0 is Complex) == starts_complex(self.src()),
            plain_between(self.src(), 0, self.src().len() as int) && !starts_complex(self.src()) ==> {
                &&& r.1@ == self.reported()
                &&& r.0 matches Message::Simple(pattern) && pattern.parts.len() == 1 && (
                pattern.parts[0] matches PatternPart::Text(t) && t.content@ == self.src())
            },
            self.src().len() > 0 && text_and_variables_from(self.src(), 0) && !starts_complex(self.src())
                ==> {
                &&& r.1@ == self.reported()
                &&& r.0 matches Message::Simple(pattern) && parts_have_shapes(
                    pattern.parts@,
                    text_and_variables_shapes(self.src(), 0),
                )
            },
            first_declared_at(self.src(), 0) matches Some(v) ==> (r.0 matches Message::Complex(c)
                && first_declares(c.declarations@, self.src(), v)),
            r.0 matches Message::Simple(pattern) ==> parts_tile(pattern.parts@, self.src(), r.1@),
            r.0 matches Message::Complex(c) ==> declarations_read(c.declarations@, self.src()),
            r.0 matches Message::Simple(pattern) ==> parts_read(pattern.parts@, self.src()),
            r.0 matches Message::Simple(pattern) ==> parts_recovered(pattern.parts@, r.1@),
            r.0 matches Message::Simple(pattern) ==> parts_clean(pattern.parts@, self.src(), r.1@),
            r.0 matches Message::Complex(c) ==> body_clean(c.body, self.src(), r.1@),
            r.0 matches Message::Complex(c) ==> declarations_clean(c.declarations@, self.src(), r.1@),
            r.0 matches Message::Complex(c) ==> body_read(c.body, self.src()),
            r.0 matches Message::Complex(c) ==> body_recovered(c.body, r.1@),
            r.0 matches Message::Complex(c) ==> declarations_recovered(c.declarations@, r.1@),
            !starts_complex(self.src()) && unclosed_placeholder_at(self.src(), plain_run_end(self.src(), 0))
                ==> missing_brace_reported(
                r.1@,
                Location(byte_offset(self.src(), plain_run_end(self.src(), 0)) as u32),
                utf8_len(self.src()) as int,
            ),
    {
        let mut p = self;
        let ghost s = p.src();
        proof {
            p.lemma_inv();
        }
        let mut complex: Option<bool> = None;
        let mut first = p.current_location();
        let ghost mut pf: int = 0;
        loop
            invariant
                p.inv(),
                p.src() == s,
                p.reported() == self.reported(),
                0 <= p.pos() <= s.len(),
                forall|k: int| 0 <= k < p.pos() ==> space_char(#[trigger] s[k]),
                complex is None ==> p.pos() <= s.len(),
                complex matches Some(c) ==> {
                    &&& pf == p.pos()
                    &&& pf < s.len()
                    &&& !space_char(s[pf])
                    &&& c == (s[pf] == '.' || (s[pf] == '{' && pf + 1 < s.len() && s[pf + 1] == '{'))
                    &&& first.byte() == p.off(pf)
                },
            ensures
                complex is None ==> p.pos() == s.len(),
            decreases s.len() - p.pos() + (if complex is None { 1int } else { 0int }),
        {
            proof {
                p.lemma_inv();
            }
            if complex.is_some() {
                break;
            }
            let ghost pa = p.pos();
            match p.peek() {
                Some((loc, c)) => {
                    if is_space(c) {
                        p.next();
                    } else if c == '{' {
                        p.next();
                        let second = match p.peek() {
                            Some((_, c2)) => c2 == '{',
                            None => false,
                        };
                        p.reset_to(loc, Ghost(pa));
                        complex = Some(second);
                        first = loc;
                        proof {
                            pf = pa;
                        }
                    } else {
                        complex = Some(c == '.');
                        first = loc;
                        proof {
                            pf = pa;
                        }
                    }
                },
                None => {
                    break;
                },
            }
        }
        proof {
            p.lemma_inv();
        }
        let message = match complex {
            Some(true) => {
                proof {
                    assert(spaces_before(s, pf));
                    assert(starts_complex(s));
                    lemma_spaces_end(s, 0, pf);
                    lemma_spaces_end(s, pf, pf);
                }
                Message::Complex(p.parse_complex_message(first, Ghost(pf)))
            },
            Some(false) => {
                proof {
                    lemma_spaces_end(s, 0, pf);
                    assert forall|i: int| 0 <= i < s.len() && #[trigger] spaces_before(s, i) implies !(s[i] == '.' || (s[i] == '{' && i + 1 < s.len() && s[i + 1] == '{')) by {
                        if i < pf {
                            assert(space_char(s[i]));
                        } else if i > pf {
                            assert(space_char(s[pf]));
                        }
                    }
                }
                let start = p.text.start_location();
                proof {
                    assert(s.take(0) =~= Seq::<char>::empty());
                }
                proof {
                    assert forall|k: int| 0 <= k < pf implies plain_char(#[trigger] s[k]) by {
                        assert(space_char(s[k]));
                    }
                }
                let pattern = p.parse_pattern(start, Ghost(0), false);
                proof {
                    assert(s.subrange(0, s.len() as int) =~= s);
                    lemma_byte_offset_end(s);
                }
                Message::Simple(pattern)
            },
            None => {
                proof {
                    assert(!starts_complex(s));
                    lemma_spaces_end(s, 0, s.len() as int);
                }
                let start = p.text.start_location();
                let end = p.text.end_location();
                proof {
                    assert(s.take(0) =~= Seq::<char>::empty());
                    lemma_char_loc(s, 0);
                    lemma_byte_offset_mono(s, 0, s.len() as int);
                }
                let t = p.slice_text(start..end, Ghost(0), Ghost(s.len() as int));
                proof {
                    lemma_text_span(t, s);
                }
                let mut parts: Vec<PatternPart<'a>> = Vec::new();
                parts.push(PatternPart::Text(t));
                proof {
                    assert(s.subrange(0, s.len() as int) =~= s);
                    if s.len() > 0 {
                        assert forall|k: int| 0 <= k < s.len() implies plain_char(#[trigger] s[k]) by {
                            assert(space_char(s[k]));
                        }
                        lemma_plain_run_end(s, 0, s.len() as int);
                        assert(text_and_variables_shapes(s, 0) == seq![PartShape::Text(s.subrange(0, s.len() as int))]);
                        assert(has_shape(parts@[0], PartShape::Text(s)));
                    }
                }
                Message::Simple(Pattern { parts })
            },
        };
        proof {
            p.lemma_inv();
            p.text.lemma_wf();
        }
        let info = p.text.into_info();
        (message, p.diagnostics, info)
    }
}

/// The parts of a simple message cover `s` from its start, one after the
/// other: up to its end, or up to a backslash at its end that escapes
/// nothing, which the last diagnostic of `ds` then reports.
pub open spec fn parts_tile(parts: Seq<PatternPart>, s: Seq<char>, ds: Seq<Diagnostic>) -> bool {
    &&& parts_contiguous(parts, 0)
    &&& parts_end(parts, 0) == utf8_len(s) || lone_backslash_reported(s, parts_end(parts, 0), ds)
}

/// Where the expression of a local declaration read from index `p` of `s`
/// is read: past the spaces after the brace that `local_variable_at` finds.
pub open spec fn local_expression_at(s: Seq<char>, p: int) -> int {
    let k = spaces_end(s, p);
    let q = spaces_end(s, variable_end(s, k));
    let q2 = if 0 <= q < s.len() && s[q] == '=' {
        spaces_end(s, q + 1)
    } else {
        q
    };
    spaces_end(s, q2 + 1)
}

/// What a declaration holds was read from index `p` of `s`, just after its
/// keyword: an input declaration's expression at the variable that
/// `input_variable_at` finds; a local declaration written in full, its
/// variable and its expression.
pub open spec fn declaration_content_read(d: Declaration, s: Seq<char>, p: int) -> bool {
    match d {
        Declaration::InputDeclaration(x) => input_variable_at(s, p) is Some && expression_read(
            Expression::VariableExpression(x.expression),
            s,
            input_variable_at(s, p)->0,
        ),
        Declaration::LocalDeclaration(x) => local_variable_at(s, p) is Some ==> selector_read(
            x.variable,
            s,
            local_variable_at(s, p)->0,
        ) && expression_read(x.expression, s, local_expression_at(s, p)),
    }
}

/// Declaration `d` was read at a dot and the keyword of its kind, and what
/// it holds was read after the keyword.
pub open spec fn declaration_read(d: Declaration, s: Seq<char>) -> bool {
    exists|i: int|
        0 <= i && i + 6 <= s.len() && #[trigger] byte_offset(s, i) == declaration_start(d) && s[i] == '.'
            && s.subrange(i + 1, i + 6) == declaration_keyword(d) && declaration_content_read(d, s, i + 6)
}

/// Where a declaration starts: at the dot of its keyword.
pub open spec fn declaration_start(d: Declaration) -> int {
    match d {
        Declaration::InputDeclaration(x) => x.start.byte() as int,
        Declaration::LocalDeclaration(x) => x.start.byte() as int,
    }
}

/// The keyword of a declaration.
pub open spec fn declaration_keyword(d: Declaration) -> Seq<char> {
    match d {
        Declaration::InputDeclaration(_) => seq!['i', 'n', 'p', 'u', 't'],
        Declaration::LocalDeclaration(_) => seq!['l', 'o', 'c', 'a', 'l'],
    }
}

/// Each declaration was read at a dot and the keyword of its kind, with
/// what it holds (see `declaration_read`), and they come in the order of
/// the text.
pub open spec fn declarations_read(ds: Seq<Declaration>, s: Seq<char>) -> bool {
    &&& forall|i: int|
        0 <= i < ds.len() ==> declaration_read(#[trigger] ds[i], s)
    &&& forall|i: int, j: int|
        0 <= i < j < ds.len() ==> declaration_start(#[trigger] ds[i]) < declaration_start(#[trigger] ds[j])
}

/// A declaration read after the others, at a keyword, keeps them read.
proof fn lemma_push_declaration_read(ds: Seq<Declaration>, d: Declaration, s: Seq<char>)
    requires
        declarations_read(ds, s),
        forall|i: int| 0 <= i < ds.len() ==> declaration_start(#[trigger] ds[i]) < declaration_start(d),
        declaration_read(d, s),
    ensures
        declarations_read(ds.push(d), s),
{
    let q = ds.push(d);
    assert forall|i: int| 0 <= i < q.len() implies declaration_read(#[trigger] q[i], s) by {
        if i < ds.len() {
            assert(q[i] == ds[i]);
        }
    }
    assert forall|i: int, j: int| 0 <= i < j < q.len() implies declaration_start(#[trigger] q[i])
        < declaration_start(#[trigger] q[j]) by {
        assert(q[i] == ds[i]);
        if j < ds.len() {
            assert(q[j] == ds[j]);
        }
    }
}

/// The index of the `$` of the variable that a local declaration read from
/// index `p` of `s` declares, when it is written in full: past spaces a `$`
/// and its name, past spaces an equals sign (or none), and past spaces an
/// opening brace.
pub open spec fn local_variable_at(s: Seq<char>, p: int) -> Option<int> {
    let k = spaces_end(s, p);
    let q = spaces_end(s, variable_end(s, k));
    let q2 = if 0 <= q < s.len() && s[q] == '=' {
        spaces_end(s, q + 1)
    } else {
        q
    };
    if p < k && 0 <= k < s.len() && s[k] == '$' && 0 <= q2 < s.len() && s[q2] == '{' {
        Some(k)
    } else {
        None
    }
}

/// Whether an expression ends with its closing brace.
pub open spec fn expression_closed(r: Expression) -> bool {
    match r {
        Expression::LiteralExpression(x) => x.has_closing_brace,
        Expression::VariableExpression(x) => x.has_closing_brace,
        Expression::AnnotationExpression(x) => x.has_closing_brace,
    }
}

/// The byte where what an expression holds ends: after its last attribute,
/// else after its function's last option or its identifier, else after its
/// operand, else just after its opening brace.
pub open spec fn contents_end_byte(e: Expression) -> int {
    let attrs = expression_attributes(e);
    if attrs.len() > 0 {
        attrs.last().span.end.byte() as int
    } else {
        match expression_annotation(e) {
            Some(Annotation::Function(f)) => if f.options.len() > 0 {
                f.options@.last().spec_span().end.byte() as int
            } else {
                f.id.spec_span().end.byte() as int
            },
            None => match e {
                Expression::LiteralExpression(x) => if x.literal is Text && x.literal->Text_0.content@.len() == 0 {
                    x.span.start.byte() + 1
                } else {
                    x.literal.spec_span().end.byte() as int
                },
                Expression::VariableExpression(x) => x.variable.span.end.byte() as int,
                Expression::AnnotationExpression(x) => x.span.start.byte() + 1,
            },
        }
    }
}

/// A closed expression placed in `s` holds nothing but spaces between what
/// it holds and its closing brace.
pub open spec fn contents_clean(e: Expression, s: Seq<char>) -> bool {
    expression_closed(e) ==> exists|k: int|
        0 <= k <= s.len() && #[trigger] byte_offset(s, k) == contents_end_byte(e) && forall|j: int|
            k <= j < s.len() && byte_offset(s, j) + 1 < e.stored_span().end.byte() ==> space_char(
                #[trigger] s[j],
            )
}

/// Some diagnostic of `ds` reports invalid contents of a placeholder.
pub open spec fn invalid_contents_reported(ds: Seq<Diagnostic>) -> bool {
    exists|k: int| 0 <= k < ds.len() && #[trigger] ds[k] is PlaceholderInvalidContents
}

/// Some diagnostic of `ds` reports a placeholder without its closing brace.
pub open spec fn unclosed_reported(ds: Seq<Diagnostic>) -> bool {
    exists|k: int| 0 <= k < ds.len() && #[trigger] ds[k] is PlaceholderMissingClosingBrace
}

/// An expression is closed, or its missing brace is reported; and it holds
/// nothing but spaces after what it holds, or invalid contents are
/// reported.
pub open spec fn expression_clean(e: Expression, s: Seq<char>, ds: Seq<Diagnostic>) -> bool {
    &&& expression_closed(e) || unclosed_reported(ds)
    &&& contents_clean(e, s) || invalid_contents_reported(ds)
}

/// An expression part is clean (see `expression_clean`).
pub open spec fn part_clean(p: PatternPart, s: Seq<char>, ds: Seq<Diagnostic>) -> bool {
    p matches PatternPart::Expression(e) ==> expression_clean(e, s, ds)
}

/// Each part is clean (see `part_clean`).
pub open spec fn parts_clean(parts: Seq<PatternPart>, s: Seq<char>, ds: Seq<Diagnostic>) -> bool {
    forall|i: int| 0 <= i < parts.len() ==> #[trigger] part_clean(parts[i], s, ds)
}

/// Where what an expression holds ends (see `contents_end_byte`), from the
/// parts it is built of, its opening brace at byte `b`.
spec fn contents_end_of(al: Seq<Attribute>, ga: Option<Annotation>, glv: Option<LiteralOrVariable>, b: int) -> int {
    if al.len() > 0 {
        al.last().span.end.byte() as int
    } else {
        match ga {
            Some(Annotation::Function(f)) => if f.options.len() > 0 {
                f.options@.last().spec_span().end.byte() as int
            } else {
                f.id.spec_span().end.byte() as int
            },
            None => match glv {
                Some(v) => v.spec_span().end.byte() as int,
                None => b + 1,
            },
        }
    }
}

/// Reading an expression's operand, function and attributes stopped at
/// index `pc`, past the spaces after where what it holds ends.
proof fn lemma_contents_anchor(
    s: Seq<char>,
    al: Seq<Attribute>,
    ga: Option<Annotation>,
    glv: Option<LiteralOrVariable>,
    h0: int,
    aends: Seq<int>,
    pc: int,
    ps: int,
    p0: int,
) -> (k0: int)
    requires
        attributes_placed(al, s, h0, aends),
        pc == option_prev(aends, h0, al.len() as int),
        annotation_ends_at(ga, s, h0),
        ga is None && glv is Some ==> exists|k: int|
            0 <= k <= s.len() && #[trigger] byte_offset(s, k) == glv->0.spec_span().end.byte() && h0
                == spaces_end(s, k),
        ga is None && glv is None ==> h0 == p0,
        0 <= ps < s.len(),
        s[ps] == '{',
        p0 == spaces_end(s, ps + 1),
    ensures
        0 <= k0 <= s.len(),
        pc == spaces_end(s, k0),
        byte_offset(s, k0) == contents_end_of(al, ga, glv, byte_offset(s, ps) as int),
{
    let n = al.len() as int;
    if n > 0 {
        assert(attribute_placed_at(al, s, h0, aends, n - 1));
        let k = choose|k: int|
            0 <= k <= s.len() && #[trigger] byte_offset(s, k) == al[n - 1].span.end.byte() && aends[n - 1]
                == spaces_end(s, k);
        k
    } else {
        match ga {
            Some(Annotation::Function(f)) => {
                let (e0, ends) = choose|e0: int, ends: Seq<int>|
                    0 <= e0 <= s.len() && #[trigger] byte_offset(s, e0) == f.id.spec_span().end.byte()
                        && #[trigger] options_placed(f.options@, s, e0, ends) && h0 == spaces_end(
                        s,
                        option_prev(ends, e0, f.options.len() as int),
                    );
                let m = f.options.len() as int;
                if m > 0 {
                    assert(option_placed_at(f.options@, s, e0, ends, m - 1));
                    ends[m - 1]
                } else {
                    e0
                }
            },
            None => {
                match glv {
                    Some(v) => {
                        let k = choose|k: int|
                            0 <= k <= s.len() && #[trigger] byte_offset(s, k) == v.spec_span().end.byte() && h0
                                == spaces_end(s, k);
                        k
                    },
                    None => {
                        crate::strings::lemma_byte_offset_step(s, ps);
                        ps + 1
                    },
                }
            },
        }
    }
}

/// The patterns of the variants are clean (see `part_clean`).
pub open spec fn variants_clean(vs: Seq<Variant>, s: Seq<char>, ds: Seq<Diagnostic>) -> bool {
    forall|i: int| 0 <= i < vs.len() ==> parts_clean(#[trigger] vs[i].pattern.pattern.parts@, s, ds)
}

/// The body of a complex message is clean: its quoted pattern, or the
/// patterns of its variants.
pub open spec fn body_clean(b: ComplexMessageBody, s: Seq<char>, ds: Seq<Diagnostic>) -> bool {
    match b {
        ComplexMessageBody::QuotedPattern(q) => parts_clean(q.pattern.parts@, s, ds),
        ComplexMessageBody::Matcher(m) => variants_clean(m.variants@, s, ds),
    }
}

/// The expression of a declaration is clean (see `expression_clean`).
pub open spec fn declaration_clean(d: Declaration, s: Seq<char>, ds: Seq<Diagnostic>) -> bool {
    match d {
        Declaration::InputDeclaration(x) => expression_clean(Expression::VariableExpression(x.expression), s, ds),
        Declaration::LocalDeclaration(x) => expression_clean(x.expression, s, ds),
    }
}

/// The expressions of the declarations are clean (see `declaration_clean`).
pub open spec fn declarations_clean(d: Seq<Declaration>, s: Seq<char>, ds: Seq<Diagnostic>) -> bool {
    forall|i: int| 0 <= i < d.len() ==> #[trigger] declaration_clean(d[i], s, ds)
}

/// Invalid contents reported stay reported.
proof fn lemma_invalid_kept(a: Seq<Diagnostic>, b: Seq<Diagnostic>)
    requires
        invalid_contents_reported(a),
        kept(a, b),
    ensures
        invalid_contents_reported(b),
{
    let k = choose|k: int| 0 <= k < a.len() && #[trigger] a[k] is PlaceholderInvalidContents;
    assert(b[k] == a[k]);
}

/// A missing brace reported stays reported.
proof fn lemma_unclosed_kept(a: Seq<Diagnostic>, b: Seq<Diagnostic>)
    requires
        unclosed_reported(a),
        kept(a, b),
    ensures
        unclosed_reported(b),
{
    let k = choose|k: int| 0 <= k < a.len() && #[trigger] a[k] is PlaceholderMissingClosingBrace;
    assert(b[k] == a[k]);
}

/// Clean variants stay so as diagnostics are added.
proof fn lemma_variants_clean_kept(vs: Seq<Variant>, s: Seq<char>, a: Seq<Diagnostic>, b: Seq<Diagnostic>)
    requires
        variants_clean(vs, s, a),
        kept(a, b),
    ensures
        variants_clean(vs, s, b),
{
    assert forall|i: int| 0 <= i < vs.len() implies parts_clean(#[trigger] vs[i].pattern.pattern.parts@, s, b) by {
        lemma_clean_kept(vs[i].pattern.pattern.parts@, s, a, b);
    }
}

/// A clean body stays so as diagnostics are added.
proof fn lemma_body_clean_kept(x: ComplexMessageBody, s: Seq<char>, a: Seq<Diagnostic>, b: Seq<Diagnostic>)
    requires
        body_clean(x, s, a),
        kept(a, b),
    ensures
        body_clean(x, s, b),
{
    match x {
        ComplexMessageBody::QuotedPattern(q) => lemma_clean_kept(q.pattern.parts@, s, a, b),
        ComplexMessageBody::Matcher(m) => lemma_variants_clean_kept(m.variants@, s, a, b),
    }
}

/// Clean declarations stay so as diagnostics are added.
proof fn lemma_declarations_clean_kept(d: Seq<Declaration>, s: Seq<char>, a: Seq<Diagnostic>, b: Seq<Diagnostic>)
    requires
        declarations_clean(d, s, a),
        kept(a, b),
    ensures
        declarations_clean(d, s, b),
{
    if invalid_contents_reported(a) {
        lemma_invalid_kept(a, b);
    }
    if unclosed_reported(a) {
        lemma_unclosed_kept(a, b);
    }
    assert forall|i: int| 0 <= i < d.len() implies #[trigger] declaration_clean(d[i], s, b) by {
        assert(declaration_clean(d[i], s, a));
    }
}

/// One more declaration, clean as it was read.
proof fn lemma_declarations_clean_push(
    d: Seq<Declaration>,
    x: Declaration,
    s: Seq<char>,
    a: Seq<Diagnostic>,
    b: Seq<Diagnostic>,
    c: Seq<Diagnostic>,
)
    requires
        declarations_clean(d, s, a),
        declaration_clean(x, s, b),
        kept(a, c),
        kept(b, c),
    ensures
        declarations_clean(d.push(x), s, c),
{
    lemma_declarations_clean_kept(d, s, a, c);
    if invalid_contents_reported(b) {
        lemma_invalid_kept(b, c);
    }
    if unclosed_reported(b) {
        lemma_unclosed_kept(b, c);
    }
    assert forall|i: int| 0 <= i < d.push(x).len() implies #[trigger] declaration_clean(d.push(x)[i], s, c) by {
        if i < d.len() {
            assert(d.push(x)[i] == d[i]);
        } else {
            assert(d.push(x)[i] == x);
        }
    }
}

/// What is clean stays so as diagnostics are added.
proof fn lemma_clean_kept(parts: Seq<PatternPart>, s: Seq<char>, a: Seq<Diagnostic>, b: Seq<Diagnostic>)
    requires
        parts_clean(parts, s, a),
        kept(a, b),
    ensures
        parts_clean(parts, s, b),
{
    if invalid_contents_reported(a) {
        let k = choose|k: int| 0 <= k < a.len() && #[trigger] a[k] is PlaceholderInvalidContents;
        assert(b[k] == a[k]);
    }
    if unclosed_reported(a) {
        lemma_unclosed_kept(a, b);
    }
    assert forall|i: int| 0 <= i < parts.len() implies #[trigger] part_clean(parts[i], s, b) by {
        assert(part_clean(parts[i], s, a));
    }
}

/// `d` reports a placeholder from `start` to byte `end` that has no closing
/// brace.
pub open spec fn is_missing_brace(d: Diagnostic, start: Location, end: int) -> bool {
    match d {
        Diagnostic::PlaceholderMissingClosingBrace { span } => span.start == start && span.end.byte() == end,
        _ => false,
    }
}

/// Some diagnostic of `ds` reports a placeholder from `start` to byte `end`
/// that has no closing brace.
pub open spec fn missing_brace_reported(ds: Seq<Diagnostic>, start: Location, end: int) -> bool {
    exists|k: int| 0 <= k < ds.len() && is_missing_brace(#[trigger] ds[k], start, end)
}

/// Every diagnostic of `a` is still in `b`, at the same place.
pub open spec fn kept(a: Seq<Diagnostic>, b: Seq<Diagnostic>) -> bool {
    &&& a.len() <= b.len()
    &&& forall|i: int| 0 <= i < a.len() ==> #[trigger] b[i] == a[i]
}

/// At index `i` of `s` a placeholder opens that no closing brace follows:
/// a `{` that does not start markup (no `#` or `/` after it, past spaces),
/// with no `}` anywhere after it.
pub open spec fn unclosed_placeholder_at(s: Seq<char>, i: int) -> bool {
    let k = spaces_end(s, i + 1);
    &&& 0 <= i < s.len()
    &&& s[i] == '{'
    &&& !(0 <= k < s.len() && (s[k] == '#' || s[k] == '/'))
    &&& forall|j: int| i < j < s.len() ==> #[trigger] s[j] != '}'
}

/// Plain characters from `a` to `b` lie within the run of plain characters
/// that starts at `a`.
proof fn lemma_plain_run_end_covers(s: Seq<char>, a: int, b: int)
    requires
        0 <= a <= b <= s.len(),
        plain_between(s, a, b),
    ensures
        plain_run_end(s, a) >= b,
    decreases b - a,
{
    lemma_plain_run_end_ge(s, a);
    if a < b {
        assert(plain_char(s[a]));
        lemma_plain_run_end_covers(s, a + 1, b);
    }
}

/// A diagnostic that was reported is still reported once more are added.
proof fn lemma_missing_brace_kept(a: Seq<Diagnostic>, b: Seq<Diagnostic>, start: Location, end: int)
    requires
        missing_brace_reported(a, start, end),
        kept(a, b),
    ensures
        missing_brace_reported(b, start, end),
{
    let k = choose|k: int| 0 <= k < a.len() && is_missing_brace(#[trigger] a[k], start, end);
    assert(b[k] == a[k]);
}

/// Every character of `s` from index `a` to index `b` is a space.
pub open spec fn all_spaces(s: Seq<char>, a: int, b: int) -> bool {
    forall|k: int| a <= k < b ==> space_char(#[trigger] s[k])
}

/// A tag that ends at index `e` of `s` closes itself with the `/` at index
/// `j`: past spaces, a closing brace ends it, or the text does.
pub open spec fn self_close_ends(s: Seq<char>, j: int, e: int) -> bool {
    &&& 0 <= j < s.len()
    &&& s[j] == '/'
    &&& (e == s.len() && all_spaces(s, j + 1, e)) || (j < e - 1 && e <= s.len() && s[e - 1] == '}'
        && all_spaces(s, j + 1, e - 1))
}

/// A markup tag read from index `p` of `s` (at its `#`) has a plain name,
/// then, past spaces, a `/`, and past spaces a closing brace: it is a
/// standalone tag `{#name/}` that ends at the returned index.
pub open spec fn plain_self_closing_at(s: Seq<char>, p: int) -> Option<int> {
    let j = spaces_end(s, name_run_end(s, p + 2));
    let q = spaces_end(s, j + 1);
    if plain_name_at(s, p + 1) && 0 <= j < s.len() && s[j] == '/' && 0 <= q < s.len() && s[q] == '}' {
        Some(q + 1)
    } else {
        None
    }
}

/// A part of a pattern read from `s`: a placeholder starts at a `{`; an
/// expression is read past the spaces after it as `expression_read`,
/// `annotation_read` and `annotation_function_read` say, with its attributes
/// all those that follow (see `expression_attributes_read`), each read where
/// it starts, and a markup tag as `markup_read` says.
pub open spec fn part_read(p: PatternPart, s: Seq<char>) -> bool {
    match p {
        PatternPart::Markup(m) => exists|k: int, e: int|
            0 <= k < s.len() && 0 <= e <= s.len() && #[trigger] byte_offset(s, k) == m.span.start.byte()
                && s[k] == '{' && #[trigger] byte_offset(s, e) == m.span.end.byte() && markup_read(
                m,
                s,
                spaces_end(s, k + 1),
                e,
            ),
        PatternPart::Expression(e) => exists|k: int|
            0 <= k < s.len() && #[trigger] byte_offset(s, k) == e.stored_span().start.byte() && s[k] == '{'
                && expression_read(e, s, spaces_end(s, k + 1)) && annotation_read(e, s, spaces_end(s, k + 1))
                && annotation_function_read(e, s) && attributes_read(expression_attributes(e), s)
                && expression_attributes_read(e, s, spaces_end(s, k + 1)),
        _ => true,
    }
}

/// Each part of a pattern was read from `s` (see `part_read`).
pub open spec fn parts_read(parts: Seq<PatternPart>, s: Seq<char>) -> bool {
    forall|i: int| 0 <= i < parts.len() ==> part_read(#[trigger] parts[i], s)
}

/// A part read after the others keeps them read.
proof fn lemma_push_read(parts: Seq<PatternPart>, part: PatternPart, s: Seq<char>)
    requires
        parts_read(parts, s),
        part_read(part, s),
    ensures
        parts_read(parts.push(part), s),
{
    let q = parts.push(part);
    assert forall|i: int| 0 <= i < q.len() implies part_read(#[trigger] q[i], s) by {
        if i < parts.len() {
            assert(q[i] == parts[i]);
        }
    }
}

/// The body of a complex message was read from `s`: a quoted pattern's
/// parts are read (see `part_read`), and a matcher was read after its
/// `.match` keyword (see `matcher_read`).
pub open spec fn body_read(b: ComplexMessageBody, s: Seq<char>) -> bool {
    match b {
        ComplexMessageBody::QuotedPattern(q) => parts_read(q.pattern.parts@, s),
        ComplexMessageBody::Matcher(m) => exists|k: int|
            0 <= k && k + 6 <= s.len() && #[trigger] byte_offset(s, k) == m.start.byte() && matcher_read(
                m,
                s,
                k + 6,
            ),
    }
}

/// Past spaces after index `k` of `s` (at least one), an option starts.
pub open spec fn option_follows(s: Seq<char>, k: int) -> bool {
    let j = spaces_end(s, k);
    k < j && 0 <= j < s.len() && option_start(s[j])
}

/// Where the option before option `i` ends (or, for the first, `e0`).
pub open spec fn option_prev(ends: Seq<int>, e0: int, i: int) -> int {
    if i == 0 {
        e0
    } else {
        ends[i - 1]
    }
}

/// Option `i` was read after spaces where an option starts, past where the
/// one before it (or, for the first, index `e0`) ends, and it ends at the
/// index in `ends`.
pub open spec fn option_placed_at(
    opts: Seq<FnOrMarkupOption>,
    s: Seq<char>,
    e0: int,
    ends: Seq<int>,
    i: int,
) -> bool {
    &&& option_follows(s, option_prev(ends, e0, i))
    &&& spaces_end(s, option_prev(ends, e0, i)) < ends[i] <= s.len()
    &&& opts[i].spec_span().start.byte() == byte_offset(s, spaces_end(s, option_prev(ends, e0, i)))
    &&& opts[i].spec_span().end.byte() == byte_offset(s, ends[i])
    &&& option_read_at(opts[i], s, spaces_end(s, option_prev(ends, e0, i)))
}

/// The options were read one after the other from index `e0` of `s` (see
/// `option_placed_at`).
pub open spec fn options_placed(opts: Seq<FnOrMarkupOption>, s: Seq<char>, e0: int, ends: Seq<int>) -> bool {
    &&& ends.len() == opts.len()
    &&& forall|i: int| 0 <= i < opts.len() ==> #[trigger] option_placed_at(opts, s, e0, ends, i)
}

/// The options of a function whose name ends at index `e0` of `s` are all
/// those read after it: each follows the one before past spaces, and no
/// option follows the last.
pub open spec fn options_read(opts: Seq<FnOrMarkupOption>, s: Seq<char>, e0: int) -> bool {
    exists|ends: Seq<int>|
        #[trigger] options_placed(opts, s, e0, ends) && !option_follows(s, option_prev(ends, e0, opts.len() as int))
}

/// A function annotation was read from `s`: its options are all those read
/// after its name (see `options_read`).
pub open spec fn function_read(f: Function, s: Seq<char>) -> bool {
    exists|e0: int| 0 <= e0 <= s.len() && #[trigger] byte_offset(s, e0) == f.id.spec_span().end.byte()
        && options_read(f.options@, s, e0)
}

/// Pushing an option read at the end keeps the options placed.
proof fn lemma_push_option(
    opts: Seq<FnOrMarkupOption>,
    o: FnOrMarkupOption,
    s: Seq<char>,
    e0: int,
    ends: Seq<int>,
    e: int,
)
    requires
        options_placed(opts, s, e0, ends),
        option_follows(s, option_prev(ends, e0, opts.len() as int)),
        spaces_end(s, option_prev(ends, e0, opts.len() as int)) < e <= s.len(),
        o.spec_span().start.byte() == byte_offset(s, spaces_end(s, option_prev(ends, e0, opts.len() as int))),
        o.spec_span().end.byte() == byte_offset(s, e),
        option_read_at(o, s, spaces_end(s, option_prev(ends, e0, opts.len() as int))),
    ensures
        options_placed(opts.push(o), s, e0, ends.push(e)),
{
    let q = opts.push(o);
    let qe = ends.push(e);
    assert forall|i: int| 0 <= i < q.len() implies #[trigger] option_placed_at(q, s, e0, qe, i) by {
        assert(option_prev(qe, e0, i) == option_prev(ends, e0, i));
        if i < opts.len() {
            assert(option_placed_at(opts, s, e0, ends, i));
            assert(q[i] == opts[i]);
            assert(qe[i] == ends[i]);
        }
    }
}

/// The function that annotates an expression, if any, was read from `s`
/// (see `function_read`).
pub open spec fn annotation_function_read(e: Expression, s: Seq<char>) -> bool {
    match expression_annotation(e) {
        Some(Annotation::Function(f)) => function_read(f, s),
        None => true,
    }
}

/// An option read at index `p` of `s` whose key is a plain name has that
/// name as its key; when, past spaces, an equals sign and more spaces, an
/// operand starts, the option's value is that operand (see `operand_read`).
pub open spec fn option_read_at(o: FnOrMarkupOption, s: Seq<char>, p: int) -> bool {
    let e = name_run_end(s, p + 1);
    let k = spaces_end(s, e);
    let v = spaces_end(s, k + 1);
    plain_name_at(s, p) ==> {
        &&& o.key.namespace is None
        &&& o.key.name@ == s.subrange(p, e)
        &&& (0 <= k < s.len() && s[k] == '=' && 0 <= v < s.len() && literal_or_variable_start(s[v]))
            ==> operand_read(Some(o.value), s, v)
    }
}

/// The spans of some keys, in order.
pub open spec fn key_spans(keys: Seq<Key>) -> Seq<Span> {
    Seq::new(keys.len(), |i: int| keys[i].spec_span())
}

/// What a variant covers, in the order of the text: its keys, then its
/// quoted pattern.
pub open spec fn variant_tokens(v: Variant) -> Seq<Span> {
    key_spans(v.keys@).push(v.pattern.span)
}

/// What the variants of a matcher cover, in the order of the text.
pub open spec fn variants_tokens(vs: Seq<Variant>) -> Seq<Span>
    decreases vs.len(),
{
    if vs.len() == 0 {
        seq![]
    } else {
        variants_tokens(vs.drop_last()) + variant_tokens(vs.last())
    }
}

/// Token `i` starts past the spaces after the one before it (or, for the
/// first, index `e0`) and ends at the index in `ends`.
pub open spec fn token_placed_at(ts: Seq<Span>, s: Seq<char>, e0: int, ends: Seq<int>, i: int) -> bool {
    &&& spaces_end(s, option_prev(ends, e0, i)) <= ends[i] <= s.len()
    &&& ts[i].start.byte() == byte_offset(s, spaces_end(s, option_prev(ends, e0, i)))
    &&& ts[i].end.byte() == byte_offset(s, ends[i])
}

/// The tokens follow one another from index `e0` of `s`, with only spaces
/// between them.
pub open spec fn tokens_placed(ts: Seq<Span>, s: Seq<char>, e0: int, ends: Seq<int>) -> bool {
    &&& ends.len() == ts.len()
    &&& forall|i: int| 0 <= i < ts.len() ==> #[trigger] token_placed_at(ts, s, e0, ends, i)
}

/// The variants of a matcher whose selectors end at index `e0` of `s` cover
/// the text after the selectors: their keys and quoted patterns follow one
/// another with only spaces between them, in the order of the text, and
/// past the last one the text ends or a `.` stands.
pub open spec fn variants_read(vs: Seq<Variant>, s: Seq<char>, e0: int) -> bool {
    exists|ends: Seq<int>|
        #[trigger] tokens_placed(variants_tokens(vs), s, e0, ends) && {
            let t = spaces_end(s, option_prev(ends, e0, variants_tokens(vs).len() as int));
            t == s.len() || (0 <= t < s.len() && s[t] == '.')
        }
}

/// A token placed after the others keeps them placed.
proof fn lemma_push_token(ts: Seq<Span>, t: Span, s: Seq<char>, e0: int, ends: Seq<int>, e: int)
    requires
        tokens_placed(ts, s, e0, ends),
        spaces_end(s, option_prev(ends, e0, ts.len() as int)) <= e <= s.len(),
        t.start.byte() == byte_offset(s, spaces_end(s, option_prev(ends, e0, ts.len() as int))),
        t.end.byte() == byte_offset(s, e),
    ensures
        tokens_placed(ts.push(t), s, e0, ends.push(e)),
{
    let q = ts.push(t);
    let qe = ends.push(e);
    assert forall|i: int| 0 <= i < q.len() implies #[trigger] token_placed_at(q, s, e0, qe, i) by {
        assert(option_prev(qe, e0, i) == option_prev(ends, e0, i));
        if i < ts.len() {
            assert(token_placed_at(ts, s, e0, ends, i));
            assert(q[i] == ts[i]);
            assert(qe[i] == ends[i]);
        }
    }
}

/// The tokens of variants followed by one more variant.
proof fn lemma_variants_tokens_push(vs: Seq<Variant>, v: Variant)
    ensures
        variants_tokens(vs.push(v)) == variants_tokens(vs) + variant_tokens(v),
{
    assert(vs.push(v).drop_last() =~= vs);
}

/// A matcher was read from index `p` of `s`, just after `.match`: its
/// selectors are the variables there (see `selector_starts`), its variants
/// cover the text after them (see `variants_read`), and the parts of each
/// variant's pattern were read (see `part_read`).
pub open spec fn matcher_read(m: Matcher, s: Seq<char>, p: int) -> bool {
    &&& m.selectors.len() == selector_starts(s, p).len()
    &&& forall|i: int|
        0 <= i < m.selectors.len() ==> selector_read(#[trigger] m.selectors[i], s, selector_starts(s, p)[i])
    &&& variants_read(m.variants@, s, selectors_end(s, p))
    &&& forall|i: int| 0 <= i < m.variants.len() ==> parts_read((#[trigger] m.variants[i]).pattern.pattern.parts@, s)
}

/// A markup tag whose sigil (`#` or `/`) stands at index `j` of `s`: an
/// open tag starts with `#` and a close tag with `/`; a standalone tag
/// closes itself with a `/` (see `self_close_ends`); `{#name/}` is
/// standalone; and each option and attribute was read where it starts.
pub open spec fn markup_read(m: Markup, s: Seq<char>, j: int, e: int) -> bool {
    &&& m.kind is Open ==> 0 <= j < s.len() && s[j] == '#'
    &&& m.kind is Close ==> 0 <= j < s.len() && s[j] == '/'
    &&& m.kind is Standalone ==> exists|k: int| j < k && #[trigger] self_close_ends(s, k, e)
    &&& 0 <= j < s.len() && s[j] == '#' && plain_self_closing_at(s, j) is Some ==> m.kind is Standalone
        && e == plain_self_closing_at(s, j)->0
    &&& forall|i: int| 0 <= i < m.options.len() ==> option_read(#[trigger] m.options[i], s)
    &&& attributes_read(m.attributes@, s)
    &&& markup_items_read(m, s)
}

/// Option `o` was read from `s` where its span starts (see
/// `option_read_at`).
pub open spec fn option_read(o: FnOrMarkupOption, s: Seq<char>) -> bool {
    exists|k: int| 0 <= k <= s.len() && #[trigger] byte_offset(s, k) == o.spec_span().start.byte() && option_read_at(o, s, k)
}

/// An attribute read at the `@` at index `p` of `s` whose key is a plain
/// name has that name as its key; when, past spaces, an equals sign and
/// more spaces, a literal starts, the attribute's value is that literal
/// (see `operand_read`).
pub open spec fn attribute_read_at(a: Attribute, s: Seq<char>, p: int) -> bool {
    let e = name_run_end(s, p + 2);
    let k = spaces_end(s, e);
    let v = spaces_end(s, k + 1);
    plain_name_at(s, p + 1) ==> {
        &&& a.key.namespace is None
        &&& a.key.name@ == s.subrange(p + 1, e)
        &&& (0 <= k < s.len() && s[k] == '=' && 0 <= v < s.len() && literal_or_variable_start(s[v])
            && s[v] != '$') ==> (a.value matches Some(l) && operand_read(
            Some(LiteralOrVariable::Literal(l)),
            s,
            v,
        ))
    }
}

/// Attribute `a` was read from `s` at the `@` where its span starts (see
/// `attribute_read_at`).
pub open spec fn attribute_read(a: Attribute, s: Seq<char>) -> bool {
    exists|k: int| 0 <= k < s.len() && #[trigger] byte_offset(s, k) == a.span.start.byte() && s[k] == '@'
        && attribute_read_at(a, s, k)
}

/// Each attribute was read where it starts (see `attribute_read`).
pub open spec fn attributes_read(attrs: Seq<Attribute>, s: Seq<char>) -> bool {
    forall|i: int| 0 <= i < attrs.len() ==> attribute_read(#[trigger] attrs[i], s)
}

/// The attributes of an expression.
pub open spec fn expression_attributes<'t>(e: Expression<'t>) -> Seq<Attribute<'t>> {
    match e {
        Expression::LiteralExpression(x) => x.attributes@,
        Expression::VariableExpression(x) => x.attributes@,
        Expression::AnnotationExpression(x) => x.attributes@,
    }
}

/// Diagnostic `d` is among `ds`.
pub open spec fn reported_at(ds: Seq<Diagnostic>, d: Diagnostic) -> bool {
    exists|k: int| 0 <= k < ds.len() && #[trigger] ds[k] == d
}

/// A character of a pattern's text at byte `b` is reported where it has no
/// place there: a `}` that closes nothing, and a null character.
pub open spec fn char_recovered(c: char, b: int, ds: Seq<Diagnostic>) -> bool {
    &&& c == '}' ==> reported_at(ds, Diagnostic::InvalidClosingBrace { brace_loc: Location(b as u32) })
    &&& c == '\0' ==> reported_at(ds, Diagnostic::InvalidNullCharacter { char_loc: Location(b as u32) })
}

/// Each character of `s` from index `a` to index `b` is reported where it
/// has no place in a pattern's text (see `char_recovered`).
pub open spec fn segment_recovered(s: Seq<char>, a: int, b: int, ds: Seq<Diagnostic>) -> bool {
    forall|k: int| a <= k < b ==> #[trigger] char_recovered(s[k], byte_offset(s, k) as int, ds)
}

/// What a part of a pattern holds that has no place there is reported: in
/// its text, each `}` that closes nothing and each null character; for an
/// escape, a character that cannot be escaped.
pub open spec fn part_recovered(p: PatternPart, ds: Seq<Diagnostic>) -> bool {
    match p {
        PatternPart::Text(t) => forall|j: int|
            0 <= j < t.content@.len() ==> #[trigger] char_recovered(
                t.content@[j],
                t.start.byte() + utf8_len(t.content@.take(j)),
                ds,
            ),
        PatternPart::Escape(e) => !escapable(e.escaped_char) ==> reported_at(
            ds,
            Diagnostic::EscapeInvalidCharacter { slash_loc: e.start, char: e.escaped_char },
        ),
        PatternPart::Markup(m) => markup_recovered(m, ds),
        PatternPart::Expression(e) => expression_recovered(e, ds),
    }
}

/// An identifier with neither a namespace nor a name.
pub open spec fn identifier_empty(id: Identifier) -> bool {
    id.namespace is None && id.name@.len() == 0
}

/// An attribute without a key is reported.
pub open spec fn attribute_recovered(a: Attribute, ds: Seq<Diagnostic>) -> bool {
    identifier_empty(a.key) ==> reported_at(ds, Diagnostic::AttributeMissingKey { span: a.span })
}

/// An option without a key is reported.
pub open spec fn option_recovered(o: FnOrMarkupOption, ds: Seq<Diagnostic>) -> bool {
    identifier_empty(o.key) ==> reported_at(ds, Diagnostic::OptionMissingKey { span: o.spec_span() })
}

/// Each of the attributes and options that lacks its key is reported.
pub open spec fn items_recovered(
    attrs: Seq<Attribute>,
    opts: Seq<FnOrMarkupOption>,
    ds: Seq<Diagnostic>,
) -> bool {
    &&& forall|i: int| 0 <= i < attrs.len() ==> #[trigger] attribute_recovered(attrs[i], ds)
    &&& forall|i: int| 0 <= i < opts.len() ==> #[trigger] option_recovered(opts[i], ds)
}

/// A markup tag without an identifier is reported, and so is each of its
/// attributes and options that lacks its key.
pub open spec fn markup_recovered(m: Markup, ds: Seq<Diagnostic>) -> bool {
    &&& identifier_empty(m.id) ==> reported_at(ds, Diagnostic::MarkupMissingIdentifier { span: m.span })
    &&& items_recovered(m.attributes@, m.options@, ds)
}

/// What is reported of attributes and options stays reported.
proof fn lemma_items_kept(
    attrs: Seq<Attribute>,
    opts: Seq<FnOrMarkupOption>,
    a: Seq<Diagnostic>,
    b: Seq<Diagnostic>,
)
    requires
        items_recovered(attrs, opts, a),
        kept(a, b),
    ensures
        items_recovered(attrs, opts, b),
{
    assert forall|i: int| 0 <= i < attrs.len() implies #[trigger] attribute_recovered(attrs[i], b) by {
        assert(attribute_recovered(attrs[i], a));
        if identifier_empty(attrs[i].key) {
            lemma_reported_kept(a, b, Diagnostic::AttributeMissingKey { span: attrs[i].span });
        }
    }
    assert forall|i: int| 0 <= i < opts.len() implies #[trigger] option_recovered(opts[i], b) by {
        assert(option_recovered(opts[i], a));
        if identifier_empty(opts[i].key) {
            lemma_reported_kept(a, b, Diagnostic::OptionMissingKey { span: opts[i].spec_span() });
        }
    }
}

/// A function annotation without an identifier is reported, and so is each
/// of its options that lacks its key.
pub open spec fn function_recovered(f: Function, ds: Seq<Diagnostic>) -> bool {
    &&& identifier_empty(f.id) ==> reported_at(ds, Diagnostic::FunctionMissingIdentifier { span: f.spec_span() })
    &&& items_recovered(Seq::empty(), f.options@, ds)
}

/// What an annotation lacks is reported (see `function_recovered`).
pub open spec fn annotation_recovered(a: Option<Annotation>, ds: Seq<Diagnostic>) -> bool {
    match a {
        Some(Annotation::Function(f)) => function_recovered(f, ds),
        None => true,
    }
}

/// A placeholder with neither an operand nor an annotation, which stands as
/// an empty text literal, is reported.
pub open spec fn placeholder_body_recovered(e: Expression, ds: Seq<Diagnostic>) -> bool {
    match e {
        Expression::LiteralExpression(x) => x.annotation is None && x.literal is Text && x.literal->Text_0.content@.len()
            == 0 ==> reported_at(ds, Diagnostic::PlaceholderMissingBody { span: x.span }),
        _ => true,
    }
}

/// A variable without a name is reported.
pub open spec fn variable_recovered(v: Variable, ds: Seq<Diagnostic>) -> bool {
    v.name@.len() == 0 ==> reported_at(ds, Diagnostic::VariableMissingName { span: v.span })
}

/// What an expression's operand, annotation and attributes lack is
/// reported.
pub open spec fn expression_recovered(e: Expression, ds: Seq<Diagnostic>) -> bool {
    &&& e matches Expression::VariableExpression(x) ==> variable_recovered(x.variable, ds)
    &&& placeholder_body_recovered(e, ds)
    &&& annotation_recovered(expression_annotation(e), ds)
    &&& items_recovered(expression_attributes(e), Seq::empty(), ds)
}

/// What is reported of an annotation stays reported.
proof fn lemma_annotation_kept(an: Option<Annotation>, a: Seq<Diagnostic>, b: Seq<Diagnostic>)
    requires
        annotation_recovered(an, a),
        kept(a, b),
    ensures
        annotation_recovered(an, b),
{
    if let Some(Annotation::Function(f)) = an {
        lemma_items_kept(Seq::empty(), f.options@, a, b);
        if identifier_empty(f.id) {
            lemma_reported_kept(a, b, Diagnostic::FunctionMissingIdentifier { span: f.spec_span() });
        }
    }
}

/// What is reported of an expression stays reported.
proof fn lemma_expression_kept(e: Expression, a: Seq<Diagnostic>, b: Seq<Diagnostic>)
    requires
        expression_recovered(e, a),
        kept(a, b),
    ensures
        expression_recovered(e, b),
{
    lemma_annotation_kept(expression_annotation(e), a, b);
    lemma_items_kept(expression_attributes(e), Seq::empty(), a, b);
    if let Expression::VariableExpression(x) = e {
        if x.variable.name@.len() == 0 {
            lemma_reported_kept(a, b, Diagnostic::VariableMissingName { span: x.variable.span });
        }
    }
    if let Expression::LiteralExpression(x) = e {
        if x.annotation is None && x.literal is Text && x.literal->Text_0.content@.len() == 0 {
            lemma_reported_kept(a, b, Diagnostic::PlaceholderMissingBody { span: x.span });
        }
    }
}

/// What the expression of a declaration lacks is reported (see
/// `expression_recovered`).
pub open spec fn declaration_recovered(d: Declaration, ds: Seq<Diagnostic>) -> bool {
    match d {
        Declaration::InputDeclaration(x) => expression_recovered(Expression::VariableExpression(x.expression), ds),
        Declaration::LocalDeclaration(x) => expression_recovered(x.expression, ds),
    }
}

/// What the expression of each declaration lacks is reported.
pub open spec fn declarations_recovered(d: Seq<Declaration>, ds: Seq<Diagnostic>) -> bool {
    forall|i: int| 0 <= i < d.len() ==> #[trigger] declaration_recovered(d[i], ds)
}

/// What is reported of declarations stays reported.
proof fn lemma_declarations_kept(d: Seq<Declaration>, a: Seq<Diagnostic>, b: Seq<Diagnostic>)
    requires
        declarations_recovered(d, a),
        kept(a, b),
    ensures
        declarations_recovered(d, b),
{
    assert forall|i: int| 0 <= i < d.len() implies #[trigger] declaration_recovered(d[i], b) by {
        assert(declaration_recovered(d[i], a));
        match d[i] {
            Declaration::InputDeclaration(x) => {
                lemma_expression_kept(Expression::VariableExpression(x.expression), a, b);
            },
            Declaration::LocalDeclaration(x) => {
                lemma_expression_kept(x.expression, a, b);
            },
        }
    }
}

/// One more declaration, reported as it was read.
proof fn lemma_declarations_push(
    d: Seq<Declaration>,
    x: Declaration,
    a: Seq<Diagnostic>,
    b: Seq<Diagnostic>,
    c: Seq<Diagnostic>,
)
    requires
        declarations_recovered(d, a),
        declaration_recovered(x, b),
        kept(a, c),
        kept(b, c),
    ensures
        declarations_recovered(d.push(x), c),
{
    lemma_declarations_kept(d, a, c);
    assert(declaration_recovered(seq![x][0], b));
    assert(declarations_recovered(seq![x], b));
    lemma_declarations_kept(seq![x], b, c);
    assert(declaration_recovered(seq![x][0], c));
    assert forall|i: int| 0 <= i < d.push(x).len() implies #[trigger] declaration_recovered(d.push(x)[i], c) by {
        if i < d.len() {
            assert(d.push(x)[i] == d[i]);
        } else {
            assert(d.push(x)[i] == seq![x][0]);
        }
    }
}

/// What a complex message's quoted body holds that has no place there is
/// reported (see `part_recovered`).
pub open spec fn body_recovered(b: ComplexMessageBody, ds: Seq<Diagnostic>) -> bool {
    match b {
        ComplexMessageBody::QuotedPattern(q) => parts_recovered(q.pattern.parts@, ds),
        ComplexMessageBody::Matcher(m) => matcher_recovered(m, ds),
    }
}

/// A variant whose keys are all catch-all keys.
pub open spec fn is_fallback(v: Variant) -> bool {
    forall|k: int| 0 <= k < v.keys.len() ==> #[trigger] v.keys[k] is Star
}

/// What each variant's pattern holds that has no place there is reported
/// (see `part_recovered`).
pub open spec fn variants_recovered(vs: Seq<Variant>, ds: Seq<Diagnostic>) -> bool {
    forall|i: int| 0 <= i < vs.len() ==> parts_recovered(#[trigger] vs[i].pattern.pattern.parts@, ds)
}

/// A matcher without a variant whose keys are all catch-all keys is
/// reported, and so is what its variants' patterns hold that has no place
/// there.
pub open spec fn matcher_recovered(m: Matcher, ds: Seq<Diagnostic>) -> bool {
    &&& !(exists|i: int| 0 <= i < m.variants.len() && #[trigger] is_fallback(m.variants[i])) ==> reported_at(
        ds,
        Diagnostic::MatcherMissingFallback { span: m.spec_span() },
    )
    &&& variants_recovered(m.variants@, ds)
}

/// What is reported of variants stays reported.
proof fn lemma_variants_kept(vs: Seq<Variant>, a: Seq<Diagnostic>, b: Seq<Diagnostic>)
    requires
        variants_recovered(vs, a),
        kept(a, b),
    ensures
        variants_recovered(vs, b),
{
    assert forall|i: int| 0 <= i < vs.len() implies parts_recovered(#[trigger] vs[i].pattern.pattern.parts@, b) by {
        lemma_recovered_kept(vs[i].pattern.pattern.parts@, Seq::empty(), 0, 0, a, b);
    }
}

/// What is reported of a complex message's body stays reported.
proof fn lemma_body_kept(b: ComplexMessageBody, a: Seq<Diagnostic>, c: Seq<Diagnostic>)
    requires
        body_recovered(b, a),
        kept(a, c),
    ensures
        body_recovered(b, c),
{
    match b {
        ComplexMessageBody::QuotedPattern(q) => {
            lemma_recovered_kept(q.pattern.parts@, Seq::empty(), 0, 0, a, c);
        },
        ComplexMessageBody::Matcher(m) => {
            lemma_variants_kept(m.variants@, a, c);
            if !(exists|i: int| 0 <= i < m.variants.len() && #[trigger] is_fallback(m.variants[i])) {
                lemma_reported_kept(a, c, Diagnostic::MatcherMissingFallback { span: m.spec_span() });
            }
        },
    }
}

/// What is reported of a markup tag stays reported.
proof fn lemma_markup_kept(m: Markup, a: Seq<Diagnostic>, b: Seq<Diagnostic>)
    requires
        markup_recovered(m, a),
        kept(a, b),
    ensures
        markup_recovered(m, b),
{
    lemma_items_kept(m.attributes@, m.options@, a, b);
    if identifier_empty(m.id) {
        lemma_reported_kept(a, b, Diagnostic::MarkupMissingIdentifier { span: m.span });
    }
}

/// Each part's misplaced characters are reported (see `part_recovered`).
pub open spec fn parts_recovered(parts: Seq<PatternPart>, ds: Seq<Diagnostic>) -> bool {
    forall|i: int| 0 <= i < parts.len() ==> part_recovered(#[trigger] parts[i], ds)
}

/// A reported diagnostic stays reported.
proof fn lemma_reported_kept(a: Seq<Diagnostic>, b: Seq<Diagnostic>, d: Diagnostic)
    requires
        reported_at(a, d),
        kept(a, b),
    ensures
        reported_at(b, d),
{
    let k = choose|k: int| 0 <= k < a.len() && #[trigger] a[k] == d;
    assert(b[k] == a[k]);
}

/// A character reported stays reported.
proof fn lemma_char_kept(c: char, x: int, a: Seq<Diagnostic>, b: Seq<Diagnostic>)
    requires
        char_recovered(c, x, a),
        kept(a, b),
    ensures
        char_recovered(c, x, b),
{
    if c == '}' {
        lemma_reported_kept(a, b, Diagnostic::InvalidClosingBrace { brace_loc: Location(x as u32) });
    }
    if c == '\0' {
        lemma_reported_kept(a, b, Diagnostic::InvalidNullCharacter { char_loc: Location(x as u32) });
    }
}

/// What is reported of the parts and of the current run of text stays
/// reported as more diagnostics are added.
proof fn lemma_recovered_kept(
    parts: Seq<PatternPart>,
    s: Seq<char>,
    x: int,
    y: int,
    a: Seq<Diagnostic>,
    b: Seq<Diagnostic>,
)
    requires
        parts_recovered(parts, a),
        segment_recovered(s, x, y, a),
        kept(a, b),
    ensures
        parts_recovered(parts, b),
        segment_recovered(s, x, y, b),
{
    assert forall|k: int| x <= k < y implies #[trigger] char_recovered(s[k], byte_offset(s, k) as int, b) by {
        lemma_char_kept(s[k], byte_offset(s, k) as int, a, b);
    }
    assert forall|i: int| 0 <= i < parts.len() implies part_recovered(#[trigger] parts[i], b) by {
        match parts[i] {
            PatternPart::Text(t) => {
                assert forall|j: int| 0 <= j < t.content@.len() implies #[trigger] char_recovered(
                    t.content@[j],
                    t.start.byte() + utf8_len(t.content@.take(j)),
                    b,
                ) by {
                    lemma_char_kept(t.content@[j], t.start.byte() + utf8_len(t.content@.take(j)), a, b);
                }
            },
            PatternPart::Escape(e) => {
                if !escapable(e.escaped_char) {
                    lemma_reported_kept(
                        a,
                        b,
                        Diagnostic::EscapeInvalidCharacter { slash_loc: e.start, char: e.escaped_char },
                    );
                }
            },
            PatternPart::Markup(m) => {
                lemma_markup_kept(m, a, b);
            },
            PatternPart::Expression(e) => {
                lemma_expression_kept(e, a, b);
            },
        }
    }
}

/// A text cut from a run of `s` whose misplaced characters are reported
/// has its misplaced characters reported.
proof fn lemma_text_recovered(t: Text, s: Seq<char>, x: int, y: int, ds: Seq<Diagnostic>)
    requires
        0 <= x <= y <= s.len(),
        t.content@ == s.subrange(x, y),
        t.start.byte() == byte_offset(s, x),
        segment_recovered(s, x, y, ds),
    ensures
        part_recovered(PatternPart::Text(t), ds),
{
    assert forall|j: int| 0 <= j < t.content@.len() implies #[trigger] char_recovered(
        t.content@[j],
        t.start.byte() + utf8_len(t.content@.take(j)),
        ds,
    ) by {
        lemma_slice_at(s, x, x + j);
        assert(t.content@.take(j) =~= s.subrange(x, x + j));
        assert(t.content@[j] == s[x + j]);
        assert(char_recovered(s[x + j], byte_offset(s, x + j) as int, ds));
    }
}

/// A part whose misplaced characters are reported, pushed after the others.
proof fn lemma_push_recovered(parts: Seq<PatternPart>, p: PatternPart, ds: Seq<Diagnostic>)
    requires
        parts_recovered(parts, ds),
        part_recovered(p, ds),
    ensures
        parts_recovered(parts.push(p), ds),
{
    let q = parts.push(p);
    assert forall|i: int| 0 <= i < q.len() implies part_recovered(#[trigger] q[i], ds) by {
        if i < parts.len() {
            assert(q[i] == parts[i]);
        }
    }
}

/// A run whose misplaced characters are reported grows by a character that
/// is reported where misplaced.
proof fn lemma_segment_push(s: Seq<char>, x: int, y: int, ds: Seq<Diagnostic>)
    requires
        segment_recovered(s, x, y, ds),
        char_recovered(s[y], byte_offset(s, y) as int, ds),
    ensures
        segment_recovered(s, x, y + 1, ds),
{
    assert forall|k: int| x <= k < y + 1 implies #[trigger] char_recovered(s[k], byte_offset(s, k) as int, ds) by {
        if k < y {
            assert(char_recovered(s[k], byte_offset(s, k) as int, ds));
        }
    }
}

/// Reading attribute `a` from `s` stopped at index `h`: past the spaces
/// after the attribute's end.
pub open spec fn attribute_ends_at(a: Attribute, s: Seq<char>, h: int) -> bool {
    exists|k: int| 0 <= k <= s.len() && #[trigger] byte_offset(s, k) == a.span.end.byte() && h == spaces_end(s, k)
}

/// The attributes were read one after the other from index `h0` of `s`:
/// each starts at a `@` where the one before stopped (or at `h0`), and stops
/// at the index in `ends` (see `attribute_ends_at`).
pub open spec fn attribute_placed_at(attrs: Seq<Attribute>, s: Seq<char>, h0: int, ends: Seq<int>, i: int) -> bool {
    let h = option_prev(ends, h0, i);
    &&& 0 <= h < s.len()
    &&& s[h] == '@'
    &&& attrs[i].span.start.byte() == byte_offset(s, h)
    &&& h < ends[i] <= s.len()
    &&& attribute_ends_at(attrs[i], s, ends[i])
}

/// The attributes are all those read from index `h0` of `s`: each follows
/// where the one before stopped, and no `@` stands where the last stopped.
pub open spec fn attributes_from(attrs: Seq<Attribute>, s: Seq<char>, h0: int) -> bool {
    exists|ends: Seq<int>| {
        &&& #[trigger] ends.len() == attrs.len()
        &&& forall|i: int| 0 <= i < attrs.len() ==> #[trigger] attribute_placed_at(attrs, s, h0, ends, i)
        &&& !(0 <= option_prev(ends, h0, attrs.len() as int) < s.len() && s[option_prev(
            ends,
            h0,
            attrs.len() as int,
        )] == '@')
    }
}

/// Reading function `f` from `s` stopped at index `h`: past the spaces after
/// its last option (or its name), where no option follows.
pub open spec fn function_ends_at(f: Function, s: Seq<char>, h: int) -> bool {
    exists|e0: int, ends: Seq<int>|
        0 <= e0 <= s.len() && #[trigger] byte_offset(s, e0) == f.id.spec_span().end.byte() && #[trigger] options_placed(
            f.options@,
            s,
            e0,
            ends,
        ) && h == spaces_end(s, option_prev(ends, e0, f.options.len() as int))
}

/// Where the attributes of an expression read from index `p` of `s` begin:
/// where its function stopped, or past the spaces after its operand, or at
/// `p` when it has neither.
pub open spec fn attributes_anchor(r: Expression, s: Seq<char>, p: int, h0: int) -> bool {
    match expression_annotation(r) {
        Some(Annotation::Function(f)) => function_ends_at(f, s, h0),
        None => if p < s.len() && literal_or_variable_start(s[p]) {
            exists|k: int| 0 <= k <= s.len() && #[trigger] byte_offset(s, k) == operand_end(r) && h0 == spaces_end(s, k)
        } else {
            h0 == p
        },
    }
}

/// The attributes of an expression read from index `p` of `s` are all those
/// that follow its operand and function (see `attributes_from`).
pub open spec fn expression_attributes_read(r: Expression, s: Seq<char>, p: int) -> bool {
    exists|h0: int| #[trigger] attributes_anchor(r, s, p, h0) && attributes_from(expression_attributes(r), s, h0)
}

/// The attributes placed so far (see `attribute_placed_at`).
pub open spec fn attributes_placed(attrs: Seq<Attribute>, s: Seq<char>, h0: int, ends: Seq<int>) -> bool {
    &&& ends.len() == attrs.len()
    &&& forall|i: int| 0 <= i < attrs.len() ==> #[trigger] attribute_placed_at(attrs, s, h0, ends, i)
}

/// An attribute read where the others stopped keeps them placed.
proof fn lemma_push_attribute(attrs: Seq<Attribute>, a: Attribute, s: Seq<char>, h0: int, ends: Seq<int>, e: int)
    requires
        attributes_placed(attrs, s, h0, ends),
        0 <= option_prev(ends, h0, attrs.len() as int) < s.len(),
        s[option_prev(ends, h0, attrs.len() as int)] == '@',
        a.span.start.byte() == byte_offset(s, option_prev(ends, h0, attrs.len() as int)),
        option_prev(ends, h0, attrs.len() as int) < e <= s.len(),
        attribute_ends_at(a, s, e),
    ensures
        attributes_placed(attrs.push(a), s, h0, ends.push(e)),
{
    let q = attrs.push(a);
    let qe = ends.push(e);
    assert forall|i: int| 0 <= i < q.len() implies #[trigger] attribute_placed_at(q, s, h0, qe, i) by {
        assert(option_prev(qe, h0, i) == option_prev(ends, h0, i));
        if i < attrs.len() {
            assert(attribute_placed_at(attrs, s, h0, ends, i));
            assert(q[i] == attrs[i]);
            assert(qe[i] == ends[i]);
        }
    }
}

/// Reading an annotation, if any, from `s` stopped at index `h` (see
/// `function_ends_at`).
pub open spec fn annotation_ends_at(a: Option<Annotation>, s: Seq<char>, h: int) -> bool {
    match a {
        Some(Annotation::Function(f)) => function_ends_at(f, s, h),
        None => true,
    }
}

/// Where reading an escape at the backslash at index `i` of `s` stops: past
/// the escaped character, or at the end of the text.
pub open spec fn escape_next(s: Seq<char>, i: int) -> int {
    if i + 1 < s.len() {
        i + 2
    } else {
        i + 1
    }
}

/// Where reading the inside of a quoted literal from index `i` of `s` stops:
/// just past the closing `|`, or at the end of the text; escapes are read
/// whole.
pub open spec fn quoted_scan(s: Seq<char>, i: int) -> int
    decreases s.len() - i,
{
    if i < 0 || i >= s.len() {
        s.len() as int
    } else if s[i] == '\\' {
        quoted_scan(s, escape_next(s, i))
    } else if s[i] == '|' {
        i + 1
    } else {
        quoted_scan(s, i + 1)
    }
}

/// Where skipping what cannot stand in a markup tag, from index `i` of `s`,
/// stops, and whether spaces came last (`ls` tells whether they did before
/// index `i`): at a `}`, `/` or `@`, at the start of an option after spaces,
/// or at the end of the text; escapes and quoted literals are skipped whole.
pub open spec fn invalid_scan(s: Seq<char>, i: int, ls: bool) -> (int, bool)
    decreases s.len() - i,
{
    if i < 0 || i >= s.len() {
        (s.len() as int, ls)
    } else if s[i] == '}' || s[i] == '/' || s[i] == '@' {
        (i, ls)
    } else if s[i] == '\\' {
        invalid_scan(s, escape_next(s, i), false)
    } else if s[i] == '|' {
        proof {
            lemma_quoted_scan_ge(s, i + 1);
        }
        invalid_scan(s, quoted_scan(s, i + 1), false)
    } else if space_char(s[i]) {
        invalid_scan(s, i + 1, true)
    } else if option_start(s[i]) && ls {
        (i, true)
    } else {
        invalid_scan(s, i + 1, false)
    }
}

/// Reading a quoted literal goes forward.
pub proof fn lemma_quoted_scan_ge(s: Seq<char>, i: int)
    ensures
        0 <= i <= s.len() ==> i <= quoted_scan(s, i) <= s.len(),
        0 <= i < s.len() ==> quoted_scan(s, i) > i,
    decreases s.len() - i,
{
    if 0 <= i < s.len() {
        if s[i] == '\\' {
            lemma_quoted_scan_ge(s, escape_next(s, i));
        } else if s[i] != '|' {
            lemma_quoted_scan_ge(s, i + 1);
        }
    }
}

/// How many of `kinds` are `k`.
pub open spec fn kind_count(kinds: Seq<int>, k: int) -> int
    decreases kinds.len(),
{
    if kinds.len() == 0 {
        0
    } else {
        kind_count(kinds.drop_last(), k) + if kinds.last() == k {
            1int
        } else {
            0int
        }
    }
}

/// Reading an attribute stopped at index `h` of `s`, past the spaces after
/// its end; `sp` tells whether there were any.
pub open spec fn attribute_stop(a: Attribute, s: Seq<char>, h: int, sp: bool) -> bool {
    exists|k: int|
        0 <= k <= s.len() && #[trigger] byte_offset(s, k) == a.span.end.byte() && h == spaces_end(s, k) && sp
            == (h > k)
}

/// Reading an option stopped at index `h` of `s`, past the spaces after its
/// end; `sp` tells whether there were any.
pub open spec fn option_stop(o: FnOrMarkupOption, s: Seq<char>, h: int, sp: bool) -> bool {
    exists|k: int|
        0 <= k <= s.len() && #[trigger] byte_offset(s, k) == o.spec_span().end.byte() && h == spaces_end(s, k)
            && sp == (h > k)
}

/// A `/` at index `h` of `s` closes a markup tag: past spaces, a closing
/// brace or the end of the text follows.
pub open spec fn self_closing_slash(s: Seq<char>, h: int) -> bool {
    let q = spaces_end(s, h + 1);
    0 <= h < s.len() && s[h] == '/' && (q >= s.len() || s[q] == '}')
}

/// Item `i` of a markup tag, read at index `heads[i]` of `s` with `sps[i]`
/// telling whether spaces came before it, is of kind `kinds[i]`: an
/// attribute at a `@` (0), an option where one starts after spaces (1), or
/// what cannot stand there, skipped (2); each attribute and option is the
/// next of its list, and the item stops where the next one starts.
pub open spec fn markup_item_ok(
    attrs: Seq<Attribute>,
    opts: Seq<FnOrMarkupOption>,
    s: Seq<char>,
    kinds: Seq<int>,
    heads: Seq<int>,
    sps: Seq<bool>,
    i: int,
) -> bool {
    let h = heads[i];
    let nh = heads[i + 1];
    let j = kind_count(kinds.take(i), kinds[i]);
    &&& 0 <= h < s.len()
    &&& kinds[i] == 0 ==> {
        &&& s[h] == '@'
        &&& 0 <= j < attrs.len()
        &&& attrs[j].span.start.byte() == byte_offset(s, h)
        &&& attribute_stop(attrs[j], s, nh, sps[i + 1])
    }
    &&& kinds[i] == 1 ==> {
        &&& sps[i]
        &&& option_start(s[h])
        &&& 0 <= j < opts.len()
        &&& opts[j].spec_span().start.byte() == byte_offset(s, h)
        &&& option_stop(opts[j], s, nh, sps[i + 1])
    }
    &&& kinds[i] == 2 ==> {
        &&& s[h] != '@' && s[h] != '}' && !(sps[i] && option_start(s[h]))
        &&& s[h] == '/' ==> !self_closing_slash(s, h) && (nh, sps[i + 1]) == invalid_scan(
            s,
            spaces_end(s, h + 1),
            false,
        )
        &&& s[h] != '/' ==> (nh, sps[i + 1]) == invalid_scan(s, h, false)
    }
    &&& 0 <= kinds[i] <= 2
}

/// The items read so far from index `heads[0]`, with the lists they filled.
pub open spec fn markup_items_placed(
    attrs: Seq<Attribute>,
    opts: Seq<FnOrMarkupOption>,
    s: Seq<char>,
    kinds: Seq<int>,
    heads: Seq<int>,
    sps: Seq<bool>,
) -> bool {
    &&& heads.len() == kinds.len() + 1
    &&& sps.len() == kinds.len() + 1
    &&& attrs.len() == kind_count(kinds, 0)
    &&& opts.len() == kind_count(kinds, 1)
    &&& forall|i: int| 0 <= i < kinds.len() ==> #[trigger] markup_item_ok(attrs, opts, s, kinds, heads, sps, i)
}

/// Where a markup tag's items stop: at a closing brace, at a `/` that closes
/// it, or at the end of the text.
pub open spec fn markup_stop(s: Seq<char>, h: int) -> bool {
    h >= s.len() || (0 <= h < s.len() && s[h] == '}') || self_closing_slash(s, h)
}

/// The options and attributes of a markup tag are all those read after its
/// identifier: its items, from where spaces after the identifier end (with
/// `sp0` telling whether there were any) to where the tag stops, are
/// attributes, options, or what cannot stand there, and the lists hold
/// exactly the attributes and options among them, in order.
pub open spec fn markup_items_read(m: Markup, s: Seq<char>) -> bool {
    exists|k: int, kinds: Seq<int>, heads: Seq<int>, sps: Seq<bool>|
        0 <= k <= s.len() && #[trigger] byte_offset(s, k) == m.id.spec_span().end.byte() && heads[0] == spaces_end(s, k)
            && sps[0] == (heads[0] > k) && #[trigger] markup_items_placed(
            m.attributes@,
            m.options@,
            s,
            kinds,
            heads,
            sps,
        ) && markup_stop(s, heads[kinds.len() as int])
}

/// The count of a kind over kinds with one more.
proof fn lemma_kind_count_push(kinds: Seq<int>, x: int, k: int)
    ensures
        kind_count(kinds.push(x), k) == kind_count(kinds, k) + if x == k {
            1int
        } else {
            0int
        },
{
    assert(kinds.push(x).drop_last() =~= kinds);
}

/// One more item keeps the items placed.
proof fn lemma_push_item(
    attrs: Seq<Attribute>,
    opts: Seq<FnOrMarkupOption>,
    attrs2: Seq<Attribute>,
    opts2: Seq<FnOrMarkupOption>,
    s: Seq<char>,
    kinds: Seq<int>,
    heads: Seq<int>,
    sps: Seq<bool>,
    kind: int,
    nh: int,
    nsp: bool,
)
    requires
        markup_items_placed(attrs, opts, s, kinds, heads, sps),
        attrs.len() <= attrs2.len(),
        opts.len() <= opts2.len(),
        forall|j: int| 0 <= j < attrs.len() ==> attrs2[j] == attrs[j],
        forall|j: int| 0 <= j < opts.len() ==> opts2[j] == opts[j],
        attrs2.len() == kind_count(kinds.push(kind), 0),
        opts2.len() == kind_count(kinds.push(kind), 1),
        markup_item_ok(
            attrs2,
            opts2,
            s,
            kinds.push(kind),
            heads.push(nh),
            sps.push(nsp),
            kinds.len() as int,
        ),
    ensures
        markup_items_placed(attrs2, opts2, s, kinds.push(kind), heads.push(nh), sps.push(nsp)),
{
    let k2 = kinds.push(kind);
    let h2 = heads.push(nh);
    let s2 = sps.push(nsp);
    assert forall|i: int| 0 <= i < k2.len() implies #[trigger] markup_item_ok(attrs2, opts2, s, k2, h2, s2, i) by {
        if i < kinds.len() {
            assert(markup_item_ok(attrs, opts, s, kinds, heads, sps, i));
            assert(k2.take(i) =~= kinds.take(i));
            assert(k2[i] == kinds[i]);
            assert(h2[i] == heads[i]);
            assert(h2[i + 1] == heads[i + 1]);
            assert(s2[i] == sps[i]);
            assert(s2[i + 1] == sps[i + 1]);
        }
    }
}

} // verus!
