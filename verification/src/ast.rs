//! The syntax tree of a MessageFormat 2 message. Every node records where it
//! stands in the source text.
use vstd::prelude::*;

use crate::lines::is_boundary;
use crate::strings::byte_offset;
use crate::strings::lemma_byte_offset_end;
use crate::strings::lemma_byte_offset_mono;
use crate::strings::lemma_str_len;
use crate::strings::lemma_subrange_len;
use crate::strings::utf8_len;
use crate::strings::utf8_width;
use crate::text::LengthShort;
use crate::text::Location;
use crate::text::Span;
use crate::text::Spanned;

verus! {

/// `content` is the part of `s` that starts at byte offset `start`.
pub open spec fn slice_at(s: Seq<char>, start: int, content: Seq<char>) -> bool {
    exists|i: int, j: int|
        0 <= i <= j <= s.len() && byte_offset(s, i) == start && #[trigger] s.subrange(i, j)
            == content
}

/// `span` runs from a character boundary of `s` to a later or equal one.
pub open spec fn span_in(s: Seq<char>, span: Span) -> bool {
    &&& is_boundary(s, span.start.byte())
    &&& is_boundary(s, span.end.byte())
    &&& span.start.byte() <= span.end.byte()
}

/// `b` is a character boundary of `s` that leaves room for `extra` more bytes
/// before the end of `s`.
pub open spec fn boundary_with_room(s: Seq<char>, b: int, extra: int) -> bool {
    is_boundary(s, b) && b + extra <= utf8_len(s)
}

/// Whether a text of this length fits in the locations of a source text.
pub open spec fn source_fits(s: Seq<char>) -> bool {
    utf8_len(s) <= u32::MAX
}

/// A part of `s` placed at its location ends at a boundary of `s`.
pub proof fn lemma_slice_at_end(s: Seq<char>, start: int, content: Seq<char>)
    requires
        slice_at(s, start, content),
    ensures
        start + utf8_len(content) <= utf8_len(s),
        is_boundary(s, start),
        is_boundary(s, start + utf8_len(content)),
{
    let (i, j) = choose|i: int, j: int|
        0 <= i <= j <= s.len() && byte_offset(s, i) == start && #[trigger] s.subrange(i, j)
            == content;
    lemma_subrange_len(s, i, j);
    lemma_byte_offset_mono(s, j, s.len() as int);
    lemma_byte_offset_end(s);
    assert(byte_offset(s, j) == start + utf8_len(content));
}

#[derive(Debug)]
pub enum Message<'text> {
    Simple(Pattern<'text>),
    Complex(ComplexMessage<'text>),
}

impl<'text> Message<'text> {
    pub open spec fn wf(&self, s: Seq<char>) -> bool {
        match self {
            Message::Simple(p) => p.wf(s) && p.fits(),
            Message::Complex(c) => c.wf(s),
        }
    }
}

impl<'text> Spanned for Message<'text> {
    open spec fn fits(&self) -> bool {
        match self {
            Message::Simple(p) => p.fits(),
            Message::Complex(c) => c.fits(),
        }
    }

    open spec fn spec_span(&self) -> Span {
        match self {
            Message::Simple(p) => p.spec_span(),
            Message::Complex(c) => c.spec_span(),
        }
    }

    fn span(&self) -> Span {
        match self {
            Message::Simple(p) => p.span(),
            Message::Complex(c) => c.span(),
        }
    }
}

#[derive(Debug)]
pub struct Pattern<'text> {
    pub parts: Vec<PatternPart<'text>>,
}

impl<'text> Pattern<'text> {
    pub open spec fn wf(&self, s: Seq<char>) -> bool {
        &&& forall|i: int| 0 <= i < self.parts.len() ==> #[trigger] self.parts[i].wf(s)
        &&& span_in(s, self.spec_span())
        &&& parts_ordered(self.parts@)
    }
}

/// Each part ends before the next one starts.
pub open spec fn parts_ordered(parts: Seq<PatternPart>) -> bool {
    forall|i: int, j: int|
        0 <= i < j < parts.len() ==> #[trigger] parts[i].spec_span().end.byte()
            <= #[trigger] parts[j].spec_span().start.byte()
}

impl<'text> Spanned for Pattern<'text> {
    open spec fn fits(&self) -> bool {
        forall|i: int| 0 <= i < self.parts.len() ==> #[trigger] self.parts[i].fits()
    }

    open spec fn spec_span(&self) -> Span {
        let n = self.parts.len();
        if n == 0 {
            Span { start: Location(0), end: Location(0) }
        } else {
            Span { start: self.parts[0].spec_span().start, end: self.parts[n - 1].spec_span().end }
        }
    }

    /// From the start of the first part to the end of the last part; an empty
    /// pattern has an empty span at the start of the text.
    fn span(&self) -> Span {
        let n = self.parts.len();
        if n == 0 {
            return Span { start: Location::dummy(), end: Location::dummy() };
        }
        let start = self.parts[0].span().start;
        let end = self.parts[n - 1].span().end;
        Span { start, end }
    }
}

#[derive(Debug)]
pub enum PatternPart<'text> {
    Text(Text<'text>),
    Escape(Escape),
    Expression(Expression<'text>),
    Markup(Markup<'text>),
}

impl<'text> PatternPart<'text> {
    pub open spec fn wf(&self, s: Seq<char>) -> bool {
        match self {
            PatternPart::Text(t) => t.wf(s),
            PatternPart::Escape(e) => e.wf(s),
            PatternPart::Expression(e) => e.wf(s),
            PatternPart::Markup(m) => m.wf(s),
        }
    }
}

impl<'text> Spanned for PatternPart<'text> {
    open spec fn fits(&self) -> bool {
        match self {
            PatternPart::Text(t) => t.fits(),
            PatternPart::Escape(e) => e.fits(),
            PatternPart::Expression(e) => e.fits(),
            PatternPart::Markup(m) => m.fits(),
        }
    }

    open spec fn spec_span(&self) -> Span {
        match self {
            PatternPart::Text(t) => t.spec_span(),
            PatternPart::Escape(e) => e.spec_span(),
            PatternPart::Expression(e) => e.spec_span(),
            PatternPart::Markup(m) => m.spec_span(),
        }
    }

    fn span(&self) -> Span {
        match self {
            PatternPart::Text(t) => t.span(),
            PatternPart::Escape(e) => e.span(),
            PatternPart::Expression(e) => e.span(),
            PatternPart::Markup(m) => m.span(),
        }
    }
}

#[derive(Debug, Clone, Copy)]
pub struct Text<'text> {
    pub start: Location,
    pub content: &'text str,
}

impl<'text> Text<'text> {
    /// The text is the part of `s` at its location.
    pub open spec fn wf(&self, s: Seq<char>) -> bool {
        slice_at(s, self.start.byte(), self.content@) && source_fits(s)
    }
}

impl<'text> Spanned for Text<'text> {
    open spec fn fits(&self) -> bool {
        self.start.byte() + utf8_len(self.content@) <= u32::MAX
    }

    open spec fn spec_span(&self) -> Span {
        Span {
            start: self.start,
            end: Location((self.start.0 + utf8_len(self.content@)) as u32),
        }
    }

    fn span(&self) -> Span {
        Span { start: self.start, end: self.start.add_str(self.content) }
    }
}

#[derive(Debug, Clone, Copy)]
pub struct Escape {
    pub start: Location,
    pub escaped_char: char,
}

impl Escape {
    /// A backslash at the escape's location, followed by the escaped character.
    pub open spec fn wf(&self, s: Seq<char>) -> bool {
        &&& source_fits(s)
        &&& self.fits()
        &&& exists|i: int|
            0 <= i && i + 1 < s.len() && #[trigger] byte_offset(s, i) == self.start.byte() && s[i]
                == '\\' && s[i + 1] == self.escaped_char
    }
}

impl Spanned for Escape {
    open spec fn fits(&self) -> bool {
        self.start.byte() + 1 + utf8_width(self.escaped_char) <= u32::MAX
    }

    open spec fn spec_span(&self) -> Span {
        Span {
            start: self.start,
            end: Location((self.start.0 + 1 + utf8_width(self.escaped_char)) as u32),
        }
    }

    fn span(&self) -> Span {
        Span { start: self.start, end: self.start.add_char('\\').add_char(self.escaped_char) }
    }
}

#[derive(Debug)]
pub enum Expression<'text> {
    LiteralExpression(LiteralExpression<'text>),
    VariableExpression(VariableExpression<'text>),
    AnnotationExpression(AnnotationExpression<'text>),
}

impl<'text> Expression<'text> {
    pub open spec fn wf(&self, s: Seq<char>) -> bool {
        match self {
            Expression::LiteralExpression(e) => e.wf(s),
            Expression::VariableExpression(e) => e.wf(s),
            Expression::AnnotationExpression(e) => e.wf(s),
        }
    }

    /// The span that the expression records.
    pub open spec fn stored_span(&self) -> Span {
        match self {
            Expression::LiteralExpression(e) => e.span,
            Expression::VariableExpression(e) => e.span,
            Expression::AnnotationExpression(e) => e.span,
        }
    }
}

impl<'text> Spanned for Expression<'text> {
    open spec fn fits(&self) -> bool {
        true
    }

    open spec fn spec_span(&self) -> Span {
        self.stored_span()
    }

    fn span(&self) -> (r: Span)
        ensures
            r == self.stored_span(),
    {
        match self {
            Expression::LiteralExpression(e) => e.span,
            Expression::VariableExpression(e) => e.span,
            Expression::AnnotationExpression(e) => e.span,
        }
    }
}

pub open spec fn attributes_wf(attributes: Seq<Attribute>, s: Seq<char>) -> bool {
    forall|i: int| 0 <= i < attributes.len() ==> #[trigger] attributes[i].wf(s)
}

pub open spec fn annotation_wf(annotation: Option<Annotation>, s: Seq<char>) -> bool {
    match annotation {
        Some(a) => a.wf(s),
        None => true,
    }
}

#[derive(Debug)]
pub struct LiteralExpression<'text> {
    pub span: Span,
    pub literal: Literal<'text>,
    pub annotation: Option<Annotation<'text>>,
    pub attributes: Vec<Attribute<'text>>,
    pub has_closing_brace: bool,
}

impl<'text> LiteralExpression<'text> {
    pub open spec fn wf(&self, s: Seq<char>) -> bool {
        &&& span_in(s, self.span)
        &&& self.literal.wf(s)
        &&& annotation_wf(self.annotation, s)
        &&& attributes_wf(self.attributes@, s)
    }
}

impl<'text> Spanned for LiteralExpression<'text> {
    /// The span is held as it is; the literal's own span fits too.
    open spec fn fits(&self) -> bool {
        self.literal.fits()
    }

    open spec fn spec_span(&self) -> Span {
        self.span
    }

    fn span(&self) -> Span {
        self.span
    }
}

#[derive(Debug)]
pub struct VariableExpression<'text> {
    pub span: Span,
    pub variable: Variable<'text>,
    pub annotation: Option<Annotation<'text>>,
    pub attributes: Vec<Attribute<'text>>,
    pub has_closing_brace: bool,
}

impl<'text> VariableExpression<'text> {
    pub open spec fn wf(&self, s: Seq<char>) -> bool {
        &&& span_in(s, self.span)
        &&& self.variable.wf(s)
        &&& annotation_wf(self.annotation, s)
        &&& attributes_wf(self.attributes@, s)
    }
}

impl<'text> Spanned for VariableExpression<'text> {
    open spec fn fits(&self) -> bool {
        true
    }

    open spec fn spec_span(&self) -> Span {
        self.span
    }

    fn span(&self) -> Span {
        self.span
    }
}

#[derive(Debug, Clone, Copy)]
pub struct Variable<'text> {
    pub span: Span,
    pub name: &'text str,
}

impl<'text> Variable<'text> {
    /// The name is the part of `s` that ends where the variable ends.
    pub open spec fn wf(&self, s: Seq<char>) -> bool {
        &&& span_in(s, self.span)
        &&& slice_at(s, self.span.end.byte() - utf8_len(self.name@), self.name@)
    }
}

impl<'text> Spanned for Variable<'text> {
    open spec fn fits(&self) -> bool {
        true
    }

    open spec fn spec_span(&self) -> Span {
        self.span
    }

    fn span(&self) -> Span {
        self.span
    }
}

#[derive(Debug)]
pub struct AnnotationExpression<'text> {
    pub span: Span,
    pub annotation: Annotation<'text>,
    pub attributes: Vec<Attribute<'text>>,
    pub has_closing_brace: bool,
}

impl<'text> AnnotationExpression<'text> {
    pub open spec fn wf(&self, s: Seq<char>) -> bool {
        &&& span_in(s, self.span)
        &&& self.annotation.wf(s)
        &&& attributes_wf(self.attributes@, s)
    }
}

impl<'text> Spanned for AnnotationExpression<'text> {
    open spec fn fits(&self) -> bool {
        true
    }

    open spec fn spec_span(&self) -> Span {
        self.span
    }

    fn span(&self) -> Span {
        self.span
    }
}

#[derive(Debug)]
pub enum Annotation<'text> {
    Function(Function<'text>),
}

impl<'text> Annotation<'text> {
    pub open spec fn wf(&self, s: Seq<char>) -> bool {
        match self {
            Annotation::Function(f) => f.wf(s),
        }
    }
}

impl<'text> Spanned for Annotation<'text> {
    open spec fn fits(&self) -> bool {
        match self {
            Annotation::Function(f) => f.fits(),
        }
    }

    open spec fn spec_span(&self) -> Span {
        match self {
            Annotation::Function(f) => f.spec_span(),
        }
    }

    fn span(&self) -> Span {
        match self {
            Annotation::Function(f) => f.span(),
        }
    }
}

#[derive(Debug, Clone, Copy)]
pub struct Identifier<'text> {
    pub start: Location,
    pub namespace: Option<&'text str>,
    pub name: &'text str,
}

impl<'text> Identifier<'text> {
    /// Byte length of the identifier.
    pub open spec fn len(&self) -> int {
        match self.namespace {
            Some(ns) => (utf8_len(ns@) + 1 + utf8_len(self.name@)) as int,
            None => utf8_len(self.name@) as int,
        }
    }

    /// The namespace, a colon and the name (or the name alone) are the part
    /// of `s` at the identifier's location.
    pub open spec fn wf(&self, s: Seq<char>) -> bool {
        &&& source_fits(s)
        &&& match self.namespace {
            Some(ns) => slice_at(s, self.start.byte(), ns@ + seq![':'] + self.name@),
            None => slice_at(s, self.start.byte(), self.name@),
        }
    }
}

impl<'text> Spanned for Identifier<'text> {
    open spec fn fits(&self) -> bool {
        self.start.byte() + self.len() <= u32::MAX
    }

    open spec fn spec_span(&self) -> Span {
        Span { start: self.start, end: Location((self.start.0 + self.len()) as u32) }
    }

    fn span(&self) -> (r: Span)
        ensures
            r.start == self.start,
            r.end.byte() == self.start.byte() + self.len(),
    {
        let mut end = self.start;
        if let Some(namespace) = self.namespace {
            end = end.add_str(namespace).add_char(':');
        }
        end = end.add_str(self.name);
        Span { start: self.start, end }
    }
}

pub open spec fn options_wf(options: Seq<FnOrMarkupOption>, s: Seq<char>) -> bool {
    forall|i: int| 0 <= i < options.len() ==> #[trigger] options[i].wf(s)
}

pub open spec fn options_fit(options: Seq<FnOrMarkupOption>) -> bool {
    forall|i: int| 0 <= i < options.len() ==> #[trigger] options[i].fits()
}

#[derive(Debug)]
pub struct Function<'text> {
    pub start: Location,
    pub id: Identifier<'text>,
    pub options: Vec<FnOrMarkupOption<'text>>,
}

impl<'text> Function<'text> {
    pub open spec fn wf(&self, s: Seq<char>) -> bool {
        &&& is_boundary(s, self.start.byte())
        &&& self.id.wf(s)
        &&& self.id.fits()
        &&& options_wf(self.options@, s)
        &&& options_fit(self.options@)
        &&& span_in(s, self.spec_span())
    }
}

impl<'text> Spanned for Function<'text> {
    open spec fn fits(&self) -> bool {
        self.id.fits() && options_fit(self.options@)
    }

    open spec fn spec_span(&self) -> Span {
        let n = self.options.len();
        Span {
            start: self.start,
            end: if n == 0 {
                self.id.spec_span().end
            } else {
                self.options[n - 1].spec_span().end
            },
        }
    }

    /// From the sigil to the end of the last option, or of the identifier.
    fn span(&self) -> Span {
        let n = self.options.len();
        let end = if n == 0 {
            self.id.span().end
        } else {
            self.options[n - 1].span().end
        };
        Span { start: self.start, end }
    }
}

#[derive(Debug)]
pub struct FnOrMarkupOption<'text> {
    pub key: Identifier<'text>,
    pub value: LiteralOrVariable<'text>,
}

impl<'text> FnOrMarkupOption<'text> {
    pub open spec fn wf(&self, s: Seq<char>) -> bool {
        &&& self.key.wf(s)
        &&& self.value.wf(s)
        &&& self.fits()
        &&& span_in(s, self.spec_span())
    }
}

impl<'text> Spanned for FnOrMarkupOption<'text> {
    open spec fn fits(&self) -> bool {
        self.key.fits() && self.value.fits()
    }

    open spec fn spec_span(&self) -> Span {
        Span { start: self.key.spec_span().start, end: self.value.spec_span().end }
    }

    /// From the start of the key to the end of the value.
    fn span(&self) -> Span {
        let start = self.key.span().start;
        let end = self.value.span().end;
        Span { start, end }
    }
}

#[derive(Debug)]
pub struct Attribute<'text> {
    pub span: Span,
    pub key: Identifier<'text>,
    pub value: Option<Literal<'text>>,
}

impl<'text> Attribute<'text> {
    pub open spec fn wf(&self, s: Seq<char>) -> bool {
        &&& span_in(s, self.span)
        &&& self.key.wf(s)
        &&& self.key.fits()
        &&& match self.value {
            Some(v) => v.wf(s) && v.fits(),
            None => true,
        }
    }
}

impl<'text> Spanned for Attribute<'text> {
    open spec fn fits(&self) -> bool {
        true
    }

    open spec fn spec_span(&self) -> Span {
        self.span
    }

    fn span(&self) -> Span {
        self.span
    }
}

#[derive(Debug)]
pub enum LiteralOrVariable<'text> {
    Literal(Literal<'text>),
    Variable(Variable<'text>),
}

impl<'text> LiteralOrVariable<'text> {
    pub open spec fn wf(&self, s: Seq<char>) -> bool {
        match self {
            LiteralOrVariable::Literal(l) => l.wf(s),
            LiteralOrVariable::Variable(v) => v.wf(s),
        }
    }
}

impl<'text> Spanned for LiteralOrVariable<'text> {
    open spec fn fits(&self) -> bool {
        match self {
            LiteralOrVariable::Literal(l) => l.fits(),
            LiteralOrVariable::Variable(v) => v.fits(),
        }
    }

    open spec fn spec_span(&self) -> Span {
        match self {
            LiteralOrVariable::Literal(l) => l.spec_span(),
            LiteralOrVariable::Variable(v) => v.spec_span(),
        }
    }

    fn span(&self) -> Span {
        match self {
            LiteralOrVariable::Literal(l) => l.span(),
            LiteralOrVariable::Variable(v) => v.span(),
        }
    }
}

#[derive(Debug)]
pub enum Literal<'text> {
    Quoted(Quoted<'text>),
    Text(Text<'text>),
    Number(Number<'text>),
}

impl<'text> Literal<'text> {
    pub open spec fn wf(&self, s: Seq<char>) -> bool {
        match self {
            Literal::Quoted(q) => q.wf(s),
            Literal::Text(t) => t.wf(s) && t.fits(),
            Literal::Number(n) => n.wf(s),
        }
    }
}

impl<'text> Spanned for Literal<'text> {
    open spec fn fits(&self) -> bool {
        match self {
            Literal::Quoted(q) => q.fits(),
            Literal::Text(t) => t.fits(),
            Literal::Number(n) => n.fits(),
        }
    }

    open spec fn spec_span(&self) -> Span {
        match self {
            Literal::Quoted(q) => q.spec_span(),
            Literal::Text(t) => t.spec_span(),
            Literal::Number(n) => n.spec_span(),
        }
    }

    fn span(&self) -> Span {
        match self {
            Literal::Quoted(q) => q.span(),
            Literal::Text(t) => t.span(),
            Literal::Number(n) => n.span(),
        }
    }
}

#[derive(Debug)]
pub struct Quoted<'text> {
    pub span: Span,
    pub parts: Vec<QuotedPart<'text>>,
}

impl<'text> Quoted<'text> {
    pub open spec fn wf(&self, s: Seq<char>) -> bool {
        &&& span_in(s, self.span)
        &&& forall|i: int| 0 <= i < self.parts.len() ==> #[trigger] self.parts[i].wf(s)
        &&& self.fits()
    }
}

impl<'text> Spanned for Quoted<'text> {
    open spec fn fits(&self) -> bool {
        forall|i: int| 0 <= i < self.parts.len() ==> #[trigger] self.parts[i].fits()
    }

    open spec fn spec_span(&self) -> Span {
        self.span
    }

    fn span(&self) -> Span {
        self.span
    }
}

#[derive(Debug, Clone, Copy)]
pub enum QuotedPart<'text> {
    Text(Text<'text>),
    Escape(Escape),
}

impl<'text> QuotedPart<'text> {
    pub open spec fn wf(&self, s: Seq<char>) -> bool {
        match self {
            QuotedPart::Text(t) => t.wf(s) && t.fits(),
            QuotedPart::Escape(e) => e.wf(s) && e.fits(),
        }
    }
}

impl<'text> Spanned for QuotedPart<'text> {
    open spec fn fits(&self) -> bool {
        match self {
            QuotedPart::Text(t) => t.fits(),
            QuotedPart::Escape(e) => e.fits(),
        }
    }

    open spec fn spec_span(&self) -> Span {
        match self {
            QuotedPart::Text(t) => t.spec_span(),
            QuotedPart::Escape(e) => e.spec_span(),
        }
    }

    fn span(&self) -> Span {
        match self {
            QuotedPart::Text(t) => t.span(),
            QuotedPart::Escape(e) => e.span(),
        }
    }
}

#[derive(Debug, Clone, Copy, PartialEq, Eq, Structural)]
pub enum ExponentSign {
    Plus,
    Minus,
    Unsigned,
}

#[derive(Debug, Clone, Copy)]
pub struct Number<'text> {
    pub start: Location,
    pub raw: &'text str,
    pub is_negative: bool,
    pub integral_len: LengthShort,
    pub fractional_len: Option<LengthShort>,
    pub exponent_len: Option<(ExponentSign, LengthShort)>,
}

impl<'text> Number<'text> {
    /// Byte length of the parts that the lengths describe, with their
    /// separators.
    pub open spec fn parts_len(&self) -> int {
        (if self.is_negative { 1int } else { 0int }) + self.integral_len.0 + match self.fractional_len {
            Some(f) => 1 + f.0,
            None => 0,
        } + match self.exponent_len {
            Some((sign, e)) => 1 + (if sign == ExponentSign::Unsigned { 0int } else { 1int }) + e.0,
            None => 0,
        }
    }

    /// The raw text is the ASCII part of `s` at the number's location, and
    /// the lengths of its parts stay within it.
    pub open spec fn wf(&self, s: Seq<char>) -> bool {
        &&& source_fits(s)
        &&& slice_at(s, self.start.byte(), self.raw@)
        &&& forall|i: int| 0 <= i < self.raw@.len() ==> (#[trigger] self.raw@[i] as u32) < 0x80
        &&& self.parts_len() <= self.raw@.len()
        &&& self.fits()
    }
}

impl<'text> Spanned for Number<'text> {
    open spec fn fits(&self) -> bool {
        &&& self.start.byte() + self.raw@.len() <= u32::MAX
        &&& utf8_len(self.raw@) == self.raw@.len()
        &&& self.parts_len() <= self.raw@.len()
        &&& forall|i: int| 0 <= i < self.raw@.len() ==> (#[trigger] self.raw@[i] as u32) < 0x80
    }

    open spec fn spec_span(&self) -> Span {
        Span { start: self.start, end: Location((self.start.0 + utf8_len(self.raw@)) as u32) }
    }

    fn span(&self) -> Span {
        Span { start: self.start, end: self.start.add_str(self.raw) }
    }
}

/// In an ASCII text every character takes one byte.
pub proof fn lemma_ascii_offsets(s: Seq<char>, i: int)
    requires
        0 <= i <= s.len(),
        forall|k: int| 0 <= k < s.len() ==> (#[trigger] s[k] as u32) < 0x80,
    ensures
        byte_offset(s, i) == i,
    decreases i,
{
    if i > 0 {
        lemma_ascii_offsets(s, i - 1);
        crate::strings::lemma_byte_offset_step(s, i - 1);
    } else {
        assert(s.take(0) =~= Seq::<char>::empty());
    }
}

impl<'text> Number<'text> {
    /// Where the integral part starts: after the minus sign, if any.
    pub open spec fn integral_start_byte(&self) -> int {
        self.start.byte() + if self.is_negative { 1int } else { 0int }
    }

    pub open spec fn integral_end_byte(&self) -> int {
        self.integral_start_byte() + self.integral_len.0
    }

    pub open spec fn exponent_start_byte(&self) -> int {
        self.integral_end_byte() + match self.fractional_len {
            Some(f) => 1 + f.0,
            None => 0int,
        } + 1 + match self.exponent_len {
            Some((sign, _)) => if sign == ExponentSign::Unsigned { 0int } else { 1int },
            None => 0int,
        }
    }

    /// The span of the digits before the decimal point.
    pub open spec fn integral_span_spec(&self) -> Span {
        Span {
            start: Location(self.integral_start_byte() as u32),
            end: Location(self.integral_end_byte() as u32),
        }
    }

    /// The span of the digits after the decimal point, if there is one.
    pub open spec fn fractional_span_spec(&self) -> Option<Span> {
        match self.fractional_len {
            Some(f) => Some(
                Span {
                    start: Location((self.integral_end_byte() + 1) as u32),
                    end: Location((self.integral_end_byte() + 1 + f.0) as u32),
                },
            ),
            None => None,
        }
    }

    /// The span of the exponent digits, if the number has an exponent.
    pub open spec fn exponent_span_spec(&self) -> Option<Span> {
        match self.exponent_len {
            Some((_, e)) => Some(
                Span {
                    start: Location(self.exponent_start_byte() as u32),
                    end: Location((self.exponent_start_byte() + e.0) as u32),
                },
            ),
            None => None,
        }
    }

    /// The part of the raw text that `span` covers, with `span` given in
    /// locations of the source text.
    fn slice(&self, span: Span) -> (r: &'text str)
        requires
            self.fits(),
            self.start.byte() <= span.start.byte() <= span.end.byte() <= self.start.byte()
                + self.raw@.len(),
        ensures
            r@ == self.raw@.subrange(
                span.start.byte() - self.start.byte(),
                span.end.byte() - self.start.byte(),
            ),
    {
        let a = (span.start.0 - self.start.0) as usize;
        let b = (span.end.0 - self.start.0) as usize;
        proof {
            lemma_ascii_offsets(self.raw@, a as int);
            lemma_ascii_offsets(self.raw@, b as int);
        }
        crate::strings::slice_chars(self.raw, a, b, Ghost(a as int), Ghost(b as int))
    }

    fn integral_start(&self) -> (r: Location)
        requires
            self.fits(),
        ensures
            r.byte() == self.integral_start_byte(),
    {
        if self.is_negative {
            self.start.add_char('-')
        } else {
            self.start
        }
    }

    fn integral_end(&self) -> (r: Location)
        requires
            self.fits(),
        ensures
            r.byte() == self.integral_end_byte(),
    {
        self.integral_start().add_len(self.integral_len)
    }

    /// The span of the digits before the decimal point.
    pub fn integral_span(&self) -> (r: Span)
        requires
            self.fits(),
        ensures
            r.start.byte() == self.integral_start_byte(),
            r.end.byte() == self.integral_end_byte(),
            r == self.integral_span_spec(),
    {
        Span::new(self.integral_start()..self.integral_end())
    }

    /// The digits before the decimal point.
    pub fn integral_part(&self) -> (r: &'text str)
        requires
            self.fits(),
        ensures
            r@ == self.raw@.subrange(
                self.integral_start_byte() - self.start.byte(),
                self.integral_end_byte() - self.start.byte(),
            ),
    {
        self.slice(self.integral_span())
    }

    /// The span of the digits after the decimal point, if there is one.
    pub fn fractional_span(&self) -> (r: Option<Span>)
        requires
            self.fits(),
        ensures
            r is Some == self.fractional_len is Some,
            r matches Some(sp) ==> sp.start.byte() == self.integral_end_byte() + 1
                && sp.end.byte() == sp.start.byte() + (self.fractional_len->0).0,
            r == self.fractional_span_spec(),
    {
        match self.fractional_len {
            Some(fractional_len) => {
                let start = self.integral_end().add_char('.');
                let end = start.add_len(fractional_len);
                Some(Span::new(start..end))
            },
            None => None,
        }
    }

    /// The digits after the decimal point, if there is one.
    pub fn fractional_part(&self) -> (r: Option<&'text str>)
        requires
            self.fits(),
        ensures
            r is Some == self.fractional_len is Some,
            r matches Some(t) ==> t@ == self.raw@.subrange(
                self.integral_end_byte() + 1 - self.start.byte(),
                self.integral_end_byte() + 1 + (self.fractional_len->0).0 - self.start.byte(),
            ),
    {
        match self.fractional_span() {
            Some(span) => Some(self.slice(span)),
            None => None,
        }
    }

    /// The span of the exponent digits, if the number has an exponent.
    pub fn exponent_span(&self) -> (r: Option<Span>)
        requires
            self.fits(),
        ensures
            r is Some == self.exponent_len is Some,
            r matches Some(sp) ==> sp.start.byte() == self.exponent_start_byte()
                && sp.end.byte() == sp.start.byte() + ((self.exponent_len->0).1).0,
            r == self.exponent_span_spec(),
    {
        match self.exponent_len {
            Some((sign, exponent_len)) => {
                let mut start = self.integral_end();
                if let Some(fractional_len) = self.fractional_len {
                    start = start.add_char('.');
                    start = start.add_len(fractional_len);
                }
                start = start.add_char('e');
                if sign != ExponentSign::Unsigned {
                    start = start.add_char('-');
                }
                let end = start.add_len(exponent_len);
                Some(Span::new(start..end))
            },
            None => None,
        }
    }

    /// The sign and digits of the exponent, if the number has one.
    pub fn exponent_part(&self) -> (r: Option<(ExponentSign, &'text str)>)
        requires
            self.fits(),
        ensures
            r is Some == self.exponent_len is Some,
            r matches Some((sign, t)) ==> sign == (self.exponent_len->0).0 && t@ == self.raw@.subrange(
                self.exponent_start_byte() - self.start.byte(),
                self.exponent_start_byte() + ((self.exponent_len->0).1).0 - self.start.byte(),
            ),
    {
        match self.exponent_span() {
            Some(span) => {
                let sign = match self.exponent_len {
                    Some((sign, _)) => sign,
                    None => ExponentSign::Unsigned,
                };
                Some((sign, self.slice(span)))
            },
            None => None,
        }
    }
}

#[derive(Debug, Clone, Copy, PartialEq, Eq, Structural)]
pub enum MarkupKind {
    Open,
    Standalone,
    Close,
}

#[derive(Debug)]
pub struct Markup<'text> {
    pub span: Span,
    pub kind: MarkupKind,
    pub id: Identifier<'text>,
    pub options: Vec<FnOrMarkupOption<'text>>,
    pub attributes: Vec<Attribute<'text>>,
}

impl<'text> Markup<'text> {
    pub open spec fn wf(&self, s: Seq<char>) -> bool {
        &&& span_in(s, self.span)
        &&& self.id.wf(s)
        &&& self.id.fits()
        &&& options_wf(self.options@, s)
        &&& attributes_wf(self.attributes@, s)
    }
}

impl<'text> Spanned for Markup<'text> {
    open spec fn fits(&self) -> bool {
        true
    }

    open spec fn spec_span(&self) -> Span {
        self.span
    }

    fn span(&self) -> Span {
        self.span
    }
}

#[derive(Debug)]
pub struct ComplexMessage<'text> {
    pub span: Span,
    pub declarations: Vec<Declaration<'text>>,
    pub body: ComplexMessageBody<'text>,
}

impl<'text> ComplexMessage<'text> {
    pub open spec fn wf(&self, s: Seq<char>) -> bool {
        &&& span_in(s, self.span)
        &&& forall|i: int|
            0 <= i < self.declarations.len() ==> #[trigger] self.declarations[i].wf(s)
        &&& self.body.wf(s)
    }
}

impl<'text> Spanned for ComplexMessage<'text> {
    open spec fn fits(&self) -> bool {
        true
    }

    open spec fn spec_span(&self) -> Span {
        self.span
    }

    fn span(&self) -> Span {
        self.span
    }
}

#[derive(Debug)]
pub enum Declaration<'text> {
    InputDeclaration(InputDeclaration<'text>),
    LocalDeclaration(LocalDeclaration<'text>),
}

impl<'text> Declaration<'text> {
    pub open spec fn wf(&self, s: Seq<char>) -> bool {
        match self {
            Declaration::InputDeclaration(d) => d.wf(s),
            Declaration::LocalDeclaration(d) => d.wf(s),
        }
    }
}

impl<'text> Spanned for Declaration<'text> {
    open spec fn fits(&self) -> bool {
        true
    }

    open spec fn spec_span(&self) -> Span {
        match self {
            Declaration::InputDeclaration(d) => d.spec_span(),
            Declaration::LocalDeclaration(d) => d.spec_span(),
        }
    }

    fn span(&self) -> Span {
        match self {
            Declaration::InputDeclaration(d) => d.span(),
            Declaration::LocalDeclaration(d) => d.span(),
        }
    }
}

#[derive(Debug)]
pub struct InputDeclaration<'text> {
    pub start: Location,
    pub expression: VariableExpression<'text>,
}

impl<'text> InputDeclaration<'text> {
    pub open spec fn wf(&self, s: Seq<char>) -> bool {
        &&& is_boundary(s, self.start.byte())
        &&& self.start.byte() <= self.expression.span.end.byte()
        &&& self.expression.wf(s)
    }
}

impl<'text> Spanned for InputDeclaration<'text> {
    open spec fn fits(&self) -> bool {
        true
    }

    open spec fn spec_span(&self) -> Span {
        Span { start: self.start, end: self.expression.span.end }
    }

    /// From the keyword to the end of the expression.
    fn span(&self) -> Span {
        Span { start: self.start, end: self.expression.span.end }
    }
}

#[derive(Debug)]
pub struct LocalDeclaration<'text> {
    pub start: Location,
    pub variable: Variable<'text>,
    pub expression: Expression<'text>,
}

impl<'text> LocalDeclaration<'text> {
    pub open spec fn wf(&self, s: Seq<char>) -> bool {
        &&& is_boundary(s, self.start.byte())
        &&& self.start.byte() <= self.expression.stored_span().end.byte()
        &&& self.variable.wf(s)
        &&& self.expression.wf(s)
    }
}

impl<'text> Spanned for LocalDeclaration<'text> {
    open spec fn fits(&self) -> bool {
        true
    }

    open spec fn spec_span(&self) -> Span {
        Span { start: self.start, end: self.expression.stored_span().end }
    }

    /// From the keyword to the end of the expression.
    fn span(&self) -> Span {
        Span { start: self.start, end: self.expression.span().end }
    }
}

#[derive(Debug)]
pub enum ComplexMessageBody<'text> {
    QuotedPattern(QuotedPattern<'text>),
    Matcher(Matcher<'text>),
}

impl<'text> ComplexMessageBody<'text> {
    pub open spec fn wf(&self, s: Seq<char>) -> bool {
        match self {
            ComplexMessageBody::QuotedPattern(q) => q.wf(s),
            ComplexMessageBody::Matcher(m) => m.wf(s),
        }
    }
}

impl<'text> Spanned for ComplexMessageBody<'text> {
    open spec fn fits(&self) -> bool {
        match self {
            ComplexMessageBody::QuotedPattern(q) => q.fits(),
            ComplexMessageBody::Matcher(m) => m.fits(),
        }
    }

    open spec fn spec_span(&self) -> Span {
        match self {
            ComplexMessageBody::QuotedPattern(q) => q.spec_span(),
            ComplexMessageBody::Matcher(m) => m.spec_span(),
        }
    }

    fn span(&self) -> Span {
        match self {
            ComplexMessageBody::QuotedPattern(q) => q.span(),
            ComplexMessageBody::Matcher(m) => m.span(),
        }
    }
}

#[derive(Debug)]
pub struct QuotedPattern<'text> {
    pub span: Span,
    pub pattern: Pattern<'text>,
}

impl<'text> QuotedPattern<'text> {
    pub open spec fn wf(&self, s: Seq<char>) -> bool {
        &&& span_in(s, self.span)
        &&& self.pattern.wf(s)
        &&& self.pattern.fits()
    }
}

impl<'text> Spanned for QuotedPattern<'text> {
    open spec fn fits(&self) -> bool {
        self.pattern.fits()
    }

    open spec fn spec_span(&self) -> Span {
        self.span
    }

    fn span(&self) -> Span {
        self.span
    }
}

#[derive(Debug)]
pub struct Matcher<'text> {
    pub start: Location,
    pub selectors: Vec<Variable<'text>>,
    pub variants: Vec<Variant<'text>>,
}

impl<'text> Matcher<'text> {
    pub open spec fn wf(&self, s: Seq<char>) -> bool {
        &&& boundary_with_room(s, self.start.byte(), 6)
        &&& source_fits(s)
        &&& forall|i: int| 0 <= i < self.selectors.len() ==> #[trigger] self.selectors[i].wf(s)
        &&& forall|i: int| 0 <= i < self.variants.len() ==> #[trigger] self.variants[i].wf(s)
        &&& span_in(s, self.spec_span())
    }
}

impl<'text> Spanned for Matcher<'text> {
    open spec fn fits(&self) -> bool {
        &&& self.start.byte() + 6 <= u32::MAX
        &&& forall|i: int| 0 <= i < self.variants.len() ==> #[trigger] self.variants[i].fits()
    }

    open spec fn spec_span(&self) -> Span {
        let nv = self.variants.len();
        let ns = self.selectors.len();
        Span {
            start: self.start,
            end: if nv > 0 {
                self.variants[nv - 1].spec_span().end
            } else if ns > 0 {
                self.selectors[ns - 1].span.end
            } else {
                Location((self.start.0 + 6) as u32)
            },
        }
    }

    /// From the keyword to the end of the last variant, or of the last
    /// selector, or of the keyword.
    fn span(&self) -> Span {
        let start = self.start;
        let nv = self.variants.len();
        let ns = self.selectors.len();
        let end = if nv > 0 {
            self.variants[nv - 1].span().end
        } else if ns > 0 {
            self.selectors[ns - 1].span.end
        } else {
            proof {
                reveal_strlit(".match");
                reveal_with_fuel(utf8_len, 7);
            }
            start.add_str(".match")
        };
        Span { start, end }
    }
}

#[derive(Debug)]
pub struct Variant<'text> {
    pub keys: Vec<Key<'text>>,
    pub pattern: QuotedPattern<'text>,
}

impl<'text> Variant<'text> {
    pub open spec fn wf(&self, s: Seq<char>) -> bool {
        &&& forall|i: int| 0 <= i < self.keys.len() ==> #[trigger] self.keys[i].wf(s)
        &&& self.pattern.wf(s)
        &&& self.fits()
        &&& span_in(s, self.spec_span())
    }
}

impl<'text> Spanned for Variant<'text> {
    open spec fn fits(&self) -> bool {
        forall|i: int| 0 <= i < self.keys.len() ==> #[trigger] self.keys[i].fits()
    }

    open spec fn spec_span(&self) -> Span {
        Span {
            start: if self.keys.len() > 0 {
                self.keys[0].spec_span().start
            } else {
                self.pattern.span.start
            },
            end: self.pattern.span.end,
        }
    }

    /// From the first key, or the pattern, to the end of the pattern.
    fn span(&self) -> Span {
        let start = if self.keys.len() > 0 {
            self.keys[0].span().start
        } else {
            self.pattern.span.start
        };
        Span { start, end: self.pattern.span.end }
    }
}

#[derive(Debug)]
pub enum Key<'text> {
    Literal(Literal<'text>),
    Star(Star),
}

impl<'text> Key<'text> {
    pub open spec fn wf(&self, s: Seq<char>) -> bool {
        match self {
            Key::Literal(l) => l.wf(s) && l.fits(),
            Key::Star(st) => st.wf(s),
        }
    }
}

impl<'text> Spanned for Key<'text> {
    open spec fn fits(&self) -> bool {
        match self {
            Key::Literal(l) => l.fits(),
            Key::Star(st) => st.fits(),
        }
    }

    open spec fn spec_span(&self) -> Span {
        match self {
            Key::Literal(l) => l.spec_span(),
            Key::Star(st) => st.spec_span(),
        }
    }

    fn span(&self) -> Span {
        match self {
            Key::Literal(l) => l.span(),
            Key::Star(st) => st.span(),
        }
    }
}

#[derive(Debug, Clone, Copy)]
pub struct Star {
    pub start: Location,
}

impl Star {
    pub open spec fn wf(&self, s: Seq<char>) -> bool {
        &&& source_fits(s)
        &&& exists|i: int|
            0 <= i < s.len() && #[trigger] byte_offset(s, i) == self.start.byte() && s[i] == '*'
        &&& self.fits()
    }
}

impl Spanned for Star {
    open spec fn fits(&self) -> bool {
        self.start.byte() + 1 <= u32::MAX
    }

    open spec fn spec_span(&self) -> Span {
        Span { start: self.start, end: Location((self.start.0 + 1) as u32) }
    }

    fn span(&self) -> Span {
        Span { start: self.start, end: self.start.add_char('*') }
    }
}

/// A text placed in `s` covers a span of `s`.
pub proof fn lemma_text_span(t: Text, s: Seq<char>)
    requires
        t.wf(s),
        t.fits(),
    ensures
        span_in(s, t.spec_span()),
{
    lemma_slice_at_end(s, t.start.byte(), t.content@);
}

/// An escape placed in `s` covers a span of `s`.
pub proof fn lemma_escape_span(e: Escape, s: Seq<char>)
    requires
        e.wf(s),
        e.fits(),
    ensures
        span_in(s, e.spec_span()),
{
    let i = choose|i: int|
        0 <= i && i + 1 < s.len() && #[trigger] byte_offset(s, i) == e.start.byte() && s[i]
            == '\\' && s[i + 1] == e.escaped_char;
    crate::strings::lemma_byte_offset_step(s, i);
    crate::strings::lemma_byte_offset_step(s, i + 1);
    assert(byte_offset(s, i + 2) == e.spec_span().end.byte());
}

/// A number placed in `s` covers a span of `s`.
pub proof fn lemma_number_span(n: Number, s: Seq<char>)
    requires
        n.wf(s),
        n.fits(),
    ensures
        span_in(s, n.spec_span()),
{
    lemma_slice_at_end(s, n.start.byte(), n.raw@);
}

/// An identifier placed in `s` covers a span of `s`.
pub proof fn lemma_identifier_span(id: Identifier, s: Seq<char>)
    requires
        id.wf(s),
        id.fits(),
    ensures
        span_in(s, id.spec_span()),
{
    match id.namespace {
        Some(ns) => {
            let t = ns@ + seq![':'] + id.name@;
            lemma_slice_at_end(s, id.start.byte(), t);
            crate::strings::lemma_utf8_len_concat(ns@ + seq![':'], id.name@);
            crate::strings::lemma_utf8_len_concat(ns@, seq![':']);
            crate::strings::lemma_utf8_len_single(':');
        },
        None => {
            lemma_slice_at_end(s, id.start.byte(), id.name@);
        },
    }
}

/// A star placed in `s` covers a span of `s`.
pub proof fn lemma_star_span(st: Star, s: Seq<char>)
    requires
        st.wf(s),
    ensures
        span_in(s, st.spec_span()),
{
    let i = choose|i: int|
        0 <= i < s.len() && #[trigger] byte_offset(s, i) == st.start.byte() && s[i] == '*';
    crate::strings::lemma_byte_offset_step(s, i);
}

/// A literal placed in `s` covers a span of `s`.
pub proof fn lemma_literal_span(l: Literal, s: Seq<char>)
    requires
        l.wf(s),
        l.fits(),
    ensures
        span_in(s, l.spec_span()),
{
    match l {
        Literal::Quoted(q) => {},
        Literal::Text(t) => lemma_text_span(t, s),
        Literal::Number(n) => lemma_number_span(n, s),
    }
}

/// A literal or variable placed in `s` covers a span of `s`.
pub proof fn lemma_literal_or_variable_span(v: LiteralOrVariable, s: Seq<char>)
    requires
        v.wf(s),
        v.fits(),
    ensures
        span_in(s, v.spec_span()),
{
    match v {
        LiteralOrVariable::Literal(l) => lemma_literal_span(l, s),
        LiteralOrVariable::Variable(var) => {},
    }
}

/// A key placed in `s` covers a span of `s`.
pub proof fn lemma_key_span(k: Key, s: Seq<char>)
    requires
        k.wf(s),
    ensures
        span_in(s, k.spec_span()),
{
    match k {
        Key::Literal(l) => lemma_literal_span(l, s),
        Key::Star(st) => lemma_star_span(st, s),
    }
}

/// A part of a pattern placed in `s` covers a span of `s`.
pub proof fn lemma_pattern_part_span(p: PatternPart, s: Seq<char>)
    requires
        p.wf(s),
        p.fits(),
    ensures
        span_in(s, p.spec_span()),
{
    match p {
        PatternPart::Text(t) => lemma_text_span(t, s),
        PatternPart::Escape(e) => lemma_escape_span(e, s),
        PatternPart::Expression(e) => {},
        PatternPart::Markup(m) => {},
    }
}

impl<'text> Quoted<'text> {
    /// A copy of the quoted literal.
    pub fn duplicate(&self) -> (r: Quoted<'text>)
        ensures
            r.span == self.span,
            r.parts@ == self.parts@,
    {
        let mut parts: Vec<QuotedPart<'text>> = Vec::new();
        let n = self.parts.len();
        let mut i: usize = 0;
        while i < n
            invariant
                n == self.parts.len(),
                i <= n,
                parts@ == self.parts@.take(i as int),
            decreases n - i,
        {
            parts.push(self.parts[i]);
            i = i + 1;
            assert(parts@ =~= self.parts@.take(i as int));
        }
        assert(self.parts@.take(n as int) =~= self.parts@);
        Quoted { span: self.span, parts }
    }
}

/// `b` is a copy of the literal `a`.
pub open spec fn same_literal(a: Literal, b: Literal) -> bool {
    match a {
        Literal::Quoted(x) => b matches Literal::Quoted(y) && y.span == x.span && y.parts@
            == x.parts@,
        Literal::Text(x) => b matches Literal::Text(y) && y == x,
        Literal::Number(x) => b matches Literal::Number(y) && y == x,
    }
}

/// `b` is a copy of the literal or variable `a`.
pub open spec fn same_literal_or_variable(a: LiteralOrVariable, b: LiteralOrVariable) -> bool {
    match a {
        LiteralOrVariable::Literal(x) => b matches LiteralOrVariable::Literal(y) && same_literal(
            x,
            y,
        ),
        LiteralOrVariable::Variable(x) => b matches LiteralOrVariable::Variable(y) && y == x,
    }
}

/// A copy of a literal lies where the literal lies.
pub proof fn lemma_same_literal(a: Literal, b: Literal, s: Seq<char>)
    requires
        same_literal(a, b),
    ensures
        a.wf(s) == b.wf(s),
        a.fits() == b.fits(),
        a.spec_span() == b.spec_span(),
{
    if let Literal::Quoted(x) = a {
        if let Literal::Quoted(y) = b {
            assert(x.wf(s) == y.wf(s));
        }
    }
}

impl<'text> Literal<'text> {
    /// A copy of the literal.
    pub fn duplicate(&self) -> (r: Literal<'text>)
        ensures
            same_literal(*self, r),
    {
        match self {
            Literal::Quoted(q) => Literal::Quoted(q.duplicate()),
            Literal::Text(t) => Literal::Text(*t),
            Literal::Number(n) => Literal::Number(*n),
        }
    }
}

impl<'text> LiteralOrVariable<'text> {
    /// A copy of the literal or variable.
    pub fn duplicate(&self) -> (r: LiteralOrVariable<'text>)
        ensures
            same_literal_or_variable(*self, r),
    {
        match self {
            LiteralOrVariable::Literal(l) => LiteralOrVariable::Literal(l.duplicate()),
            LiteralOrVariable::Variable(v) => LiteralOrVariable::Variable(*v),
        }
    }
}

impl<'text> FnOrMarkupOption<'text> {
    /// A copy of the option.
    pub fn duplicate(&self) -> (r: FnOrMarkupOption<'text>)
        ensures
            r.key == self.key,
            same_literal_or_variable(self.value, r.value),
    {
        FnOrMarkupOption { key: self.key, value: self.value.duplicate() }
    }
}

impl<'text> Attribute<'text> {
    /// A copy of the attribute.
    pub fn duplicate(&self) -> (r: Attribute<'text>)
        ensures
            r.span == self.span,
            r.key == self.key,
            r.value is Some == self.value is Some,
            self.value matches Some(v) ==> same_literal(v, r.value->0),
    {
        let value = match &self.value {
            Some(v) => Some(v.duplicate()),
            None => None,
        };
        Attribute { span: self.span, key: self.key, value }
    }
}

/// A matcher placed in `s` fits in the locations of `s`.
pub proof fn lemma_matcher_fits(m: Matcher, s: Seq<char>)
    requires
        m.wf(s),
    ensures
        m.fits(),
{
    assert forall|i: int| 0 <= i < m.variants.len() implies #[trigger] m.variants[i].fits() by {
        assert(m.variants[i].wf(s));
    }
}

/// The body of a complex message placed in `s` covers a span of `s`.
pub proof fn lemma_body_span(b: ComplexMessageBody, s: Seq<char>)
    requires
        b.wf(s),
    ensures
        b.fits(),
        span_in(s, b.spec_span()),
{
    if let ComplexMessageBody::Matcher(m) = b {
        lemma_matcher_fits(m, s);
    }
}

/// A declaration placed in `s` covers a span of `s`.
pub proof fn lemma_declaration_span(d: Declaration, s: Seq<char>)
    requires
        d.wf(s),
    ensures
        span_in(s, d.spec_span()),
{
}

/// A reference to any node of the syntax tree.
#[derive(Debug, Clone, Copy)]
pub enum AnyNode<'ast, 'text> {
    Message(&'ast Message<'text>),
    Pattern(&'ast Pattern<'text>),
    PatternPart(&'ast PatternPart<'text>),
    Text(&'ast Text<'text>),
    Escape(&'ast Escape),
    Expression(&'ast Expression<'text>),
    LiteralExpression(&'ast LiteralExpression<'text>),
    VariableExpression(&'ast VariableExpression<'text>),
    Variable(&'ast Variable<'text>),
    AnnotationExpression(&'ast AnnotationExpression<'text>),
    Annotation(&'ast Annotation<'text>),
    Function(&'ast Function<'text>),
    FnOrMarkupOption(&'ast FnOrMarkupOption<'text>),
    Attribute(&'ast Attribute<'text>),
    LiteralOrVariable(&'ast LiteralOrVariable<'text>),
    Quoted(&'ast Quoted<'text>),
    QuotedPart(&'ast QuotedPart<'text>),
    Literal(&'ast Literal<'text>),
    Number(&'ast Number<'text>),
    Markup(&'ast Markup<'text>),
    Identifier(&'ast Identifier<'text>),
    ComplexMessage(&'ast ComplexMessage<'text>),
    Declaration(&'ast Declaration<'text>),
    InputDeclaration(&'ast InputDeclaration<'text>),
    LocalDeclaration(&'ast LocalDeclaration<'text>),
    ComplexMessageBody(&'ast ComplexMessageBody<'text>),
    QuotedPattern(&'ast QuotedPattern<'text>),
    Matcher(&'ast Matcher<'text>),
    Variant(&'ast Variant<'text>),
    Key(&'ast Key<'text>),
    Star(&'ast Star),
}

impl<'ast, 'text> Spanned for AnyNode<'ast, 'text> {
    open spec fn fits(&self) -> bool {
        match self {
            AnyNode::Message(x) => x.fits(),
            AnyNode::Pattern(x) => x.fits(),
            AnyNode::PatternPart(x) => x.fits(),
            AnyNode::Text(x) => x.fits(),
            AnyNode::Escape(x) => x.fits(),
            AnyNode::Expression(x) => x.fits(),
            AnyNode::LiteralExpression(x) => x.fits(),
            AnyNode::VariableExpression(x) => x.fits(),
            AnyNode::Variable(x) => x.fits(),
            AnyNode::AnnotationExpression(x) => x.fits(),
            AnyNode::Annotation(x) => x.fits(),
            AnyNode::Function(x) => x.fits(),
            AnyNode::FnOrMarkupOption(x) => x.fits(),
            AnyNode::Attribute(x) => x.fits(),
            AnyNode::LiteralOrVariable(x) => x.fits(),
            AnyNode::Quoted(x) => x.fits(),
            AnyNode::QuotedPart(x) => x.fits(),
            AnyNode::Literal(x) => x.fits(),
            AnyNode::Number(x) => x.fits(),
            AnyNode::Markup(x) => x.fits(),
            AnyNode::Identifier(x) => x.fits(),
            AnyNode::ComplexMessage(x) => x.fits(),
            AnyNode::Declaration(x) => x.fits(),
            AnyNode::InputDeclaration(x) => x.fits(),
            AnyNode::LocalDeclaration(x) => x.fits(),
            AnyNode::ComplexMessageBody(x) => x.fits(),
            AnyNode::QuotedPattern(x) => x.fits(),
            AnyNode::Matcher(x) => x.fits(),
            AnyNode::Variant(x) => x.fits(),
            AnyNode::Key(x) => x.fits(),
            AnyNode::Star(x) => x.fits(),
        }
    }

    open spec fn spec_span(&self) -> Span {
        match self {
            AnyNode::Message(x) => x.spec_span(),
            AnyNode::Pattern(x) => x.spec_span(),
            AnyNode::PatternPart(x) => x.spec_span(),
            AnyNode::Text(x) => x.spec_span(),
            AnyNode::Escape(x) => x.spec_span(),
            AnyNode::Expression(x) => x.spec_span(),
            AnyNode::LiteralExpression(x) => x.spec_span(),
            AnyNode::VariableExpression(x) => x.spec_span(),
            AnyNode::Variable(x) => x.spec_span(),
            AnyNode::AnnotationExpression(x) => x.spec_span(),
            AnyNode::Annotation(x) => x.spec_span(),
            AnyNode::Function(x) => x.spec_span(),
            AnyNode::FnOrMarkupOption(x) => x.spec_span(),
            AnyNode::Attribute(x) => x.spec_span(),
            AnyNode::LiteralOrVariable(x) => x.spec_span(),
            AnyNode::Quoted(x) => x.spec_span(),
            AnyNode::QuotedPart(x) => x.spec_span(),
            AnyNode::Literal(x) => x.spec_span(),
            AnyNode::Number(x) => x.spec_span(),
            AnyNode::Markup(x) => x.spec_span(),
            AnyNode::Identifier(x) => x.spec_span(),
            AnyNode::ComplexMessage(x) => x.spec_span(),
            AnyNode::Declaration(x) => x.spec_span(),
            AnyNode::InputDeclaration(x) => x.spec_span(),
            AnyNode::LocalDeclaration(x) => x.spec_span(),
            AnyNode::ComplexMessageBody(x) => x.spec_span(),
            AnyNode::QuotedPattern(x) => x.spec_span(),
            AnyNode::Matcher(x) => x.spec_span(),
            AnyNode::Variant(x) => x.spec_span(),
            AnyNode::Key(x) => x.spec_span(),
            AnyNode::Star(x) => x.spec_span(),
        }
    }

    fn span(&self) -> Span {
        match self {
            AnyNode::Message(x) => x.span(),
            AnyNode::Pattern(x) => x.span(),
            AnyNode::PatternPart(x) => x.span(),
            AnyNode::Text(x) => x.span(),
            AnyNode::Escape(x) => x.span(),
            AnyNode::Expression(x) => x.span(),
            AnyNode::LiteralExpression(x) => x.span(),
            AnyNode::VariableExpression(x) => x.span(),
            AnyNode::Variable(x) => x.span(),
            AnyNode::AnnotationExpression(x) => x.span(),
            AnyNode::Annotation(x) => x.span(),
            AnyNode::Function(x) => x.span(),
            AnyNode::FnOrMarkupOption(x) => x.span(),
            AnyNode::Attribute(x) => x.span(),
            AnyNode::LiteralOrVariable(x) => x.span(),
            AnyNode::Quoted(x) => x.span(),
            AnyNode::QuotedPart(x) => x.span(),
            AnyNode::Literal(x) => x.span(),
            AnyNode::Number(x) => x.span(),
            AnyNode::Markup(x) => x.span(),
            AnyNode::Identifier(x) => x.span(),
            AnyNode::ComplexMessage(x) => x.span(),
            AnyNode::Declaration(x) => x.span(),
            AnyNode::InputDeclaration(x) => x.span(),
            AnyNode::LocalDeclaration(x) => x.span(),
            AnyNode::ComplexMessageBody(x) => x.span(),
            AnyNode::QuotedPattern(x) => x.span(),
            AnyNode::Matcher(x) => x.span(),
            AnyNode::Variant(x) => x.span(),
            AnyNode::Key(x) => x.span(),
            AnyNode::Star(x) => x.span(),
        }
    }
}

} // verus!
