//! Semantic highlighting: the tokens of a message, by kind, and their
//! encoding as the relative positions that editors expect.
use vstd::prelude::*;

use crate::ast::Annotation;
use crate::ast::Attribute;
use crate::ast::ComplexMessageBody;
use crate::ast::Declaration;
use crate::ast::Expression;
use crate::ast::FnOrMarkupOption;
use crate::ast::Key;
use crate::ast::Literal;
use crate::ast::LiteralOrVariable;
use crate::ast::Markup;
use crate::ast::Matcher;
use crate::ast::Message;
use crate::ast::PatternPart;
use crate::ast::Variant;
use crate::ast::lemma_matcher_fits;
use crate::ast::slice_at;
use crate::lines::is_boundary;
use crate::strings::byte_offset;
use crate::strings::lemma_byte_offset_end;
use crate::strings::lemma_byte_offset_mono;
use crate::strings::lemma_subrange_len;
use crate::strings::utf16_len;
use crate::strings::utf8_len;
use crate::text::LineColUtf16;
use crate::text::Location;
use crate::text::SourceTextInfo;
use crate::text::Span;
use crate::text::Spanned;

verus! {

/// A variable.
pub const VARIABLE: u32 = 0;

/// The key of an option.
pub const PARAMETER: u32 = 1;

/// The identifier of a function.
pub const FUNCTION: u32 = 2;

/// The `.match` keyword.
pub const KEYWORD: u32 = 3;

/// A text or quoted literal.
pub const STRING: u32 = 4;

/// A number literal.
pub const NUMBER: u32 = 5;

/// The names of the kinds of tokens, by their number.
pub fn legend() -> (r: Vec<&'static str>)
    ensures
        r.len() == 6,
{
    let mut v: Vec<&'static str> = Vec::new();
    v.push("variable");
    v.push("parameter");
    v.push("function");
    v.push("keyword");
    v.push("string");
    v.push("number");
    v
}

/// A token: its span and kind.
pub type Token = (Span, u32);

pub open spec fn literal_tokens(l: Literal) -> Seq<Token> {
    seq![
        (l.spec_span(), if l is Number {
            NUMBER
        } else {
            STRING
        }),
    ]
}

pub open spec fn lov_tokens(v: LiteralOrVariable) -> Seq<Token> {
    match v {
        LiteralOrVariable::Literal(l) => literal_tokens(l),
        LiteralOrVariable::Variable(x) => seq![(x.span, VARIABLE)],
    }
}

pub open spec fn options_tokens(opts: Seq<FnOrMarkupOption>) -> Seq<Token>
    decreases opts.len(),
{
    if opts.len() == 0 {
        seq![]
    } else {
        let o = opts.last();
        options_tokens(opts.drop_last()) + seq![(o.key.spec_span(), PARAMETER)] + lov_tokens(o.value)
    }
}

pub open spec fn annotation_tokens(a: Annotation) -> Seq<Token> {
    match a {
        Annotation::Function(f) => seq![(f.id.spec_span(), FUNCTION)] + options_tokens(f.options@),
    }
}

pub open spec fn opt_annotation_tokens(a: Option<Annotation>) -> Seq<Token> {
    match a {
        Some(a) => annotation_tokens(a),
        None => seq![],
    }
}

pub open spec fn attributes_tokens(attrs: Seq<Attribute>) -> Seq<Token>
    decreases attrs.len(),
{
    if attrs.len() == 0 {
        seq![]
    } else {
        attributes_tokens(attrs.drop_last()) + match attrs.last().value {
            Some(l) => literal_tokens(l),
            None => seq![],
        }
    }
}

pub open spec fn expression_tokens(e: Expression) -> Seq<Token> {
    match e {
        Expression::LiteralExpression(x) => literal_tokens(x.literal) + opt_annotation_tokens(
            x.annotation,
        ) + attributes_tokens(x.attributes@),
        Expression::VariableExpression(x) => seq![(x.variable.span, VARIABLE)] + opt_annotation_tokens(
            x.annotation,
        ) + attributes_tokens(x.attributes@),
        Expression::AnnotationExpression(x) => annotation_tokens(x.annotation) + attributes_tokens(
            x.attributes@,
        ),
    }
}

pub open spec fn markup_tokens(m: Markup) -> Seq<Token> {
    options_tokens(m.options@) + attributes_tokens(m.attributes@)
}

pub open spec fn parts_tokens(parts: Seq<PatternPart>) -> Seq<Token>
    decreases parts.len(),
{
    if parts.len() == 0 {
        seq![]
    } else {
        parts_tokens(parts.drop_last()) + match parts.last() {
            PatternPart::Expression(e) => expression_tokens(e),
            PatternPart::Markup(m) => markup_tokens(m),
            _ => seq![],
        }
    }
}

pub open spec fn keys_tokens(keys: Seq<Key>) -> Seq<Token>
    decreases keys.len(),
{
    if keys.len() == 0 {
        seq![]
    } else {
        keys_tokens(keys.drop_last()) + match keys.last() {
            Key::Literal(l) => literal_tokens(l),
            Key::Star(_) => seq![],
        }
    }
}

pub open spec fn variants_tokens(vs: Seq<Variant>) -> Seq<Token>
    decreases vs.len(),
{
    if vs.len() == 0 {
        seq![]
    } else {
        let v = vs.last();
        variants_tokens(vs.drop_last()) + keys_tokens(v.keys@) + parts_tokens(v.pattern.pattern.parts@)
    }
}

/// The span of the `.match` keyword.
pub open spec fn keyword_span(m: Matcher) -> Span {
    Span { start: m.start, end: Location((m.start.0 + 6) as u32) }
}

pub open spec fn matcher_tokens(m: Matcher) -> Seq<Token> {
    seq![(keyword_span(m), KEYWORD)] + m.selectors@.map_values(|v: crate::ast::Variable| (v.span, VARIABLE))
        + variants_tokens(m.variants@)
}

pub open spec fn declarations_tokens(ds: Seq<Declaration>) -> Seq<Token>
    decreases ds.len(),
{
    if ds.len() == 0 {
        seq![]
    } else {
        declarations_tokens(ds.drop_last()) + match ds.last() {
            Declaration::InputDeclaration(x) => expression_tokens(Expression::VariableExpression(x.expression)),
            Declaration::LocalDeclaration(x) => seq![(x.variable.span, VARIABLE)] + expression_tokens(
                x.expression,
            ),
        }
    }
}

/// The tokens of a message, in the order of a visit of its tree: variables,
/// option keys, function identifiers, the `.match` keyword, and literals.
pub open spec fn message_tokens(m: Message) -> Seq<Token> {
    match m {
        Message::Simple(p) => parts_tokens(p.parts@),
        Message::Complex(c) => declarations_tokens(c.declarations@) + match c.body {
            ComplexMessageBody::QuotedPattern(q) => parts_tokens(q.pattern.parts@),
            ComplexMessageBody::Matcher(m) => matcher_tokens(m),
        },
    }
}

/// A text literal placed in a text that fits 32-bit locations fits them.
proof fn lemma_literal_fits(l: Literal, s: Seq<char>)
    requires
        l.wf(s),
    ensures
        l.fits(),
{
    if let Literal::Text(t) = l {
        let (i, j) = choose|i: int, j: int|
            0 <= i <= j <= s.len() && byte_offset(s, i) == t.start.byte() && #[trigger] s.subrange(i, j)
                == t.content@;
        lemma_subrange_len(s, i, j);
        lemma_byte_offset_mono(s, j, s.len() as int);
        lemma_byte_offset_end(s);
    }
}

fn push_literal(out: &mut Vec<Token>, l: &Literal, Ghost(s): Ghost<Seq<char>>)
    requires
        l.wf(s),
    ensures
        final(out)@ == old(out)@ + literal_tokens(*l),
{
    proof {
        lemma_literal_fits(*l, s);
    }
    let kind = match l {
        Literal::Number(_) => NUMBER,
        _ => STRING,
    };
    out.push((l.span(), kind));
    assert(out@ =~= old(out)@ + literal_tokens(*l));
}

fn push_lov(out: &mut Vec<Token>, v: &LiteralOrVariable, Ghost(s): Ghost<Seq<char>>)
    requires
        v.wf(s),
    ensures
        final(out)@ == old(out)@ + lov_tokens(*v),
{
    match v {
        LiteralOrVariable::Literal(l) => push_literal(out, l, Ghost(s)),
        LiteralOrVariable::Variable(x) => {
            out.push((x.span, VARIABLE));
            assert(out@ =~= old(out)@ + lov_tokens(*v));
        },
    }
}

fn push_options(out: &mut Vec<Token>, opts: &Vec<FnOrMarkupOption>, Ghost(s): Ghost<Seq<char>>)
    requires
        forall|k: int| 0 <= k < opts.len() ==> #[trigger] opts[k].wf(s),
    ensures
        final(out)@ == old(out)@ + options_tokens(opts@),
{
    let mut k: usize = 0;
    while k < opts.len()
        invariant
            k <= opts.len(),
            forall|k: int| 0 <= k < opts.len() ==> #[trigger] opts[k].wf(s),
            out@ == old(out)@ + options_tokens(opts@.take(k as int)),
        decreases opts.len() - k,
    {
        assert(opts@.take(k + 1).drop_last() =~= opts@.take(k as int));
        let o = &opts[k];
        assert(opts[k as int].wf(s));
        let ghost before = out@;
        out.push((o.key.span(), PARAMETER));
        push_lov(out, &o.value, Ghost(s));
        k = k + 1;
        assert(out@ =~= old(out)@ + options_tokens(opts@.take(k as int)));
    }
    assert(opts@.take(k as int) =~= opts@);
}

fn push_annotation(out: &mut Vec<Token>, a: &Annotation, Ghost(s): Ghost<Seq<char>>)
    requires
        a.wf(s),
    ensures
        final(out)@ == old(out)@ + annotation_tokens(*a),
{
    match a {
        Annotation::Function(f) => {
            out.push((f.id.span(), FUNCTION));
            push_options(out, &f.options, Ghost(s));
            assert(out@ =~= old(out)@ + annotation_tokens(*a));
        },
    }
}

fn push_opt_annotation(out: &mut Vec<Token>, a: &Option<Annotation>, Ghost(s): Ghost<Seq<char>>)
    requires
        a matches Some(x) ==> x.wf(s),
    ensures
        final(out)@ == old(out)@ + opt_annotation_tokens(*a),
{
    match a {
        Some(x) => push_annotation(out, x, Ghost(s)),
        None => assert(out@ =~= old(out)@ + opt_annotation_tokens(*a)),
    }
}

fn push_attributes(out: &mut Vec<Token>, attrs: &Vec<Attribute>, Ghost(s): Ghost<Seq<char>>)
    requires
        forall|k: int| 0 <= k < attrs.len() ==> #[trigger] attrs[k].wf(s),
    ensures
        final(out)@ == old(out)@ + attributes_tokens(attrs@),
{
    let mut k: usize = 0;
    while k < attrs.len()
        invariant
            k <= attrs.len(),
            forall|k: int| 0 <= k < attrs.len() ==> #[trigger] attrs[k].wf(s),
            out@ == old(out)@ + attributes_tokens(attrs@.take(k as int)),
        decreases attrs.len() - k,
    {
        assert(attrs@.take(k + 1).drop_last() =~= attrs@.take(k as int));
        assert(attrs[k as int].wf(s));
        if let Some(l) = &attrs[k].value {
            push_literal(out, l, Ghost(s));
        }
        k = k + 1;
        assert(out@ =~= old(out)@ + attributes_tokens(attrs@.take(k as int)));
    }
    assert(attrs@.take(k as int) =~= attrs@);
}

fn push_expression(out: &mut Vec<Token>, e: &Expression, Ghost(s): Ghost<Seq<char>>)
    requires
        e.wf(s),
    ensures
        final(out)@ == old(out)@ + expression_tokens(*e),
{
    match e {
        Expression::LiteralExpression(x) => {
            push_literal(out, &x.literal, Ghost(s));
            push_opt_annotation(out, &x.annotation, Ghost(s));
            push_attributes(out, &x.attributes, Ghost(s));
        },
        Expression::VariableExpression(x) => {
            out.push((x.variable.span, VARIABLE));
            push_opt_annotation(out, &x.annotation, Ghost(s));
            push_attributes(out, &x.attributes, Ghost(s));
        },
        Expression::AnnotationExpression(x) => {
            push_annotation(out, &x.annotation, Ghost(s));
            push_attributes(out, &x.attributes, Ghost(s));
        },
    }
    assert(out@ =~= old(out)@ + expression_tokens(*e));
}

fn push_parts(out: &mut Vec<Token>, parts: &Vec<PatternPart>, Ghost(s): Ghost<Seq<char>>)
    requires
        forall|k: int| 0 <= k < parts.len() ==> #[trigger] parts[k].wf(s),
    ensures
        final(out)@ == old(out)@ + parts_tokens(parts@),
{
    let mut k: usize = 0;
    while k < parts.len()
        invariant
            k <= parts.len(),
            forall|k: int| 0 <= k < parts.len() ==> #[trigger] parts[k].wf(s),
            out@ == old(out)@ + parts_tokens(parts@.take(k as int)),
        decreases parts.len() - k,
    {
        assert(parts@.take(k + 1).drop_last() =~= parts@.take(k as int));
        assert(parts[k as int].wf(s));
        match &parts[k] {
            PatternPart::Expression(e) => push_expression(out, e, Ghost(s)),
            PatternPart::Markup(m) => {
                push_options(out, &m.options, Ghost(s));
                push_attributes(out, &m.attributes, Ghost(s));
            },
            _ => {},
        }
        k = k + 1;
        assert(out@ =~= old(out)@ + parts_tokens(parts@.take(k as int)));
    }
    assert(parts@.take(k as int) =~= parts@);
}

fn push_matcher(out: &mut Vec<Token>, m: &Matcher, Ghost(s): Ghost<Seq<char>>)
    requires
        m.wf(s),
    ensures
        final(out)@ == old(out)@ + matcher_tokens(*m),
{
    proof {
        lemma_matcher_fits(*m, s);
    }
    out.push((Span { start: m.start, end: Location(m.start.0 + 6) }, KEYWORD));
    let ghost head = out@;
    let mut k: usize = 0;
    while k < m.selectors.len()
        invariant
            k <= m.selectors.len(),
            out@ == head + m.selectors@.take(k as int).map_values(
                |v: crate::ast::Variable| (v.span, VARIABLE),
            ),
        decreases m.selectors.len() - k,
    {
        out.push((m.selectors[k].span, VARIABLE));
        k = k + 1;
        assert(out@ =~= head + m.selectors@.take(k as int).map_values(
            |v: crate::ast::Variable| (v.span, VARIABLE),
        ));
    }
    assert(m.selectors@.take(k as int) =~= m.selectors@);
    let ghost middle = out@;
    let mut j: usize = 0;
    while j < m.variants.len()
        invariant
            j <= m.variants.len(),
            m.wf(s),
            out@ == middle + variants_tokens(m.variants@.take(j as int)),
        decreases m.variants.len() - j,
    {
        assert(m.variants@.take(j + 1).drop_last() =~= m.variants@.take(j as int));
        let v = &m.variants[j];
        assert(m.variants[j as int].wf(s));
        let keys = &v.keys;
        let ghost before_keys = out@;
        let mut i: usize = 0;
        while i < keys.len()
            invariant
                i <= keys.len(),
                forall|i: int| 0 <= i < keys.len() ==> #[trigger] keys[i].wf(s),
                out@ == before_keys + keys_tokens(keys@.take(i as int)),
            decreases keys.len() - i,
        {
            assert(keys@.take(i + 1).drop_last() =~= keys@.take(i as int));
            assert(keys[i as int].wf(s));
            if let Key::Literal(l) = &keys[i] {
                push_literal(out, l, Ghost(s));
            }
            i = i + 1;
            assert(out@ =~= before_keys + keys_tokens(keys@.take(i as int)));
        }
        assert(keys@.take(i as int) =~= keys@);
        push_parts(out, &v.pattern.pattern.parts, Ghost(s));
        j = j + 1;
        assert(out@ =~= middle + variants_tokens(m.variants@.take(j as int)));
    }
    assert(m.variants@.take(j as int) =~= m.variants@);
    assert(out@ =~= old(out)@ + matcher_tokens(*m));
}

/// The tokens of a message: see `message_tokens`.
fn tokens_of(ast: &Message, Ghost(s): Ghost<Seq<char>>) -> (r: Vec<Token>)
    requires
        ast.wf(s),
    ensures
        r@ == message_tokens(*ast),
{
    let mut out: Vec<Token> = Vec::new();
    match ast {
        Message::Simple(p) => push_parts(&mut out, &p.parts, Ghost(s)),
        Message::Complex(c) => {
            let mut k: usize = 0;
            while k < c.declarations.len()
                invariant
                    k <= c.declarations.len(),
                    c.wf(s),
                    out@ == declarations_tokens(c.declarations@.take(k as int)),
                decreases c.declarations.len() - k,
            {
                assert(c.declarations@.take(k + 1).drop_last() =~= c.declarations@.take(k as int));
                assert(c.declarations[k as int].wf(s));
                match &c.declarations[k] {
                    Declaration::InputDeclaration(x) => {
                        out.push((x.expression.variable.span, VARIABLE));
                        push_opt_annotation(&mut out, &x.expression.annotation, Ghost(s));
                        push_attributes(&mut out, &x.expression.attributes, Ghost(s));
                    },
                    Declaration::LocalDeclaration(x) => {
                        out.push((x.variable.span, VARIABLE));
                        push_expression(&mut out, &x.expression, Ghost(s));
                    },
                }
                k = k + 1;
                assert(out@ =~= declarations_tokens(c.declarations@.take(k as int)));
            }
            assert(c.declarations@.take(k as int) =~= c.declarations@);
            match &c.body {
                ComplexMessageBody::QuotedPattern(q) => push_parts(&mut out, &q.pattern.parts, Ghost(s)),
                ComplexMessageBody::Matcher(m) => push_matcher(&mut out, m, Ghost(s)),
            }
        },
    }
    assert(out@ =~= message_tokens(*ast));
    out
}

/// A token as editors receive it: its line relative to the start of the
/// previous token, its column (relative to the previous token's on the same
/// line), its length in UTF-16 units, and its kind.
#[derive(Debug, Clone, Copy, PartialEq, Eq, Structural)]
pub struct SemanticToken {
    pub delta_line: u32,
    pub delta_start: u32,
    pub length: u32,
    pub token_type: u32,
    pub token_modifiers_bitset: u32,
}

/// A line and a column.
pub type Pos = (int, int);

/// `a` is not before `b`.
pub open spec fn pos_ge(a: Pos, b: Pos) -> bool {
    a.0 > b.0 || (a.0 == b.0 && a.1 >= b.1)
}

/// The encoded token as values: deltas, length, kind and modifiers.
pub open spec fn token_model(t: SemanticToken) -> (int, int, int, int, int) {
    (
        t.delta_line as int,
        t.delta_start as int,
        t.length as int,
        t.token_type as int,
        t.token_modifiers_bitset as int,
    )
}

/// The piece of a token on `line`, from column `col` (at byte `b`), given
/// where the previous piece starts: to the end of the token on its last
/// line, else to the end of the line, line end included. It has no modifiers.
pub open spec fn piece(
    info: &SourceTextInfo,
    line: int,
    col: int,
    b: int,
    end: Pos,
    last: Pos,
    kind: u32,
) -> (int, int, int, int, int) {
    (
        line - last.0,
        if line == last.0 {
            col - last.1
        } else {
            col
        },
        if line == end.0 {
            end.1 - col
        } else {
            utf16_len(info.chars().subrange(info.index_of(b), info.line_end_index(line))) as int
        },
        kind as int,
        0,
    )
}

/// The pieces of a token from `line` on: one per line to the line of its
/// end; the later ones start at column 0.
pub open spec fn line_pieces(
    info: &SourceTextInfo,
    line: int,
    col: int,
    b: int,
    end: Pos,
    last: Pos,
    kind: u32,
) -> Seq<(int, int, int, int, int)>
    decreases end.0 - line,
{
    if line > end.0 {
        seq![]
    } else if line == end.0 {
        seq![piece(info, line, col, b, end, last, kind)]
    } else {
        seq![piece(info, line, col, b, end, last, kind)] + line_pieces(
            info,
            line + 1,
            0,
            info.line_start_byte(line + 1),
            end,
            (line, col),
            kind,
        )
    }
}

/// The pieces of a token, after one that starts at `last`.
pub open spec fn token_pieces(info: &SourceTextInfo, t: Token, last: Pos) -> Seq<(int, int, int, int, int)> {
    let s = info.utf16_pos_of(t.0.start.byte());
    let e = info.utf16_pos_of(t.0.end.byte());
    line_pieces(info, s.0, s.1, t.0.start.byte(), e, last, t.1)
}

/// Where the last piece of a token starts.
pub open spec fn token_last(info: &SourceTextInfo, t: Token, last: Pos) -> Pos {
    let s = info.utf16_pos_of(t.0.start.byte());
    let e = info.utf16_pos_of(t.0.end.byte());
    if s.0 > e.0 {
        last
    } else if s.0 == e.0 {
        s
    } else {
        (e.0, 0)
    }
}

/// A token can be encoded after one that starts at `last`: its span lies
/// between boundaries, it starts no earlier, and on one line it does not
/// end before it starts.
pub open spec fn token_ok(info: &SourceTextInfo, t: Token, last: Pos) -> bool {
    let s = info.utf16_pos_of(t.0.start.byte());
    let e = info.utf16_pos_of(t.0.end.byte());
    &&& is_boundary(info.chars(), t.0.start.byte())
    &&& is_boundary(info.chars(), t.0.end.byte())
    &&& (s.0 <= e.0 ==> pos_ge(s, last) && (s.0 == e.0 ==> e.1 >= s.1))
}

/// The encoding of the tokens: their pieces, where the last piece starts,
/// and whether every token could be encoded.
pub open spec fn encoding(info: &SourceTextInfo, toks: Seq<Token>) -> (Seq<(int, int, int, int, int)>, Pos, bool)
    decreases toks.len(),
{
    if toks.len() == 0 {
        (seq![], (0, 0), true)
    } else {
        let prev = encoding(info, toks.drop_last());
        let t = toks.last();
        (
            prev.0 + token_pieces(info, t, prev.1),
            token_last(info, t, prev.1),
            prev.2 && token_ok(info, t, prev.1),
        )
    }
}

/// The encoded tokens, as values.
pub open spec fn token_models(v: Seq<SemanticToken>) -> Seq<(int, int, int, int, int)> {
    v.map_values(|t: SemanticToken| token_model(t))
}

/// Encodes one token after one that starts at `last`; `None` where it
/// cannot be (see `token_ok`).
fn encode_token(
    info: &SourceTextInfo,
    t: Token,
    last: (u32, u32),
    out: &mut Vec<SemanticToken>,
) -> (r: Option<(u32, u32)>)
    requires
        info.wf(),
    ensures
        r is Some == token_ok(info, t, (last.0 as int, last.1 as int)),
        r matches Some(l) ==> (l.0 as int, l.1 as int) == token_last(info, t, (last.0 as int, last.1 as int))
            && token_models(final(out)@) == token_models(old(out)@) + token_pieces(
            info,
            t,
            (last.0 as int, last.1 as int),
        ),
{
    let span = t.0;
    let kind = t.1;
    if !(info.is_char_boundary(span.start) && info.is_char_boundary(span.end)) {
        return None;
    }
    let sp = info.utf16_line_col(span.start);
    let ep = info.utf16_line_col(span.end);
    proof {
        info.lemma_utf16_pos_of(span.start.byte(), sp.line as int, sp.col as int);
        info.lemma_utf16_pos_of(span.end.byte(), ep.line as int, ep.col as int);
    }
    let ghost e: Pos = (ep.line as int, ep.col as int);
    let ghost last0: Pos = (last.0 as int, last.1 as int);
    if sp.line > ep.line {
        assert(token_pieces(info, t, last0) =~= Seq::<(int, int, int, int, int)>::empty());
        assert(token_models(out@) =~= token_models(old(out)@) + token_pieces(info, t, last0));
        return Some(last);
    }
    let ordered = sp.line > last.0 || (sp.line == last.0 && sp.col >= last.1);
    if !ordered || (sp.line == ep.line && ep.col < sp.col) {
        return None;
    }
    let mut line: u32 = sp.line;
    let mut col: u32 = sp.col;
    let mut b: Location = span.start;
    let mut prev: (u32, u32) = last;
    while line < ep.line
        invariant
            info.wf(),
            sp.line <= line <= ep.line,
            e == (ep.line as int, ep.col as int),
            info.utf16_line_col_of(span.end.byte(), ep.line as int, ep.col as int),
            is_boundary(info.chars(), b.byte()),
            info.utf16_line_col_of(b.byte(), line as int, col as int),
            line == sp.line ==> col == sp.col && prev == last,
            line > sp.line ==> col == 0 && prev.0 as int == line - 1,
            pos_ge((line as int, col as int), (prev.0 as int, prev.1 as int)),
            line == ep.line ==> ep.col >= col,
            token_models(out@) + line_pieces(
                info,
                line as int,
                col as int,
                b.byte(),
                e,
                (prev.0 as int, prev.1 as int),
                kind,
            ) == token_models(old(out)@) + token_pieces(info, t, last0),
        decreases ep.line - line,
    {
        proof {
            info.lemma_utf16_pos_of(b.byte(), line as int, col as int);
            info.lemma_utf16_pos_of(span.end.byte(), ep.line as int, ep.col as int);
            info.lemma_line_starts_ordered(line as int);
        }
        let start_loc = info.utf16_loc(LineColUtf16 { line, col });
        let end_loc = info.utf16_loc(LineColUtf16 { line: line + 1, col: 0 });
        proof {
            info.law_utf16_roundtrip(b.byte(), line as int, col as int, start_loc.byte());
            info.lemma_line_start_loc(line + 1, end_loc.byte());
        }
        let length = info.utf16_len(Span { start: start_loc, end: end_loc });
        let delta_start = if line == prev.0 {
            col - prev.1
        } else {
            col
        };
        let token = SemanticToken {
            delta_line: line - prev.0,
            delta_start,
            length,
            token_type: kind,
            token_modifiers_bitset: 0,
        };
        let ghost before = out@;
        out.push(token);
        assert(token_models(out@) =~= token_models(before).push(token_model(token)));
        prev = (line, col);
        line = line + 1;
        col = 0;
        b = end_loc;
        proof {
            info.lemma_line_start_loc(line as int, end_loc.byte());
            assert(info.index_of(b.byte()) == info.line_starts()[line as int]);
            assert(info.chars().subrange(info.line_starts()[line as int], info.index_of(b.byte())) =~= Seq::<char>::empty());
            if line + 1 < info.line_count() {
                info.lemma_line_starts_ordered(line as int);
            }
            assert(info.is_line_of(line as int, b.byte()));
        }
    }
    let delta_start = if line == prev.0 {
        col - prev.1
    } else {
        col
    };
    let token = SemanticToken {
        delta_line: line - prev.0,
        delta_start,
        length: ep.col - col,
        token_type: kind,
        token_modifiers_bitset: 0,
    };
    let ghost before = out@;
    out.push(token);
    assert(token_models(out@) =~= token_models(before).push(token_model(token)));
    Some((line, col))
}

/// Encodes the tokens as editors expect them: see `encoding`; `None` where
/// some token cannot be encoded after the ones before it.
pub fn encode_tokens(info: &SourceTextInfo, tokens: &Vec<Token>) -> (r: Option<Vec<SemanticToken>>)
    requires
        info.wf(),
    ensures
        r is Some == encoding(info, tokens@).2,
        r matches Some(v) ==> token_models(v@) == encoding(info, tokens@).0,
{
    let mut out: Vec<SemanticToken> = Vec::new();
    let mut last: (u32, u32) = (0, 0);
    let mut k: usize = 0;
    while k < tokens.len()
        invariant
            k <= tokens.len(),
            info.wf(),
            encoding(info, tokens@.take(k as int)).2,
            token_models(out@) == encoding(info, tokens@.take(k as int)).0,
            (last.0 as int, last.1 as int) == encoding(info, tokens@.take(k as int)).1,
        decreases tokens.len() - k,
    {
        assert(tokens@.take(k + 1).drop_last() =~= tokens@.take(k as int));
        match encode_token(info, tokens[k], last, &mut out) {
            Some(l) => last = l,
            None => {
                proof {
                    lemma_encoding_fails(info, tokens@, k + 1);
                }
                return None;
            },
        }
        k = k + 1;
    }
    assert(tokens@.take(k as int) =~= tokens@);
    Some(out)
}

/// Once a token cannot be encoded, the encoding fails.
proof fn lemma_encoding_fails(info: &SourceTextInfo, toks: Seq<Token>, k: int)
    requires
        0 <= k <= toks.len(),
        !encoding(info, toks.take(k)).2,
    ensures
        !encoding(info, toks).2,
    decreases toks.len() - k,
{
    if k < toks.len() {
        assert(toks.take(k + 1).drop_last() =~= toks.take(k));
        lemma_encoding_fails(info, toks, k + 1);
    } else {
        assert(toks.take(k) =~= toks);
    }
}

/// The semantic tokens of a message: its tokens (see `message_tokens`),
/// encoded (see `encoding`); `None` where they cannot be encoded in order.
pub fn semantic_tokens(ast: &Message, info: &SourceTextInfo) -> (r: Option<Vec<SemanticToken>>)
    requires
        info.wf(),
        ast.wf(info.chars()),
    ensures
        r is Some == encoding(info, message_tokens(*ast)).2,
        r matches Some(v) ==> token_models(v@) == encoding(info, message_tokens(*ast)).0,
{
    let tokens = tokens_of(ast, Ghost(info.chars()));
    encode_tokens(info, &tokens)
}


/// Where an editor places the last of the encoded pieces: each piece moves
/// down by its line delta, and its start is taken from the start of the
/// piece before it on the same line, else from the start of its line.
pub open spec fn decoded_start(pieces: Seq<(int, int, int, int, int)>) -> Pos
    decreases pieces.len(),
{
    if pieces.len() == 0 {
        (0, 0)
    } else {
        let p = decoded_start(pieces.drop_last());
        let d = pieces.last();
        if d.0 == 0 {
            (p.0, p.1 + d.1)
        } else {
            (p.0 + d.0, d.1)
        }
    }
}

/// A token that starts and ends on one line.
pub open spec fn on_one_line(info: &SourceTextInfo, t: Token) -> bool {
    info.utf16_pos_of(t.0.start.byte()).0 == info.utf16_pos_of(t.0.end.byte()).0
}

/// Encoding tokens of one line each gives one piece per token, and
/// decoding the pieces so far gives back where the last token starts.
proof fn lemma_encoding_one_line(info: &SourceTextInfo, toks: Seq<Token>)
    requires
        encoding(info, toks).2,
        forall|k: int| 0 <= k < toks.len() ==> on_one_line(info, #[trigger] toks[k]),
    ensures
        encoding(info, toks).0.len() == toks.len(),
        decoded_start(encoding(info, toks).0) == encoding(info, toks).1,
        toks.len() > 0 ==> encoding(info, toks).1 == info.utf16_pos_of(toks.last().0.start.byte()),
        forall|k: int| 0 <= k < toks.len() ==> encoding(info, toks).0.take(k + 1) == encoding(
            info,
            #[trigger] toks.take(k + 1),
        ).0,
    decreases toks.len(),
{
    if toks.len() > 0 {
        let a = toks.drop_last();
        let t = toks.last();
        assert forall|k: int| 0 <= k < a.len() implies on_one_line(info, #[trigger] a[k]) by {
            assert(a[k] == toks[k]);
        }
        lemma_encoding_one_line(info, a);
        let prev = encoding(info, a);
        let st = info.utf16_pos_of(t.0.start.byte());
        let en = info.utf16_pos_of(t.0.end.byte());
        assert(on_one_line(info, toks[toks.len() - 1]));
        let pc = piece(info, st.0, st.1, t.0.start.byte() as int, en, prev.1, t.1);
        assert(token_pieces(info, t, prev.1) == seq![pc]);
        let e = encoding(info, toks);
        assert(e.0 == prev.0 + seq![pc]);
        assert(e.0.drop_last() =~= prev.0);
        assert(e.0.last() == pc);
        assert(pos_ge(st, prev.1));
        assert forall|k: int| 0 <= k < toks.len() implies e.0.take(k + 1) == encoding(
            info,
            #[trigger] toks.take(k + 1),
        ).0 by {
            if k < a.len() {
                assert(toks.take(k + 1) =~= a.take(k + 1));
                assert(e.0.take(k + 1) =~= prev.0.take(k + 1));
            } else {
                assert(toks.take(k + 1) =~= toks);
                assert(e.0.take(k + 1) =~= e.0);
            }
        }
    }
}

/// Semantic tokens decode to where the tokens stand: where each token of
/// a message lies on one line and the tokens are encoded, there is one
/// encoded token per token, and an editor that adds up the line deltas,
/// and the start deltas on a line, finds each token at its line and
/// column, with its length in UTF-16 units and its kind.
pub proof fn law_semantic_tokens_decode_to_their_positions(info: &SourceTextInfo, toks: Seq<Token>)
    requires
        encoding(info, toks).2,
        forall|k: int| 0 <= k < toks.len() ==> on_one_line(info, #[trigger] toks[k]),
    ensures
        encoding(info, toks).0.len() == toks.len(),
        forall|k: int|
            0 <= k < toks.len() ==> decoded_start(encoding(info, toks).0.take(k + 1)) == info.utf16_pos_of(
                (#[trigger] toks[k]).0.start.byte(),
            ),
        forall|k: int|
            0 <= k < toks.len() ==> (#[trigger] encoding(info, toks).0[k]).2 == info.utf16_pos_of(
                toks[k].0.end.byte(),
            ).1 - info.utf16_pos_of(toks[k].0.start.byte()).1 && encoding(info, toks).0[k].3 == toks[k].1,
{
    lemma_encoding_one_line(info, toks);
    let e = encoding(info, toks);
    assert forall|k: int| 0 <= k < toks.len() implies decoded_start(e.0.take(k + 1)) == info.utf16_pos_of(
        (#[trigger] toks[k]).0.start.byte(),
    ) by {
        let t = toks.take(k + 1);
        assert(t.len() == k + 1);
        assert forall|q: int| 0 <= q < t.len() implies on_one_line(info, #[trigger] t[q]) by {
            assert(t[q] == toks[q]);
        }
        lemma_encoding_fails_not(info, toks, k + 1);
        lemma_encoding_one_line(info, t);
        assert(t.last() == toks[k]);
    }
    assert forall|k: int| 0 <= k < toks.len() implies (#[trigger] e.0[k]).2 == info.utf16_pos_of(
        toks[k].0.end.byte(),
    ).1 - info.utf16_pos_of(toks[k].0.start.byte()).1 && e.0[k].3 == toks[k].1 by {
        let t = toks.take(k + 1);
        assert forall|q: int| 0 <= q < t.len() implies on_one_line(info, #[trigger] t[q]) by {
            assert(t[q] == toks[q]);
        }
        lemma_encoding_fails_not(info, toks, k + 1);
        lemma_encoding_one_line(info, t);
        let prev = encoding(info, t.drop_last());
        assert(t.drop_last() =~= toks.take(k));
        let tk = toks[k];
        assert(t.last() == tk);
        let st = info.utf16_pos_of(tk.0.start.byte());
        let en = info.utf16_pos_of(tk.0.end.byte());
        let pc = piece(info, st.0, st.1, tk.0.start.byte() as int, en, prev.1, tk.1);
        assert(token_pieces(info, tk, prev.1) == seq![pc]);
        assert(encoding(info, t).0 == prev.0 + seq![pc]);
        lemma_encoding_one_line(info, t.drop_last());
        assert(e.0.take(k + 1)[k] == e.0[k]);
        assert(encoding(info, t).0[k] == pc);
    }
}

/// Where the tokens are encoded, so are the first of them.
proof fn lemma_encoding_fails_not(info: &SourceTextInfo, toks: Seq<Token>, k: int)
    requires
        0 <= k <= toks.len(),
        encoding(info, toks).2,
    ensures
        encoding(info, toks.take(k)).2,
{
    if !encoding(info, toks.take(k)).2 {
        lemma_encoding_fails(info, toks, k);
    }
}

} // verus!
