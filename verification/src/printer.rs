//! Formatting of messages: a syntax tree printed back in the canonical
//! layout, with bidirectional isolation where right-to-left text would
//! otherwise reorder the syntax around it.
use vstd::prelude::*;

use crate::ast::Annotation;
use crate::ast::AnnotationExpression;
use crate::ast::Attribute;
use crate::ast::ComplexMessage;
use crate::ast::ComplexMessageBody;
use crate::ast::Declaration;
use crate::ast::Expression;
use crate::ast::FnOrMarkupOption;
use crate::ast::Identifier;
use crate::ast::Key;
use crate::ast::Literal;
use crate::ast::LiteralExpression;
use crate::ast::LiteralOrVariable;
use crate::ast::MarkupKind;
use crate::ast::Markup;
use crate::ast::Matcher;
use crate::ast::Message;
use crate::ast::Pattern;
use crate::ast::PatternPart;
use crate::ast::Quoted;
use crate::ast::QuotedPart;
use crate::ast::QuotedPattern;
use crate::ast::Variable;
use crate::ast::VariableExpression;
use crate::ast::Variant;
use crate::ast::attributes_wf;
use crate::ast::options_wf;
use crate::ast::lemma_body_span;
use crate::ast::lemma_declaration_span;
use crate::ast::lemma_pattern_part_span;
use crate::ast::span_in;
use crate::lines::is_boundary;
use crate::parser::is_bare_variable;
use crate::parser::name_run_end;
use crate::parser::parts_have_shapes;
use crate::parser::plain_run_end;
use crate::parser::text_and_variables_from;
use crate::parser::text_and_variables_shapes;
use crate::parser::variable_placeholder_end;
use crate::parser::PartShape;
use crate::strings::byte_offset;
use crate::strings::char_len_utf8;
use crate::strings::chars_of;
use crate::strings::lemma_byte_offset_end;
use crate::strings::lemma_byte_offset_mono;
use crate::strings::lemma_utf8_len_concat;
use crate::strings::lemma_utf8_len_single;
use crate::strings::push_char;
use crate::strings::utf8_len;
use crate::strings::utf8_width;
use crate::text::SourceTextInfo;
use crate::text::Location;
use crate::text::Span;
use crate::text::Spanned;

verus! {

/// FIRST STRONG ISOLATE (U+2068).
pub const FSI: char = '\u{2068}';

/// LEFT-TO-RIGHT ISOLATE (U+2066).
pub const LRI: char = '\u{2066}';

/// POP DIRECTIONAL ISOLATE (U+2069).
pub const PDI: char = '\u{2069}';

/// Whether the Unicode bidirectional algorithm, as `unicode_bidi` runs it
/// on `text` with no given paragraph level, resolves some character of it
/// to a right-to-left level.
pub uninterp spec fn bidi_has_rtl(text: Seq<char>) -> bool;

/// `unicode_bidi::BidiInfo::new(text, None).has_rtl()`. The contract names
/// the result (`bidi_has_rtl` of the characters); what the algorithm
/// computes is left unstated.
#[verifier::external_body]
fn has_rtl(text: &str) -> (r: bool)
    ensures
        r == bidi_has_rtl(text@),
{
    unicode_bidi::BidiInfo::new(text, None).has_rtl()
}

/// `s`, between FSI and PDI where it holds right-to-left text.
pub open spec fn isolated(s: Seq<char>) -> Seq<char> {
    if bidi_has_rtl(s) {
        seq![FSI] + s + seq![PDI]
    } else {
        s
    }
}

/// `n` spaces.
pub open spec fn spaces(n: int) -> Seq<char> {
    Seq::new(n as nat, |_i: int| ' ')
}

pub open spec fn identifier_text(id: Identifier) -> Seq<char> {
    match id.namespace {
        Some(ns) => isolated(ns@) + seq![':'] + isolated(id.name@),
        None => isolated(id.name@),
    }
}

pub open spec fn variable_text(v: Variable) -> Seq<char> {
    seq!['$'] + isolated(v.name@)
}

pub open spec fn quoted_part_text(p: QuotedPart) -> Seq<char> {
    match p {
        QuotedPart::Text(t) => t.content@,
        QuotedPart::Escape(e) => seq!['\\', e.escaped_char],
    }
}

pub open spec fn quoted_parts_text(parts: Seq<QuotedPart>) -> Seq<char>
    decreases parts.len(),
{
    if parts.len() == 0 {
        seq![]
    } else {
        quoted_parts_text(parts.drop_last()) + quoted_part_text(parts.last())
    }
}

/// Whether a quoted literal holds right-to-left text: its source text when
/// the source is known, else its parts as printed.
pub open spec fn quoted_has_rtl(q: Quoted, info: Option<&SourceTextInfo>) -> bool {
    match info {
        Some(i) => bidi_has_rtl(i.text_of(q.span)),
        None => bidi_has_rtl(quoted_parts_text(q.parts@)),
    }
}

pub open spec fn quoted_text(q: Quoted, info: Option<&SourceTextInfo>) -> Seq<char> {
    let body = seq!['|'] + quoted_parts_text(q.parts@) + seq!['|'];
    if quoted_has_rtl(q, info) {
        seq![FSI] + body + seq![PDI]
    } else {
        body
    }
}

pub open spec fn literal_text(l: Literal, info: Option<&SourceTextInfo>) -> Seq<char> {
    match l {
        Literal::Text(t) => isolated(t.content@),
        Literal::Quoted(q) => quoted_text(q, info),
        Literal::Number(n) => n.raw@,
    }
}

pub open spec fn literal_or_variable_text(v: LiteralOrVariable, info: Option<&SourceTextInfo>) -> Seq<
    char,
> {
    match v {
        LiteralOrVariable::Literal(l) => literal_text(l, info),
        LiteralOrVariable::Variable(x) => variable_text(x),
    }
}

pub open spec fn option_text(o: FnOrMarkupOption, info: Option<&SourceTextInfo>) -> Seq<char> {
    seq![' '] + identifier_text(o.key) + seq!['='] + literal_or_variable_text(o.value, info)
}

pub open spec fn options_text(opts: Seq<FnOrMarkupOption>, info: Option<&SourceTextInfo>) -> Seq<char>
    decreases opts.len(),
{
    if opts.len() == 0 {
        seq![]
    } else {
        options_text(opts.drop_last(), info) + option_text(opts.last(), info)
    }
}

pub open spec fn annotation_text(a: Annotation, info: Option<&SourceTextInfo>) -> Seq<char> {
    match a {
        Annotation::Function(f) => seq![':'] + identifier_text(f.id) + options_text(f.options@, info),
    }
}

pub open spec fn attribute_text(a: Attribute, info: Option<&SourceTextInfo>) -> Seq<char> {
    seq![' ', '@'] + identifier_text(a.key) + match a.value {
        Some(v) => seq!['='] + literal_text(v, info),
        None => seq![],
    }
}

pub open spec fn attributes_text(attrs: Seq<Attribute>, info: Option<&SourceTextInfo>) -> Seq<char>
    decreases attrs.len(),
{
    if attrs.len() == 0 {
        seq![]
    } else {
        attributes_text(attrs.drop_last(), info) + attribute_text(attrs.last(), info)
    }
}

/// A placeholder around `body`: a space before the annotation unless it
/// follows the opening directly, and the whole between LRI and PDI when
/// `isolate`.
pub open spec fn placeholder_text(
    body: Seq<char>,
    annotation: Option<Annotation>,
    attributes: Seq<Attribute>,
    info: Option<&SourceTextInfo>,
    isolate: bool,
) -> Seq<char> {
    let head = (if isolate {
        seq!['{', LRI]
    } else {
        seq!['{']
    }) + body;
    let ann = match annotation {
        Some(a) => (if head.last() == '{' || head.last() == LRI {
            seq![]
        } else {
            seq![' ']
        }) + annotation_text(a, info),
        None => seq![],
    };
    head + ann + attributes_text(attributes, info) + (if isolate {
        seq![PDI, '}']
    } else {
        seq!['}']
    })
}

pub open spec fn variable_expression_text(
    x: VariableExpression,
    info: Option<&SourceTextInfo>,
    isolate: bool,
) -> Seq<char> {
    placeholder_text(variable_text(x.variable), x.annotation, x.attributes@, info, isolate)
}

pub open spec fn expression_text(e: Expression, info: Option<&SourceTextInfo>, isolate: bool) -> Seq<
    char,
> {
    match e {
        Expression::LiteralExpression(x) => placeholder_text(
            literal_text(x.literal, info),
            x.annotation,
            x.attributes@,
            info,
            isolate,
        ),
        Expression::VariableExpression(x) => variable_expression_text(x, info, isolate),
        Expression::AnnotationExpression(x) => placeholder_text(
            seq![],
            Some(x.annotation),
            x.attributes@,
            info,
            isolate,
        ),
    }
}

#[verifier::opaque]
pub open spec fn markup_text(m: Markup, info: Option<&SourceTextInfo>, isolate: bool) -> Seq<char> {
    seq!['{'] + (if m.kind is Close {
        seq!['/']
    } else {
        seq!['#']
    }) + (if isolate {
        seq![LRI]
    } else {
        seq![]
    }) + identifier_text(m.id) + options_text(m.options@, info) + attributes_text(
        m.attributes@,
        info,
    ) + (if isolate {
        seq![PDI]
    } else {
        seq![]
    }) + (if m.kind is Standalone {
        seq![' ', '/']
    } else {
        seq![]
    }) + seq!['}']
}

/// Appends `s`.
fn push_str(out: &mut Vec<char>, s: &str)
    ensures
        final(out)@ == old(out)@ + s@,
{
    let cs = chars_of(s);
    let mut k: usize = 0;
    while k < cs.len()
        invariant
            k <= cs.len(),
            cs@ == s@,
            out@ == old(out)@ + cs@.take(k as int),
        decreases cs.len() - k,
    {
        out.push(cs[k]);
        k = k + 1;
        assert(out@ =~= old(out)@ + cs@.take(k as int));
    }
    assert(cs@.take(k as int) =~= cs@);
}

/// Appends the characters of `cs`.
fn push_chars(out: &mut Vec<char>, cs: &Vec<char>)
    ensures
        final(out)@ == old(out)@ + cs@,
{
    let mut k: usize = 0;
    while k < cs.len()
        invariant
            k <= cs.len(),
            out@ == old(out)@ + cs@.take(k as int),
        decreases cs.len() - k,
    {
        out.push(cs[k]);
        k = k + 1;
        assert(out@ =~= old(out)@ + cs@.take(k as int));
    }
    assert(cs@.take(k as int) =~= cs@);
}

/// Appends `n` spaces.
fn push_n(out: &mut Vec<char>, n: u128)
    ensures
        final(out)@ == old(out)@ + spaces(n as int),
{
    let mut k: u128 = 0;
    while k < n
        invariant
            k <= n,
            out@ == old(out)@ + spaces(k as int),
        decreases n - k,
    {
        out.push(' ');
        k = k + 1;
        assert(out@ =~= old(out)@ + spaces(k as int));
    }
}

/// `s`, isolated where it holds right-to-left text.
fn push_isolated_str(out: &mut Vec<char>, s: &str)
    ensures
        final(out)@ == old(out)@ + isolated(s@),
{
    let rtl = has_rtl(s);
    if rtl {
        out.push(FSI);
    }
    push_str(out, s);
    if rtl {
        out.push(PDI);
    }
    assert(out@ =~= old(out)@ + isolated(s@));
}

/// The characters of `cs` from index `from` on, as a string.
fn string_from(cs: &Vec<char>, from: usize) -> (r: String)
    requires
        from <= cs.len(),
    ensures
        r@ == cs@.subrange(from as int, cs.len() as int),
{
    let mut r = String::new();
    let mut k: usize = from;
    while k < cs.len()
        invariant
            from <= k <= cs.len(),
            r@ == cs@.subrange(from as int, k as int),
        decreases cs.len() - k,
    {
        push_char(&mut r, cs[k]);
        k = k + 1;
        assert(r@ =~= cs@.subrange(from as int, k as int));
    }
    r
}

/// The number of bytes that encode `cs` in UTF-8.
fn utf8_len_of(cs: &Vec<char>) -> (r: u128)
    ensures
        r == utf8_len(cs@),
        r <= 4 * cs.len(),
{
    let mut n: u128 = 0;
    let mut k: usize = 0;
    while k < cs.len()
        invariant
            k <= cs.len(),
            n == utf8_len(cs@.take(k as int)),
            n <= 4 * k,
        decreases cs.len() - k,
    {
        proof {
            assert(cs@.take(k + 1) =~= cs@.take(k as int) + seq![cs@[k as int]]);
            lemma_utf8_len_concat(cs@.take(k as int), seq![cs@[k as int]]);
            lemma_utf8_len_single(cs@[k as int]);
        }
        n = n + char_len_utf8(cs[k]) as u128;
        k = k + 1;
    }
    assert(cs@.take(k as int) =~= cs@);
    n
}

fn push_identifier(out: &mut Vec<char>, id: &Identifier)
    ensures
        final(out)@ == old(out)@ + identifier_text(*id),
{
    if let Some(namespace) = id.namespace {
        push_isolated_str(out, namespace);
        out.push(':');
    }
    push_isolated_str(out, id.name);
    assert(out@ =~= old(out)@ + identifier_text(*id));
}

fn push_variable(out: &mut Vec<char>, v: &Variable)
    ensures
        final(out)@ == old(out)@ + variable_text(*v),
{
    out.push('$');
    push_isolated_str(out, v.name);
    assert(out@ =~= old(out)@ + variable_text(*v));
}

fn push_quoted_parts(out: &mut Vec<char>, parts: &Vec<QuotedPart>)
    ensures
        final(out)@ == old(out)@ + quoted_parts_text(parts@),
{
    let mut k: usize = 0;
    while k < parts.len()
        invariant
            k <= parts.len(),
            out@ == old(out)@ + quoted_parts_text(parts@.take(k as int)),
        decreases parts.len() - k,
    {
        assert(parts@.take(k + 1).drop_last() =~= parts@.take(k as int));
        match &parts[k] {
            QuotedPart::Text(t) => push_str(out, t.content),
            QuotedPart::Escape(e) => {
                out.push('\\');
                out.push(e.escaped_char);
            },
        }
        k = k + 1;
        assert(out@ =~= old(out)@ + quoted_parts_text(parts@.take(k as int)));
    }
    assert(parts@.take(k as int) =~= parts@);
}

/// Whether a quoted literal holds right-to-left text.
fn quoted_literal_has_rtl(q: &Quoted, info: Option<&SourceTextInfo>) -> (r: bool)
    requires
        info matches Some(i) ==> i.wf() && q.wf(i.chars()),
    ensures
        r == quoted_has_rtl(*q, info),
{
    match info {
        Some(i) => has_rtl(i.text(q.span)),
        None => {
            let mut text: Vec<char> = Vec::new();
            push_quoted_parts(&mut text, &q.parts);
            let s = string_from(&text, 0);
            assert(text@.subrange(0, text@.len() as int) =~= text@);
            has_rtl(s.as_str())
        },
    }
}

fn push_quoted(out: &mut Vec<char>, q: &Quoted, info: Option<&SourceTextInfo>)
    requires
        info matches Some(i) ==> i.wf() && q.wf(i.chars()),
    ensures
        final(out)@ == old(out)@ + quoted_text(*q, info),
{
    let rtl = quoted_literal_has_rtl(q, info);
    if rtl {
        out.push(FSI);
    }
    out.push('|');
    push_quoted_parts(out, &q.parts);
    out.push('|');
    if rtl {
        out.push(PDI);
    }
    assert(out@ =~= old(out)@ + quoted_text(*q, info));
}

fn push_literal(out: &mut Vec<char>, l: &Literal, info: Option<&SourceTextInfo>)
    requires
        info matches Some(i) ==> i.wf() && l.wf(i.chars()),
    ensures
        final(out)@ == old(out)@ + literal_text(*l, info),
{
    match l {
        Literal::Text(t) => push_isolated_str(out, t.content),
        Literal::Quoted(q) => push_quoted(out, q, info),
        Literal::Number(n) => push_str(out, n.raw),
    }
}

fn push_literal_or_variable(out: &mut Vec<char>, v: &LiteralOrVariable, info: Option<&SourceTextInfo>)
    requires
        info matches Some(i) ==> i.wf() && v.wf(i.chars()),
    ensures
        final(out)@ == old(out)@ + literal_or_variable_text(*v, info),
{
    match v {
        LiteralOrVariable::Literal(l) => push_literal(out, l, info),
        LiteralOrVariable::Variable(x) => push_variable(out, x),
    }
}

fn push_options(out: &mut Vec<char>, opts: &Vec<FnOrMarkupOption>, info: Option<&SourceTextInfo>)
    requires
        info matches Some(i) ==> i.wf() && forall|k: int|
            0 <= k < opts.len() ==> #[trigger] opts[k].wf(i.chars()),
    ensures
        final(out)@ == old(out)@ + options_text(opts@, info),
{
    let mut k: usize = 0;
    while k < opts.len()
        invariant
            k <= opts.len(),
            info matches Some(i) ==> i.wf() && forall|k: int|
                0 <= k < opts.len() ==> #[trigger] opts[k].wf(i.chars()),
            out@ == old(out)@ + options_text(opts@.take(k as int), info),
        decreases opts.len() - k,
    {
        assert(opts@.take(k + 1).drop_last() =~= opts@.take(k as int));
        let o = &opts[k];
        proof {
            if let Some(i) = info {
                assert(opts[k as int].wf(i.chars()));
            }
        }
        out.push(' ');
        push_identifier(out, &o.key);
        out.push('=');
        push_literal_or_variable(out, &o.value, info);
        k = k + 1;
        assert(out@ =~= old(out)@ + options_text(opts@.take(k as int), info));
    }
    assert(opts@.take(k as int) =~= opts@);
}

fn push_annotation(out: &mut Vec<char>, a: &Annotation, info: Option<&SourceTextInfo>)
    requires
        info matches Some(i) ==> i.wf() && a.wf(i.chars()),
    ensures
        final(out)@ == old(out)@ + annotation_text(*a, info),
{
    match a {
        Annotation::Function(f) => {
            out.push(':');
            push_identifier(out, &f.id);
            push_options(out, &f.options, info);
            assert(out@ =~= old(out)@ + annotation_text(*a, info));
        },
    }
}

fn push_attributes(out: &mut Vec<char>, attrs: &Vec<Attribute>, info: Option<&SourceTextInfo>)
    requires
        info matches Some(i) ==> i.wf() && forall|k: int|
            0 <= k < attrs.len() ==> #[trigger] attrs[k].wf(i.chars()),
    ensures
        final(out)@ == old(out)@ + attributes_text(attrs@, info),
{
    let mut k: usize = 0;
    while k < attrs.len()
        invariant
            k <= attrs.len(),
            info matches Some(i) ==> i.wf() && forall|k: int|
                0 <= k < attrs.len() ==> #[trigger] attrs[k].wf(i.chars()),
            out@ == old(out)@ + attributes_text(attrs@.take(k as int), info),
        decreases attrs.len() - k,
    {
        assert(attrs@.take(k + 1).drop_last() =~= attrs@.take(k as int));
        let a = &attrs[k];
        proof {
            if let Some(i) = info {
                assert(attrs[k as int].wf(i.chars()));
            }
        }
        out.push(' ');
        out.push('@');
        push_identifier(out, &a.key);
        if let Some(value) = &a.value {
            out.push('=');
            push_literal(out, value, info);
        }
        k = k + 1;
        assert(out@ =~= old(out)@ + attributes_text(attrs@.take(k as int), info));
    }
    assert(attrs@.take(k as int) =~= attrs@);
}

/// The opening of a markup placeholder, up to its identifier.
pub open spec fn markup_open(m: Markup, isolate: bool) -> Seq<char> {
    seq!['{'] + (if m.kind is Close {
        seq!['/']
    } else {
        seq!['#']
    }) + (if isolate {
        seq![LRI]
    } else {
        seq![]
    })
}

/// The closing of a markup placeholder, after its attributes.
pub open spec fn markup_close(m: Markup, isolate: bool) -> Seq<char> {
    (if isolate {
        seq![PDI]
    } else {
        seq![]
    }) + (if m.kind is Standalone {
        seq![' ', '/']
    } else {
        seq![]
    }) + seq!['}']
}

fn push_markup_open(out: &mut Vec<char>, m: &Markup, isolate: bool)
    ensures
        final(out)@ == old(out)@ + markup_open(*m, isolate),
{
    out.push('{');
    if m.kind == MarkupKind::Close {
        out.push('/');
    } else {
        out.push('#');
    }
    if isolate {
        out.push(LRI);
    }
    assert(out@ =~= old(out)@ + markup_open(*m, isolate));
}

fn push_markup_close(out: &mut Vec<char>, m: &Markup, isolate: bool)
    ensures
        final(out)@ == old(out)@ + markup_close(*m, isolate),
{
    if isolate {
        out.push(PDI);
    }
    if m.kind == MarkupKind::Standalone {
        out.push(' ');
        out.push('/');
    }
    out.push('}');
    assert(out@ =~= old(out)@ + markup_close(*m, isolate));
}

fn push_markup(out: &mut Vec<char>, m: &Markup, info: Option<&SourceTextInfo>, isolate: bool)
    requires
        info matches Some(i) ==> i.wf() && options_wf(m.options@, i.chars()) && attributes_wf(
            m.attributes@,
            i.chars(),
        ),
    ensures
        final(out)@ == old(out)@ + markup_text(*m, info, isolate),
{
    push_markup_open(out, m, isolate);
    let ghost after_open = out@;
    push_identifier(out, &m.id);
    push_options(out, &m.options, info);
    push_attributes(out, &m.attributes, info);
    let ghost middle = identifier_text(m.id) + options_text(m.options@, info) + attributes_text(
        m.attributes@,
        info,
    );
    assert(out@ =~= after_open + middle);
    let ghost after_middle = out@;
    push_markup_close(out, m, isolate);
    assert(markup_text(*m, info, isolate) == markup_open(*m, isolate) + middle + markup_close(
        *m,
        isolate,
    )) by {
        reveal(markup_text);
        assert(markup_text(*m, info, isolate) =~= markup_open(*m, isolate) + middle + markup_close(
            *m,
            isolate,
        ));
    }
    assert(out@ =~= old(out)@ + markup_text(*m, info, isolate));
}

/// What has been printed, and the index in it after the last placeholder:
/// the text from there on decides whether the next placeholder is isolated.
pub type PrintState = (Seq<char>, int);

/// Whether the text since the last placeholder holds right-to-left text.
pub open spec fn needs_isolation(st: PrintState) -> bool {
    bidi_has_rtl(st.0.subrange(st.1, st.0.len() as int))
}

/// `text` printed as a placeholder: later text is measured from its end.
pub open spec fn after_placeholder(st: PrintState, text: Seq<char>) -> PrintState {
    (st.0 + text, st.0.len() + text.len() as int)
}

pub open spec fn part_state(st: PrintState, p: PatternPart, info: Option<&SourceTextInfo>) -> PrintState {
    match p {
        PatternPart::Text(t) => (st.0 + t.content@, st.1),
        PatternPart::Escape(e) => (st.0 + seq!['\\', e.escaped_char], st.1),
        PatternPart::Expression(e) => after_placeholder(
            st,
            expression_text(e, info, needs_isolation(st)),
        ),
        PatternPart::Markup(m) => after_placeholder(st, markup_text(m, info, needs_isolation(st))),
    }
}

pub open spec fn parts_state(st: PrintState, parts: Seq<PatternPart>, info: Option<&SourceTextInfo>) -> PrintState
    decreases parts.len(),
{
    if parts.len() == 0 {
        st
    } else {
        part_state(parts_state(st, parts.drop_last(), info), parts.last(), info)
    }
}

/// Over the source text: whether a run of text and escapes that an
/// expression or markup ends holds right-to-left text, and the span of the
/// run still open at the end.
pub open spec fn source_runs_rtl(parts: Seq<PatternPart>, info: &SourceTextInfo) -> (bool, Option<Span>)
    decreases parts.len(),
{
    if parts.len() == 0 {
        (false, None)
    } else {
        let prev = source_runs_rtl(parts.drop_last(), info);
        let p = parts.last();
        if p is Text || p is Escape {
            let sp = p.spec_span();
            (
                prev.0,
                Some(
                    match prev.1 {
                        Some(r) => Span { start: r.start, end: sp.end },
                        None => sp,
                    },
                ),
            )
        } else {
            (prev.0 || (prev.1 matches Some(r) && bidi_has_rtl(info.text_of(r))), None)
        }
    }
}

/// Over the printed parts: whether a run of text and escapes that an
/// expression or markup ends holds right-to-left text, and the text of the
/// run still open at the end.
pub open spec fn text_runs_rtl(parts: Seq<PatternPart>) -> (bool, Seq<char>)
    decreases parts.len(),
{
    if parts.len() == 0 {
        (false, seq![])
    } else {
        let prev = text_runs_rtl(parts.drop_last());
        match parts.last() {
            PatternPart::Text(t) => (prev.0, prev.1 + t.content@),
            PatternPart::Escape(e) => (prev.0, prev.1 + seq!['\\', e.escaped_char]),
            _ => (prev.0 || bidi_has_rtl(prev.1), seq![]),
        }
    }
}

/// Whether some run of text and escapes of the pattern holds right-to-left
/// text: as it stands in the source when the source is known, else as
/// printed.
pub open spec fn pattern_rtl(p: Pattern, info: Option<&SourceTextInfo>) -> bool {
    match info {
        Some(i) => {
            let r = source_runs_rtl(p.parts@, i);
            r.0 || (r.1 matches Some(sp) && bidi_has_rtl(i.text_of(sp)))
        },
        None => {
            let r = text_runs_rtl(p.parts@);
            r.0 || bidi_has_rtl(r.1)
        },
    }
}

/// A quoted pattern: `{{`, the parts, `}}`, between FSI and PDI where the
/// pattern holds right-to-left text.
pub open spec fn quoted_pattern_state(st: PrintState, q: QuotedPattern, info: Option<&SourceTextInfo>) -> PrintState {
    let rtl = pattern_rtl(q.pattern, info);
    let opened = (st.0 + (if rtl {
        seq![FSI]
    } else {
        seq![]
    }) + seq!['{', '{'], st.1);
    let inner = parts_state(opened, q.pattern.parts@, info);
    (inner.0 + seq!['}', '}'] + (if rtl {
        seq![PDI]
    } else {
        seq![]
    }), inner.1)
}

pub open spec fn key_text(k: Key, info: Option<&SourceTextInfo>) -> Seq<char> {
    match k {
        Key::Literal(l) => literal_text(l, info),
        Key::Star(_) => seq!['*'],
    }
}

/// The number of columns of a matcher: its selectors, or the keys of its
/// widest variant.
pub open spec fn column_count(m: Matcher) -> int {
    max_keys(m.variants@, m.selectors.len() as int)
}

pub open spec fn max_keys(vs: Seq<Variant>, init: int) -> int
    decreases vs.len(),
{
    if vs.len() == 0 {
        init
    } else {
        let r = max_keys(vs.drop_last(), init);
        if vs.last().keys.len() > r {
            vs.last().keys.len() as int
        } else {
            r
        }
    }
}

/// The key of variant `j` in column `i`, as printed; nothing where the
/// variant has fewer keys.
pub open spec fn cell_text(m: Matcher, j: int, i: int, info: Option<&SourceTextInfo>) -> Seq<char> {
    if i < m.variants[j].keys.len() {
        key_text(m.variants[j].keys[i], info)
    } else {
        seq![]
    }
}

/// The width in bytes of column `i` over the first `n` variants: the
/// selector with its `$`, and the keys.
pub open spec fn column_width(m: Matcher, i: int, info: Option<&SourceTextInfo>, n: int) -> int
    decreases n,
{
    if n <= 0 {
        if i < m.selectors.len() {
            utf8_len(m.selectors[i].name@) + 1int
        } else {
            0
        }
    } else {
        let w = column_width(m, i, info, n - 1);
        let c = utf8_len(cell_text(m, n - 1, i, info)) as int;
        if c > w {
            c
        } else {
            w
        }
    }
}

/// The width of column `i` over all the variants.
pub open spec fn width(m: Matcher, i: int, info: Option<&SourceTextInfo>) -> int {
    column_width(m, i, info, m.variants.len() as int)
}

/// The first `n` selectors, each padded to its column but the last column.
pub open spec fn selectors_text(m: Matcher, info: Option<&SourceTextInfo>, n: int) -> Seq<char>
    decreases n,
{
    if n <= 0 {
        seq![]
    } else {
        let i = n - 1;
        let v = m.selectors[i];
        selectors_text(m, info, n - 1) + variable_text(v) + (if i < column_count(m) - 1 {
            spaces(width(m, i, info) - utf8_len(v.name@))
        } else {
            seq![]
        })
    }
}

/// The first `n` keys of variant `j`, each padded to its column and
/// followed by a space.
pub open spec fn keys_text(m: Matcher, j: int, info: Option<&SourceTextInfo>, n: int) -> Seq<char>
    decreases n,
{
    if n <= 0 {
        seq![]
    } else {
        let i = n - 1;
        let k = cell_text(m, j, i, info);
        keys_text(m, j, info, n - 1) + k + spaces(width(m, i, info) - utf8_len(k)) + seq![' ']
    }
}

/// `.match`, the selectors on the same line where there is one column and
/// on the next line otherwise.
pub open spec fn matcher_head(m: Matcher, info: Option<&SourceTextInfo>) -> Seq<char> {
    seq!['.', 'm', 'a', 't', 'c', 'h'] + (if column_count(m) > 1 {
        seq!['\n', ' ', ' ']
    } else {
        seq![' ']
    }) + selectors_text(m, info, m.selectors.len() as int)
}

/// The first `n` variants, each on a line of its own.
pub open spec fn variants_state(st: PrintState, m: Matcher, info: Option<&SourceTextInfo>, n: int) -> PrintState
    decreases n,
{
    if n <= 0 {
        st
    } else {
        let prev = variants_state(st, m, info, n - 1);
        let line = seq!['\n', ' ', ' '] + keys_text(m, n - 1, info, column_count(m));
        quoted_pattern_state((prev.0 + line, prev.1), m.variants[n - 1].pattern, info)
    }
}

pub open spec fn matcher_state(st: PrintState, m: Matcher, info: Option<&SourceTextInfo>) -> PrintState {
    variants_state((st.0 + matcher_head(m, info), st.1), m, info, m.variants.len() as int)
}

pub open spec fn declaration_state(st: PrintState, d: Declaration, info: Option<&SourceTextInfo>) -> PrintState {
    match d {
        Declaration::InputDeclaration(x) => {
            let st1 = (st.0 + seq!['.', 'i', 'n', 'p', 'u', 't', ' '], st.1);
            after_placeholder(st1, variable_expression_text(x.expression, info, needs_isolation(st1)))
        },
        Declaration::LocalDeclaration(x) => {
            let st1 = (st.0 + seq!['.', 'l', 'o', 'c', 'a', 'l', ' '] + variable_text(x.variable) + seq![
                ' ',
                '=',
                ' ',
            ], st.1);
            after_placeholder(st1, expression_text(x.expression, info, needs_isolation(st1)))
        },
    }
}

/// Whether an empty line stands between `start` and `end` in the source:
/// `default` when the source is not known.
pub open spec fn had_empty_line(
    info: Option<&SourceTextInfo>,
    start: int,
    end: int,
    default: bool,
) -> bool {
    match info {
        Some(i) => i.line_of(end) > i.line_of(start) + 1,
        None => default,
    }
}

/// The first `n` declarations, each on its own line; an empty line follows
/// one where the source had one before what comes next, and where the
/// source is not known, after the last.
pub open spec fn declarations_state(st: PrintState, c: ComplexMessage, info: Option<&SourceTextInfo>, n: int) -> PrintState
    decreases n,
{
    if n <= 0 {
        st
    } else {
        let prev = declarations_state(st, c, info, n - 1);
        let d = c.declarations[n - 1];
        let st1 = declaration_state(prev, d, info);
        let last = n >= c.declarations.len();
        let next_start = if last {
            c.body.spec_span().start
        } else {
            c.declarations[n].spec_span().start
        };
        let gap = if had_empty_line(info, d.spec_span().end.byte(), next_start.byte(), last) {
            seq!['\n', '\n']
        } else {
            seq!['\n']
        };
        (st1.0 + gap, st1.1)
    }
}

pub open spec fn body_state(st: PrintState, b: ComplexMessageBody, info: Option<&SourceTextInfo>) -> PrintState {
    match b {
        ComplexMessageBody::QuotedPattern(q) => quoted_pattern_state(st, q, info),
        ComplexMessageBody::Matcher(m) => matcher_state(st, m, info),
    }
}

pub open spec fn complex_state(st: PrintState, c: ComplexMessage, info: Option<&SourceTextInfo>) -> PrintState {
    let st1 = declarations_state(st, c, info, c.declarations.len() as int);
    let st2 = body_state(st1, c.body, info);
    (st2.0 + seq!['\n'], st2.1)
}

pub open spec fn message_state(st: PrintState, m: Message, info: Option<&SourceTextInfo>) -> PrintState {
    match m {
        Message::Simple(p) => parts_state(st, p.parts@, info),
        Message::Complex(c) => complex_state(st, c, info),
    }
}

/// The formatted text of a message.
pub open spec fn printed(m: Message, info: Option<&SourceTextInfo>) -> Seq<char> {
    message_state((seq![], 0), m, info).0
}

/// A byte offset on a boundary of `s` is within its encoding.
proof fn lemma_boundary_le(s: Seq<char>, b: int)
    requires
        is_boundary(s, b),
    ensures
        0 <= b <= utf8_len(s),
{
    let i = choose|i: int| 0 <= i <= s.len() && #[trigger] byte_offset(s, i) == b;
    lemma_byte_offset_mono(s, i, s.len() as int);
    lemma_byte_offset_end(s);
}

/// Whether some run of text and escapes of the pattern holds right-to-left
/// text; see `pattern_rtl`.
fn pattern_has_rtl(p: &Pattern, info: Option<&SourceTextInfo>) -> (r: bool)
    requires
        info matches Some(i) ==> i.wf() && p.wf(i.chars()) && p.fits(),
    ensures
        r == pattern_rtl(*p, info),
{
    let parts = &p.parts;
    match info {
        Some(i) => {
            let ghost s = i.chars();
            let mut run: Option<Span> = None;
            let mut k: usize = 0;
            while k < parts.len()
                invariant
                    k <= parts.len(),
                    info == Some(i),
                    i.wf(),
                    p.wf(s),
                    p.fits(),
                    s == i.chars(),
                    parts == &p.parts,
                    source_runs_rtl(parts@.take(k as int), i) == (false, run),
                    run matches Some(sp) ==> span_in(s, sp) && k > 0 && sp.end
                        == parts@[k - 1].spec_span().end,
                decreases parts.len() - k,
            {
                assert(parts@.take(k + 1).drop_last() =~= parts@.take(k as int));
                assert(parts@.take(k + 1).last() == parts@[k as int]);
                let part = &parts[k];
                assert(part.wf(s));
                assert(part.fits());
                proof {
                    lemma_pattern_part_span(*part, s);
                }
                match part {
                    PatternPart::Text(_) | PatternPart::Escape(_) => {
                        let sp = part.span();
                        run = match run {
                            Some(r) => {
                                proof {
                                    assert(parts@[k - 1].spec_span().end.byte()
                                        <= parts@[k as int].spec_span().start.byte());
                                }
                                Some(Span { start: r.start, end: sp.end })
                            },
                            None => Some(sp),
                        };
                    },
                    _ => {
                        if let Some(r) = run {
                            if has_rtl(i.text(r)) {
                                proof {
                                    assert(source_runs_rtl(parts@.take(k + 1), i).0);
                                    lemma_runs_found(parts@, i, (k + 1) as int);
                                    assert(source_runs_rtl(p.parts@, i).0);
                                }
                                return true;
                            }
                        }
                        run = None;
                    },
                }
                k = k + 1;
            }
            assert(parts@.take(k as int) =~= parts@);
            match run {
                Some(r) => has_rtl(i.text(r)),
                None => false,
            }
        },
        None => {
            let mut run: Vec<char> = Vec::new();
            let mut k: usize = 0;
            while k < parts.len()
                invariant
                    k <= parts.len(),
                    info is None,
                    parts == &p.parts,
                    text_runs_rtl(parts@.take(k as int)) == (false, run@),
                decreases parts.len() - k,
            {
                assert(parts@.take(k + 1).drop_last() =~= parts@.take(k as int));
                assert(parts@.take(k + 1).last() == parts@[k as int]);
                match &parts[k] {
                    PatternPart::Text(t) => push_str(&mut run, t.content),
                    PatternPart::Escape(e) => {
                        run.push('\\');
                        run.push(e.escaped_char);
                    },
                    _ => {
                        let text = string_from(&run, 0);
                        assert(run@.subrange(0, run@.len() as int) =~= run@);
                        if has_rtl(text.as_str()) {
                            proof {
                                assert(text_runs_rtl(parts@.take(k + 1)).0);
                                lemma_text_runs_found(parts@, (k + 1) as int);
                                assert(text_runs_rtl(p.parts@).0);
                            }
                            return true;
                        }
                        run = Vec::new();
                    },
                }
                assert(text_runs_rtl(parts@.take(k + 1)).1 =~= run@);
                k = k + 1;
            }
            assert(parts@.take(k as int) =~= parts@);
            let text = string_from(&run, 0);
            assert(run@.subrange(0, run@.len() as int) =~= run@);
            has_rtl(text.as_str())
        },
    }
}

/// Once a run over the source has been found to hold right-to-left text,
/// it stays found.
proof fn lemma_runs_found(parts: Seq<PatternPart>, i: &SourceTextInfo, k: int)
    requires
        0 <= k <= parts.len(),
        source_runs_rtl(parts.take(k), i).0,
    ensures
        source_runs_rtl(parts, i).0,
    decreases parts.len() - k,
{
    if k < parts.len() {
        assert(parts.take(k + 1).drop_last() =~= parts.take(k));
        lemma_runs_found(parts, i, k + 1);
    } else {
        assert(parts.take(k) =~= parts);
    }
}

/// Once a printed run has been found to hold right-to-left text, it stays
/// found.
proof fn lemma_text_runs_found(parts: Seq<PatternPart>, k: int)
    requires
        0 <= k <= parts.len(),
        text_runs_rtl(parts.take(k)).0,
    ensures
        text_runs_rtl(parts).0,
    decreases parts.len() - k,
{
    if k < parts.len() {
        assert(parts.take(k + 1).drop_last() =~= parts.take(k));
        lemma_text_runs_found(parts, k + 1);
    } else {
        assert(parts.take(k) =~= parts);
    }
}

/// Prints a message back in the canonical layout.
pub struct Printer<'ast, 'text> {
    ast: &'ast Message<'text>,
    info: Option<&'text SourceTextInfo<'text>>,
    out: Vec<char>,
    text_last_isolated: usize,
}

impl<'ast, 'text> Printer<'ast, 'text> {
    /// What has been printed, and where the text since the last
    /// placeholder starts.
    pub closed spec fn state(&self) -> PrintState {
        (self.out@, self.text_last_isolated as int)
    }

    /// The message to print.
    pub closed spec fn message(&self) -> Message<'text> {
        *self.ast
    }

    /// The information on the message's source text, if given.
    pub closed spec fn source_info(&self) -> Option<&'text SourceTextInfo<'text>> {
        self.info
    }

    /// The state is consistent, and the information, where given, is that
    /// of the message's text.
    pub closed spec fn ready(&self) -> bool {
        &&& self.text_last_isolated <= self.out.len()
        &&& self.info matches Some(i) ==> i.wf() && self.ast.wf(i.chars())
    }

    /// The message and information are kept, and the state stays
    /// consistent.
    closed spec fn keeps(&self, before: &Self) -> bool {
        &&& self.ast == before.ast
        &&& self.info == before.info
        &&& self.text_last_isolated <= self.out.len()
    }

    /// A printer of `ast`, with the information on its source text if given.
    pub fn new(ast: &'ast Message<'text>, info: Option<&'text SourceTextInfo<'text>>) -> (r: Self)
        ensures
            r.message() == *ast,
            r.source_info() == info,
            r.state() == (Seq::<char>::empty(), 0int),
    {
        Printer { ast, info, out: Vec::new(), text_last_isolated: 0 }
    }

    /// Whether the text since the last placeholder holds right-to-left text.
    fn isolation_needed(&self) -> (r: bool)
        requires
            self.text_last_isolated <= self.out.len(),
        ensures
            r == needs_isolation(self.state()),
    {
        let tail = string_from(&self.out, self.text_last_isolated);
        has_rtl(tail.as_str())
    }

    /// The annotation (after a space unless right after the opening), the
    /// attributes and the closing of a placeholder.
    fn finish_placeholder(
        &mut self,
        annotation: Option<&Annotation>,
        attributes: &Vec<Attribute>,
        isolate: bool,
    )
        requires
            old(self).out.len() > 0,
            old(self).text_last_isolated <= old(self).out.len(),
            old(self).info matches Some(i) ==> i.wf() && (annotation matches Some(a) ==> a.wf(
                i.chars(),
            )) && forall|k: int| 0 <= k < attributes.len() ==> #[trigger] attributes[k].wf(i.chars()),
        ensures
            final(self).keeps(old(self)),
            final(self).out@ == old(self).out@ + (match annotation {
                Some(a) => (if old(self).out@.last() == '{' || old(self).out@.last() == LRI {
                    seq![]
                } else {
                    seq![' ']
                }) + annotation_text(*a, old(self).info),
                None => seq![],
            }) + attributes_text(attributes@, old(self).info) + (if isolate {
                seq![PDI, '}']
            } else {
                seq!['}']
            }),
            final(self).text_last_isolated == final(self).out.len(),
    {
        let ghost before = self.out@;
        let ghost ann = match annotation {
            Some(a) => (if before.last() == '{' || before.last() == LRI {
                seq![]
            } else {
                seq![' ']
            }) + annotation_text(*a, self.info),
            None => seq![],
        };
        if let Some(a) = annotation {
            let last = self.out[self.out.len() - 1];
            if !(last == '{' || last == LRI) {
                self.out.push(' ');
            }
            push_annotation(&mut self.out, a, self.info);
        }
        assert(self.out@ =~= before + ann);
        push_attributes(&mut self.out, attributes, self.info);
        if isolate {
            self.out.push(PDI);
        }
        self.out.push('}');
        self.text_last_isolated = self.out.len();
    }

    /// A variable expression as a placeholder.
    fn print_variable_expression(&mut self, x: &VariableExpression)
        requires
            old(self).text_last_isolated <= old(self).out.len(),
            old(self).info matches Some(i) ==> i.wf() && x.wf(i.chars()),
        ensures
            final(self).keeps(old(self)),
            final(self).state() == after_placeholder(
                old(self).state(),
                variable_expression_text(*x, old(self).info, needs_isolation(old(self).state())),
            ),
    {
        let isolate = self.isolation_needed();
        let ghost before = self.out@;
        let ghost head = (if isolate {
            seq!['{', LRI]
        } else {
            seq!['{']
        }) + variable_text(x.variable);
        self.out.push('{');
        if isolate {
            self.out.push(LRI);
        }
        push_variable(&mut self.out, &x.variable);
        assert(self.out@ =~= before + head);
        assert(self.out@.last() == head.last());
        let annotation = match &x.annotation {
            Some(a) => Some(a),
            None => None,
        };
        self.finish_placeholder(annotation, &x.attributes, isolate);
        assert(self.out@ =~= before + variable_expression_text(*x, self.info, isolate));
    }

    /// A literal expression as a placeholder.
    fn print_literal_expression(&mut self, x: &LiteralExpression)
        requires
            old(self).text_last_isolated <= old(self).out.len(),
            old(self).info matches Some(i) ==> i.wf() && x.wf(i.chars()),
        ensures
            final(self).keeps(old(self)),
            final(self).state() == after_placeholder(
                old(self).state(),
                placeholder_text(
                    literal_text(x.literal, old(self).info),
                    x.annotation,
                    x.attributes@,
                    old(self).info,
                    needs_isolation(old(self).state()),
                ),
            ),
    {
        let isolate = self.isolation_needed();
        let ghost before = self.out@;
        let ghost head = (if isolate {
            seq!['{', LRI]
        } else {
            seq!['{']
        }) + literal_text(x.literal, self.info);
        self.out.push('{');
        if isolate {
            self.out.push(LRI);
        }
        push_literal(&mut self.out, &x.literal, self.info);
        assert(self.out@ =~= before + head);
        assert(self.out@.last() == head.last());
        let annotation = match &x.annotation {
            Some(a) => Some(a),
            None => None,
        };
        self.finish_placeholder(annotation, &x.attributes, isolate);
        assert(self.out@ =~= before + placeholder_text(
            literal_text(x.literal, self.info),
            x.annotation,
            x.attributes@,
            self.info,
            isolate,
        ));
    }

    /// An annotation expression as a placeholder.
    fn print_annotation_expression(&mut self, x: &AnnotationExpression)
        requires
            old(self).text_last_isolated <= old(self).out.len(),
            old(self).info matches Some(i) ==> i.wf() && x.wf(i.chars()),
        ensures
            final(self).keeps(old(self)),
            final(self).state() == after_placeholder(
                old(self).state(),
                placeholder_text(
                    seq![],
                    Some(x.annotation),
                    x.attributes@,
                    old(self).info,
                    needs_isolation(old(self).state()),
                ),
            ),
    {
        let isolate = self.isolation_needed();
        let ghost before = self.out@;
        let ghost head = if isolate {
            seq!['{', LRI]
        } else {
            seq!['{']
        };
        self.out.push('{');
        if isolate {
            self.out.push(LRI);
        }
        assert(self.out@ =~= before + head);
        assert(self.out@.last() == head.last());
        self.finish_placeholder(Some(&x.annotation), &x.attributes, isolate);
        assert(head + Seq::<char>::empty() =~= head);
        assert(self.out@ =~= before + placeholder_text(
            seq![],
            Some(x.annotation),
            x.attributes@,
            self.info,
            isolate,
        ));
    }

    /// An expression as a placeholder.
    fn print_expression(&mut self, e: &Expression)
        requires
            old(self).text_last_isolated <= old(self).out.len(),
            old(self).info matches Some(i) ==> i.wf() && e.wf(i.chars()),
        ensures
            final(self).keeps(old(self)),
            final(self).state() == after_placeholder(
                old(self).state(),
                expression_text(*e, old(self).info, needs_isolation(old(self).state())),
            ),
    {
        match e {
            Expression::VariableExpression(x) => self.print_variable_expression(x),
            Expression::LiteralExpression(x) => self.print_literal_expression(x),
            Expression::AnnotationExpression(x) => self.print_annotation_expression(x),
        }
    }

    /// A markup placeholder.
    fn print_markup(&mut self, m: &Markup)
        requires
            old(self).text_last_isolated <= old(self).out.len(),
            old(self).info matches Some(i) ==> i.wf() && m.wf(i.chars()),
        ensures
            final(self).keeps(old(self)),
            final(self).state() == after_placeholder(
                old(self).state(),
                markup_text(*m, old(self).info, needs_isolation(old(self).state())),
            ),
    {
        let isolate = self.isolation_needed();
        push_markup(&mut self.out, m, self.info, isolate);
        self.text_last_isolated = self.out.len();
    }

    /// The parts of a pattern.
    fn print_parts(&mut self, parts: &Vec<PatternPart>)
        requires
            old(self).text_last_isolated <= old(self).out.len(),
            old(self).info matches Some(i) ==> i.wf() && forall|k: int|
                0 <= k < parts.len() ==> #[trigger] parts[k].wf(i.chars()),
        ensures
            final(self).keeps(old(self)),
            final(self).state() == parts_state(old(self).state(), parts@, old(self).info),
    {
        let mut k: usize = 0;
        while k < parts.len()
            invariant
                k <= parts.len(),
                self.keeps(old(self)),
                self.info matches Some(i) ==> i.wf() && forall|k: int|
                    0 <= k < parts.len() ==> #[trigger] parts[k].wf(i.chars()),
                self.state() == parts_state(old(self).state(), parts@.take(k as int), self.info),
            decreases parts.len() - k,
        {
            assert(parts@.take(k + 1).drop_last() =~= parts@.take(k as int));
            assert(parts@.take(k + 1).last() == parts@[k as int]);
            proof {
                if let Some(i) = self.info {
                    assert(parts[k as int].wf(i.chars()));
                }
            }
            match &parts[k] {
                PatternPart::Text(t) => push_str(&mut self.out, t.content),
                PatternPart::Escape(e) => {
                    self.out.push('\\');
                    self.out.push(e.escaped_char);
                },
                PatternPart::Expression(e) => self.print_expression(e),
                PatternPart::Markup(m) => self.print_markup(m),
            }
            k = k + 1;
            assert(self.state() =~= parts_state(old(self).state(), parts@.take(k as int), self.info));
        }
        assert(parts@.take(k as int) =~= parts@);
    }

    /// A quoted pattern.
    fn print_quoted_pattern(&mut self, q: &QuotedPattern)
        requires
            old(self).text_last_isolated <= old(self).out.len(),
            old(self).info matches Some(i) ==> i.wf() && q.wf(i.chars()),
        ensures
            final(self).keeps(old(self)),
            final(self).state() == quoted_pattern_state(old(self).state(), *q, old(self).info),
    {
        let rtl = pattern_has_rtl(&q.pattern, self.info);
        let ghost before = self.state();
        if rtl {
            self.out.push(FSI);
        }
        self.out.push('{');
        self.out.push('{');
        let ghost opened = self.state();
        assert(opened =~= (before.0 + (if rtl {
            seq![FSI]
        } else {
            seq![]
        }) + seq!['{', '{'], before.1));
        self.print_parts(&q.pattern.parts);
        let ghost inner = self.state();
        self.out.push('}');
        self.out.push('}');
        if rtl {
            self.out.push(PDI);
        }
        assert(self.out@ =~= inner.0 + seq!['}', '}'] + (if rtl {
            seq![PDI]
        } else {
            seq![]
        }));
    }
}

/// The widest variant has no more keys than there are columns, nor has
/// any other.
proof fn lemma_max_keys(vs: Seq<Variant>, init: int)
    ensures
        max_keys(vs, init) >= init,
        forall|j: int| 0 <= j < vs.len() ==> max_keys(vs, init) >= #[trigger] vs[j].keys.len(),
    decreases vs.len(),
{
    if vs.len() > 0 {
        lemma_max_keys(vs.drop_last(), init);
        assert forall|j: int| 0 <= j < vs.len() implies max_keys(vs, init) >= #[trigger] vs[j].keys.len() by {
            if j < vs.len() - 1 {
                assert(vs.drop_last()[j] == vs[j]);
            }
        }
    }
}

/// A column is at least as wide as its selector and as each of its keys.
proof fn lemma_column_width(m: Matcher, i: int, info: Option<&SourceTextInfo>, n: int)
    requires
        0 <= n,
    ensures
        column_width(m, i, info, n) >= column_width(m, i, info, 0) >= 0,
        forall|j: int| 0 <= j < n ==> column_width(m, i, info, n) >= utf8_len(#[trigger] cell_text(m, j, i, info)),
    decreases n,
{
    if n > 0 {
        lemma_column_width(m, i, info, n - 1);
    }
}

/// The number of columns of a matcher.
fn column_count_of(m: &Matcher) -> (r: usize)
    ensures
        r == column_count(*m),
{
    let mut count: usize = m.selectors.len();
    let mut j: usize = 0;
    while j < m.variants.len()
        invariant
            j <= m.variants.len(),
            count == max_keys(m.variants@.take(j as int), m.selectors.len() as int),
        decreases m.variants.len() - j,
    {
        assert(m.variants@.take(j + 1).drop_last() =~= m.variants@.take(j as int));
        let n = m.variants[j].keys.len();
        if n > count {
            count = n;
        }
        j = j + 1;
    }
    assert(m.variants@.take(j as int) =~= m.variants@);
    count
}

/// A key as printed.
fn key_chars(k: &Key, info: Option<&SourceTextInfo>) -> (r: Vec<char>)
    requires
        info matches Some(i) ==> i.wf() && k.wf(i.chars()),
    ensures
        r@ == key_text(*k, info),
{
    let mut v: Vec<char> = Vec::new();
    match k {
        Key::Literal(l) => push_literal(&mut v, l, info),
        Key::Star(_) => v.push('*'),
    }
    assert(v@ =~= key_text(*k, info));
    v
}

/// `widths` holds the widths of the `count` columns over the first `n`
/// variants.
pub open spec fn widths_over(
    widths: Seq<u128>,
    m: Matcher,
    info: Option<&SourceTextInfo>,
    count: int,
    n: int,
) -> bool {
    &&& widths.len() == count
    &&& forall|i: int| 0 <= i < count ==> #[trigger] widths[i] == column_width(m, i, info, n)
}

/// The widths of the columns by the selectors alone.
fn selector_widths(m: &Matcher, count: usize, info: Option<&SourceTextInfo>) -> (r: Vec<u128>)
    requires
        count == column_count(*m),
    ensures
        widths_over(r@, *m, info, count as int, 0),
{
    let mut widths: Vec<u128> = Vec::new();
    let mut i: usize = 0;
    while i < count
        invariant
            i <= count,
            widths.len() == i,
            forall|k: int| 0 <= k < i ==> #[trigger] widths@[k] == column_width(*m, k, info, 0),
        decreases count - i,
    {
        if i < m.selectors.len() {
            let name = chars_of(m.selectors[i].name);
            let w = utf8_len_of(&name);
            widths.push(w + 1);
        } else {
            widths.push(0);
        }
        i = i + 1;
    }
    widths
}

/// The rows of printed keys, one per variant, each with a cell per column;
/// `widths` grows to the widths over all the variants.
fn key_rows(m: &Matcher, count: usize, info: Option<&SourceTextInfo>, widths: &mut Vec<u128>) -> (r: Vec<
    Vec<Vec<char>>,
>)
    requires
        count == column_count(*m),
        widths_over(old(widths)@, *m, info, count as int, 0),
        info matches Some(i) ==> i.wf() && m.wf(i.chars()),
    ensures
        widths_over(final(widths)@, *m, info, count as int, m.variants.len() as int),
        r.len() == m.variants.len(),
        forall|j: int|
            0 <= j < r.len() ==> (#[trigger] r[j]).len() == count && forall|i: int|
                0 <= i < count ==> #[trigger] r[j][i]@ == cell_text(*m, j, i, info),
{
    proof {
        lemma_max_keys(m.variants@, m.selectors.len() as int);
    }
    let mut rows: Vec<Vec<Vec<char>>> = Vec::new();
    let mut j: usize = 0;
    while j < m.variants.len()
        invariant
            j <= m.variants.len(),
            count == column_count(*m),
            forall|j: int| 0 <= j < m.variants.len() ==> count >= #[trigger] m.variants[j].keys.len(),
            info matches Some(i) ==> i.wf() && m.wf(i.chars()),
            widths_over(widths@, *m, info, count as int, j as int),
            rows.len() == j,
            forall|j2: int|
                0 <= j2 < j ==> (#[trigger] rows[j2]).len() == count && forall|i: int|
                    0 <= i < count ==> #[trigger] rows[j2][i]@ == cell_text(*m, j2, i, info),
        decreases m.variants.len() - j,
    {
        let keys = &m.variants[j].keys;
        assert(count >= keys.len());
        let mut row: Vec<Vec<char>> = Vec::new();
        let mut i: usize = 0;
        while i < keys.len()
            invariant
                i <= keys.len() <= count,
                j < m.variants.len(),
                keys == &m.variants[j as int].keys,
                info matches Some(inf) ==> inf.wf() && m.wf(inf.chars()),
                widths.len() == count,
                forall|k: int|
                    0 <= k < i ==> #[trigger] widths@[k] == column_width(*m, k, info, j + 1),
                forall|k: int|
                    i <= k < count ==> #[trigger] widths@[k] == column_width(*m, k, info, j as int),
                row.len() == i,
                forall|k: int| 0 <= k < i ==> #[trigger] row[k]@ == cell_text(*m, j as int, k, info),
            decreases keys.len() - i,
        {
            proof {
                if let Some(inf) = info {
                    assert(m.variants[j as int].wf(inf.chars()));
                    assert(keys[i as int].wf(inf.chars()));
                }
            }
            let printed = key_chars(&keys[i], info);
            let w = utf8_len_of(&printed);
            if w > widths[i] {
                widths.set(i, w);
            }
            row.push(printed);
            i = i + 1;
        }
        while i < count
            invariant
                keys.len() <= i <= count,
                j < m.variants.len(),
                keys == &m.variants[j as int].keys,
                widths.len() == count,
                forall|k: int|
                    0 <= k < i ==> #[trigger] widths@[k] == column_width(*m, k, info, j + 1),
                forall|k: int|
                    i <= k < count ==> #[trigger] widths@[k] == column_width(*m, k, info, j as int),
                row.len() == i,
                forall|k: int| 0 <= k < i ==> #[trigger] row[k]@ == cell_text(*m, j as int, k, info),
            decreases count - i,
        {
            proof {
                lemma_column_width(*m, i as int, info, j as int);
                assert(cell_text(*m, j as int, i as int, info) =~= Seq::<char>::empty());
            }
            row.push(Vec::new());
            assert(row[i as int]@ =~= cell_text(*m, j as int, i as int, info));
            i = i + 1;
        }
        rows.push(row);
        j = j + 1;
    }
    rows
}

/// The selectors, each padded to its column but the last column.
fn push_selectors(out: &mut Vec<char>, m: &Matcher, count: usize, widths: &Vec<u128>, info: Option<&SourceTextInfo>)
    requires
        count == column_count(*m),
        widths_over(widths@, *m, info, count as int, m.variants.len() as int),
    ensures
        final(out)@ == old(out)@ + selectors_text(*m, info, m.selectors.len() as int),
{
    proof {
        lemma_max_keys(m.variants@, m.selectors.len() as int);
    }
    let mut i: usize = 0;
    while i < m.selectors.len()
        invariant
            i <= m.selectors.len() <= count,
            count == column_count(*m),
            widths_over(widths@, *m, info, count as int, m.variants.len() as int),
            out@ == old(out)@ + selectors_text(*m, info, i as int),
        decreases m.selectors.len() - i,
    {
        let v = &m.selectors[i];
        push_variable(out, v);
        if i < count - 1 {
            let name = chars_of(v.name);
            let n = utf8_len_of(&name);
            proof {
                lemma_column_width(*m, i as int, info, m.variants.len() as int);
            }
            push_n(out, widths[i] - n);
        }
        i = i + 1;
        assert(out@ =~= old(out)@ + selectors_text(*m, info, i as int));
    }
}

/// The keys of variant `j`, each padded to its column and followed by a
/// space.
fn push_keys(
    out: &mut Vec<char>,
    m: &Matcher,
    j: usize,
    row: &Vec<Vec<char>>,
    count: usize,
    widths: &Vec<u128>,
    info: Option<&SourceTextInfo>,
)
    requires
        j < m.variants.len(),
        count == column_count(*m),
        widths_over(widths@, *m, info, count as int, m.variants.len() as int),
        row.len() == count,
        forall|i: int| 0 <= i < count ==> #[trigger] row[i]@ == cell_text(*m, j as int, i, info),
    ensures
        final(out)@ == old(out)@ + keys_text(*m, j as int, info, count as int),
{
    let mut i: usize = 0;
    while i < count
        invariant
            i <= count,
            j < m.variants.len(),
            widths_over(widths@, *m, info, count as int, m.variants.len() as int),
            row.len() == count,
            forall|i: int| 0 <= i < count ==> #[trigger] row[i]@ == cell_text(*m, j as int, i, info),
            out@ == old(out)@ + keys_text(*m, j as int, info, i as int),
        decreases count - i,
    {
        let cell = &row[i];
        push_chars(out, cell);
        let w = utf8_len_of(cell);
        proof {
            lemma_column_width(*m, i as int, info, m.variants.len() as int);
            assert(cell_text(*m, j as int, i as int, info) == row[i as int]@);
        }
        push_n(out, widths[i] - w);
        out.push(' ');
        i = i + 1;
        assert(out@ =~= old(out)@ + keys_text(*m, j as int, info, i as int));
    }
}

impl<'ast, 'text> Printer<'ast, 'text> {
    /// A matcher: its selectors, then each variant on a line of its own,
    /// the keys aligned in columns.
    fn print_matcher(&mut self, m: &Matcher)
        requires
            old(self).text_last_isolated <= old(self).out.len(),
            old(self).info matches Some(i) ==> i.wf() && m.wf(i.chars()),
        ensures
            final(self).keeps(old(self)),
            final(self).state() == matcher_state(old(self).state(), *m, old(self).info),
    {
        let count = column_count_of(m);
        let mut widths = selector_widths(m, count, self.info);
        let rows = key_rows(m, count, self.info, &mut widths);
        let ghost before = self.out@;
        self.out.push('.');
        self.out.push('m');
        self.out.push('a');
        self.out.push('t');
        self.out.push('c');
        self.out.push('h');
        if count > 1 {
            self.out.push('\n');
            self.out.push(' ');
            self.out.push(' ');
        } else {
            self.out.push(' ');
        }
        push_selectors(&mut self.out, m, count, &widths, self.info);
        assert(self.out@ =~= before + matcher_head(*m, self.info));
        let ghost start = self.state();
        let mut j: usize = 0;
        while j < m.variants.len()
            invariant
                j <= m.variants.len(),
                self.keeps(old(self)),
                self.info matches Some(i) ==> i.wf() && m.wf(i.chars()),
                count == column_count(*m),
                widths_over(widths@, *m, self.info, count as int, m.variants.len() as int),
                rows.len() == m.variants.len(),
                forall|j: int|
                    0 <= j < rows.len() ==> (#[trigger] rows[j]).len() == count && forall|i: int|
                        0 <= i < count ==> #[trigger] rows[j][i]@ == cell_text(*m, j, i, self.info),
                self.state() == variants_state(start, *m, self.info, j as int),
            decreases m.variants.len() - j,
        {
            let ghost prev = self.state();
            self.out.push('\n');
            self.out.push(' ');
            self.out.push(' ');
            push_keys(&mut self.out, m, j, &rows[j], count, &widths, self.info);
            assert(self.out@ =~= prev.0 + (seq!['\n', ' ', ' '] + keys_text(
                *m,
                j as int,
                self.info,
                column_count(*m),
            )));
            proof {
                if let Some(i) = self.info {
                    assert(m.variants[j as int].wf(i.chars()));
                }
            }
            self.print_quoted_pattern(&m.variants[j].pattern);
            j = j + 1;
        }
    }

    /// The body of a complex message.
    fn print_body(&mut self, b: &ComplexMessageBody)
        requires
            old(self).text_last_isolated <= old(self).out.len(),
            old(self).info matches Some(i) ==> i.wf() && b.wf(i.chars()),
        ensures
            final(self).keeps(old(self)),
            final(self).state() == body_state(old(self).state(), *b, old(self).info),
    {
        match b {
            ComplexMessageBody::QuotedPattern(q) => self.print_quoted_pattern(q),
            ComplexMessageBody::Matcher(m) => self.print_matcher(m),
        }
    }

    /// A declaration.
    fn print_declaration(&mut self, d: &Declaration)
        requires
            old(self).text_last_isolated <= old(self).out.len(),
            old(self).info matches Some(i) ==> i.wf() && d.wf(i.chars()),
        ensures
            final(self).keeps(old(self)),
            final(self).state() == declaration_state(old(self).state(), *d, old(self).info),
    {
        let ghost before = self.out@;
        match d {
            Declaration::InputDeclaration(x) => {
                push_str(&mut self.out, ".input ");
                proof {
                    reveal_strlit(".input ");
                }
                assert(self.out@ =~= before + seq!['.', 'i', 'n', 'p', 'u', 't', ' ']);
                self.print_variable_expression(&x.expression);
            },
            Declaration::LocalDeclaration(x) => {
                push_str(&mut self.out, ".local ");
                push_variable(&mut self.out, &x.variable);
                push_str(&mut self.out, " = ");
                proof {
                    reveal_strlit(".local ");
                    reveal_strlit(" = ");
                }
                assert(self.out@ =~= before + seq!['.', 'l', 'o', 'c', 'a', 'l', ' '] + variable_text(
                    x.variable,
                ) + seq![' ', '=', ' ']);
                self.print_expression(&x.expression);
            },
        }
    }

    /// Whether an empty line stands between `start` and `end` in the
    /// source: `default` when the source is not known.
    fn had_empty_line(&self, start: Location, end: Location, default: bool) -> (r: bool)
        requires
            self.info matches Some(i) ==> i.wf() && is_boundary(i.chars(), start.byte())
                && is_boundary(i.chars(), end.byte()),
        ensures
            r == had_empty_line(self.info, start.byte(), end.byte(), default),
    {
        match self.info {
            None => default,
            Some(info) => {
                proof {
                    lemma_boundary_le(info.chars(), start.byte());
                    lemma_boundary_le(info.chars(), end.byte());
                }
                let a = info.utf8_line_col(start);
                let b = info.utf8_line_col(end);
                proof {
                    info.lemma_line_of(a.line as int, start.byte());
                    info.lemma_line_of(b.line as int, end.byte());
                }
                b.line as u64 > a.line as u64 + 1
            },
        }
    }

    /// A complex message: the declarations, each on its own line, then the
    /// body and a line end.
    fn print_complex(&mut self, c: &ComplexMessage)
        requires
            old(self).text_last_isolated <= old(self).out.len(),
            old(self).info matches Some(i) ==> i.wf() && c.wf(i.chars()),
        ensures
            final(self).keeps(old(self)),
            final(self).state() == complex_state(old(self).state(), *c, old(self).info),
    {
        let n = c.declarations.len();
        let mut k: usize = 0;
        while k < n
            invariant
                k <= n,
                n == c.declarations.len(),
                self.keeps(old(self)),
                self.info matches Some(i) ==> i.wf() && c.wf(i.chars()),
                self.state() == declarations_state(old(self).state(), *c, self.info, k as int),
            decreases n - k,
        {
            let d = &c.declarations[k];
            proof {
                if let Some(i) = self.info {
                    assert(c.declarations[k as int].wf(i.chars()));
                }
            }
            self.print_declaration(d);
            self.out.push('\n');
            let is_last = k + 1 >= n;
            // The positions matter only where the source is known.
            let empty_line = match self.info {
                None => is_last,
                Some(_) => {
                    let next_start = if k + 1 < n {
                        proof {
                            if let Some(i) = self.info {
                                assert(c.declarations[k + 1].wf(i.chars()));
                                lemma_declaration_span(c.declarations[k + 1], i.chars());
                            }
                        }
                        c.declarations[k + 1].span().start
                    } else {
                        proof {
                            if let Some(i) = self.info {
                                lemma_body_span(c.body, i.chars());
                            }
                        }
                        c.body.span().start
                    };
                    proof {
                        if let Some(i) = self.info {
                            lemma_declaration_span(*d, i.chars());
                        }
                    }
                    self.had_empty_line(d.span().end, next_start, is_last)
                },
            };
            if empty_line {
                self.out.push('\n');
            }
            k = k + 1;
        }
        self.print_body(&c.body);
        self.out.push('\n');
    }

    /// The message.
    fn print_message(&mut self)
        requires
            old(self).ready(),
        ensures
            final(self).keeps(old(self)),
            final(self).state() == message_state(old(self).state(), *old(self).ast, old(self).info),
    {
        let ast = self.ast;
        match ast {
            Message::Simple(p) => self.print_parts(&p.parts),
            Message::Complex(c) => self.print_complex(c),
        }
    }

    /// Prints the message, continuing from the state the printer is in.
    pub fn print(self) -> (r: String)
        requires
            self.ready(),
        ensures
            r@ == message_state(self.state(), self.message(), self.source_info()).0,
    {
        let mut printer = self;
        printer.print_message();
        let r = string_from(&printer.out, 0);
        assert(printer.out@.subrange(0, printer.out@.len() as int) =~= printer.out@);
        r
    }
}

/// Formats a message in the canonical layout. Where the information on the
/// source text is given, empty lines between declarations are kept and
/// right-to-left text is judged by the source.
pub fn print(ast: &Message, info: Option<&SourceTextInfo>) -> (r: String)
    requires
        info matches Some(i) ==> i.wf() && ast.wf(i.chars()),
    ensures
        r@ == printed(*ast, info),
{
    Printer::new(ast, info).print()
}

/// The texts of parts that are all texts, one after the other.
pub open spec fn texts_of(parts: Seq<PatternPart>) -> Seq<char>
    decreases parts.len(),
{
    if parts.len() == 0 {
        seq![]
    } else {
        texts_of(parts.drop_last()) + match parts.last() {
            PatternPart::Text(t) => t.content@,
            _ => seq![],
        }
    }
}

/// Printing text parts appends their texts and leaves the place of the last
/// placeholder as it was.
proof fn lemma_text_parts_state(st: PrintState, parts: Seq<PatternPart>, info: Option<&SourceTextInfo>)
    requires
        forall|i: int| 0 <= i < parts.len() ==> #[trigger] parts[i] is Text,
    ensures
        parts_state(st, parts, info) == (st.0 + texts_of(parts), st.1),
    decreases parts.len(),
{
    if parts.len() == 0 {
        assert(st.0 + texts_of(parts) =~= st.0);
    } else {
        let rest = parts.drop_last();
        assert forall|i: int| 0 <= i < rest.len() implies #[trigger] rest[i] is Text by {
            assert(rest[i] == parts[i]);
        }
        lemma_text_parts_state(st, rest, info);
        assert(parts[parts.len() - 1] is Text);
        assert(st.0 + texts_of(parts) =~= st.0 + texts_of(rest) + texts_of(parts).subrange(
            texts_of(rest).len() as int,
            texts_of(parts).len() as int,
        ));
    }
}

/// A simple message of text alone prints as its text: formatting keeps
/// text that holds no placeholder as it is.
pub proof fn law_text_prints_as_itself(p: Pattern, info: Option<&SourceTextInfo>)
    requires
        forall|i: int| 0 <= i < p.parts.len() ==> #[trigger] p.parts[i] is Text,
    ensures
        printed(Message::Simple(p), info) == texts_of(p.parts@),
{
    lemma_text_parts_state((seq![], 0), p.parts@, info);
    assert(Seq::<char>::empty() + texts_of(p.parts@) =~= texts_of(p.parts@));
}

/// The text of a part of the given shape: a text as it is, an escape as a
/// backslash and its character, a variable as `{$name}` or, with a
/// function, `{$name :function}`.
pub open spec fn shape_text(sh: PartShape) -> Seq<char> {
    match sh {
        PartShape::Text(c) => c,
        PartShape::Escape(c) => seq!['\\', c],
        PartShape::Variable(n, f) => seq!['{', '$'] + n + match f {
            Some(g) => seq![' ', ':'] + g,
            None => seq![],
        } + seq!['}'],
    }
}

/// The texts of parts of the given shapes, one after the other.
pub open spec fn shapes_text(shapes: Seq<PartShape>) -> Seq<char>
    decreases shapes.len(),
{
    if shapes.len() == 0 {
        seq![]
    } else {
        shapes_text(shapes.drop_last()) + shape_text(shapes.last())
    }
}

/// The text, escapes included, after the last variable.
pub open spec fn trailing_text(shapes: Seq<PartShape>) -> Seq<char>
    decreases shapes.len(),
{
    if shapes.len() == 0 {
        seq![]
    } else {
        match shapes.last() {
            PartShape::Variable(_, _) => seq![],
            _ => trailing_text(shapes.drop_last()) + shape_text(shapes.last()),
        }
    }
}

/// No name of a variable or of its function holds right-to-left text, and
/// neither does the text that runs up to a variable from the one before it
/// or from the start.
pub open spec fn shapes_left_to_right(shapes: Seq<PartShape>) -> bool {
    forall|i: int|
        0 <= i < shapes.len() ==> (#[trigger] shapes[i] matches PartShape::Variable(n, f) ==> !bidi_has_rtl(n)
            && (f matches Some(g) ==> !bidi_has_rtl(g)) && !bidi_has_rtl(trailing_text(shapes.take(i))))
}

/// The name of each variable ends in a character that may stand in a name.
pub open spec fn names_end_in_name_chars(shapes: Seq<PartShape>) -> bool {
    forall|i: int|
        0 <= i < shapes.len() ==> (#[trigger] shapes[i] matches PartShape::Variable(n, _) ==> n.len() > 0
            && crate::chars::name_char(n.last()))
}

proof fn lemma_shapes_text_concat(a: Seq<PartShape>, b: Seq<PartShape>)
    ensures
        shapes_text(a + b) == shapes_text(a) + shapes_text(b),
    decreases b.len(),
{
    if b.len() == 0 {
        assert(a + b =~= a);
    } else {
        lemma_shapes_text_concat(a, b.drop_last());
        assert((a + b).drop_last() =~= a + b.drop_last());
    }
}

/// Printing parts of the given shapes gives their text, with the place of
/// the last placeholder where the trailing text starts.
proof fn lemma_shapes_state(parts: Seq<PatternPart>, shapes: Seq<PartShape>, info: Option<&SourceTextInfo>)
    requires
        parts_have_shapes(parts, shapes),
        shapes_left_to_right(shapes),
        names_end_in_name_chars(shapes),
    ensures
        trailing_text(shapes).len() <= shapes_text(shapes).len(),
        shapes_text(shapes).subrange(
            shapes_text(shapes).len() - trailing_text(shapes).len(),
            shapes_text(shapes).len() as int,
        ) == trailing_text(shapes),
        parts_state((seq![], 0), parts, info) == (
            shapes_text(shapes),
            shapes_text(shapes).len() - trailing_text(shapes).len(),
        ),
    decreases parts.len(),
{
    if parts.len() == 0 {
        assert(shapes.len() == 0);
        assert(shapes_text(shapes).subrange(0, 0) =~= trailing_text(shapes));
    } else {
        let ps = parts.drop_last();
        let ss = shapes.drop_last();
        assert forall|i: int| 0 <= i < ps.len() implies has_shape_at(ps, ss, i) by {
            assert(ps[i] == parts[i]);
            assert(ss[i] == shapes[i]);
            assert(crate::parser::has_shape(parts[i], shapes[i]));
        }
        assert forall|i: int| 0 <= i < ss.len() implies (#[trigger] ss[i] matches PartShape::Variable(n, f)
            ==> !bidi_has_rtl(n) && (f matches Some(g) ==> !bidi_has_rtl(g)) && !bidi_has_rtl(
            trailing_text(ss.take(i)),
        )) by {
            assert(ss[i] == shapes[i]);
            assert(ss.take(i) =~= shapes.take(i));
        }
        assert forall|i: int| 0 <= i < ss.len() implies (#[trigger] ss[i] matches PartShape::Variable(n, _)
            ==> n.len() > 0 && crate::chars::name_char(n.last())) by {
            assert(ss[i] == shapes[i]);
        }
        lemma_shapes_state(ps, ss, info);
        let st = parts_state((seq![], 0), ps, info);
        let t = shapes_text(ss);
        let k = parts.len() - 1;
        assert(crate::parser::has_shape(parts[k], shapes[k]));
        assert(parts.last() == parts[k]);
        assert(shapes.last() == shapes[k]);
        match shapes.last() {
            PartShape::Text(c) => {
                assert(shapes_text(shapes).subrange(
                    shapes_text(shapes).len() - trailing_text(shapes).len(),
                    shapes_text(shapes).len() as int,
                ) =~= trailing_text(ss) + c);
            },
            PartShape::Escape(c) => {
                assert(shapes_text(shapes).subrange(
                    shapes_text(shapes).len() - trailing_text(shapes).len(),
                    shapes_text(shapes).len() as int,
                ) =~= trailing_text(ss) + seq!['\\', c]);
            },
            PartShape::Variable(n, f) => {
                assert(shapes.take(k) =~= ss);
                assert(!bidi_has_rtl(n) && !bidi_has_rtl(trailing_text(ss)));
                assert(st.0.subrange(st.1, st.0.len() as int) == trailing_text(ss));
                assert(!needs_isolation(st));
                if let PatternPart::Expression(e) = parts.last() {
                    if let Expression::VariableExpression(x) = e {
                        assert(x.attributes@ =~= Seq::<Attribute>::empty());
                        assert(attributes_text(x.attributes@, info) =~= Seq::<char>::empty());
                        assert(isolated(x.variable.name@) == n);
                        lemma_variable_text(x, n, f, info);
                        assert(expression_text(e, info, false) =~= shape_text(shapes.last()));
                    }
                }
                assert(shapes_text(shapes).subrange(
                    shapes_text(shapes).len() as int,
                    shapes_text(shapes).len() as int,
                ) =~= Seq::<char>::empty());
            },
        }
    }
}

/// A variable expression without attributes, of a name that ends in a name
/// character and with at most a bare function, prints as its shape's text
/// where neither name holds right-to-left text.
proof fn lemma_variable_text(x: VariableExpression, n: Seq<char>, f: Option<Seq<char>>, info: Option<&SourceTextInfo>)
    requires
        crate::parser::is_bare_variable(Expression::VariableExpression(x), n, f),
        n.len() > 0,
        crate::chars::name_char(n.last()),
        !bidi_has_rtl(n),
        f matches Some(g) ==> !bidi_has_rtl(g),
    ensures
        variable_expression_text(x, info, false) == shape_text(PartShape::Variable(n, f)),
{
    let head = seq!['{'] + variable_text(x.variable);
    assert(variable_text(x.variable) == seq!['$'] + n);
    assert(head.last() == n.last());
    assert(n.last() != '{' && n.last() != LRI);
    assert(x.attributes@ =~= Seq::<Attribute>::empty());
    assert(attributes_text(x.attributes@, info) =~= Seq::<char>::empty());
    match f {
        Some(g) => {
            if let Some(Annotation::Function(func)) = x.annotation {
                assert(func.options@ =~= Seq::<FnOrMarkupOption>::empty());
                assert(options_text(func.options@, info) =~= Seq::<char>::empty());
                assert(identifier_text(func.id) == g);
                assert(annotation_text(Annotation::Function(func), info) =~= seq![':'] + g);
            }
            assert(variable_expression_text(x, info, false) =~= shape_text(PartShape::Variable(n, f)));
        },
        None => {
            assert(variable_expression_text(x, info, false) =~= shape_text(PartShape::Variable(n, f)));
        },
    }
}

/// Part `i` of `parts` has shape `i` of `shapes`.
pub open spec fn has_shape_at(parts: Seq<PatternPart>, shapes: Seq<PartShape>, i: int) -> bool {
    crate::parser::has_shape(parts[i], shapes[i])
}

/// Each character of a run of name characters is one.
proof fn lemma_name_run_chars(s: Seq<char>, a: int)
    requires
        0 <= a,
    ensures
        forall|k: int| a <= k < name_run_end(s, a) ==> crate::chars::name_char(#[trigger] s[k]),
    decreases s.len() - a,
{
    if 0 <= a < s.len() && crate::chars::name_char(s[a]) {
        lemma_name_run_chars(s, a + 1);
    }
}

/// Joining shapes keeps the names of their variables ending in name
/// characters.
proof fn lemma_names_concat(a: Seq<PartShape>, b: Seq<PartShape>)
    requires
        names_end_in_name_chars(a),
        names_end_in_name_chars(b),
    ensures
        names_end_in_name_chars(a + b),
{
    assert forall|i: int| 0 <= i < (a + b).len() implies (#[trigger] (a + b)[i] matches PartShape::Variable(
        n,
        _,
    ) ==> n.len() > 0 && crate::chars::name_char(n.last())) by {
        if i < a.len() {
            assert((a + b)[i] == a[i]);
        } else {
            assert((a + b)[i] == b[i - a.len()]);
        }
    }
}

/// The placeholder of a variable at index `e` is the text of its shape,
/// and the variable's name ends in a name character.
proof fn lemma_placeholder_shape_text(s: Seq<char>, e: int)
    requires
        crate::parser::variable_placeholder_at(s, e),
    ensures
        e < variable_placeholder_end(s, e) <= s.len(),
        shapes_text(seq![crate::parser::body_shape(s, e + 1)]) == s.subrange(
            e,
            variable_placeholder_end(s, e),
        ),
        names_end_in_name_chars(seq![crate::parser::body_shape(s, e + 1)]),
{
    let ne = name_run_end(s, e + 3);
    let end = variable_placeholder_end(s, e);
    crate::parser::lemma_name_run_end_ge(s, e + 3);
    lemma_name_run_chars(s, e + 3);
    let n = s.subrange(e + 2, ne);
    assert(n.last() == s[ne - 1]);
    if ne - 1 > e + 2 {
        assert(crate::chars::name_char(s[ne - 1]));
    } else {
        assert(crate::chars::name_start_char(s[e + 2]));
    }
    if s[ne] != '}' {
        let fe = name_run_end(s, ne + 3);
        crate::parser::lemma_name_run_end_ge(s, ne + 3);
        assert(s.subrange(e, end) =~= seq!['{', '$'] + n + seq![' ', ':'] + s.subrange(ne + 2, fe)
            + seq!['}']);
    } else {
        assert(s.subrange(e, end) =~= seq!['{', '$'] + n + seq!['}']);
    }
    let var = seq![crate::parser::body_shape(s, e + 1)];
    assert(var.drop_last() =~= Seq::<PartShape>::empty());
    assert(shapes_text(var.drop_last()) == Seq::<char>::empty());
    assert(shapes_text(var) =~= s.subrange(e, end));
    assert(names_end_in_name_chars(var));
}

/// Text, escapes and placeholders of variables read from index `a` give
/// back, as the texts of their shapes, the rest of the text from `a`; the
/// name of each variable ends in a name character.
proof fn lemma_shapes_text_of_source(s: Seq<char>, a: int)
    requires
        0 <= a <= s.len(),
        text_and_variables_from(s, a),
    ensures
        shapes_text(text_and_variables_shapes(s, a)) == s.subrange(a, s.len() as int),
        names_end_in_name_chars(text_and_variables_shapes(s, a)),
    decreases s.len() - a,
{
    let e = plain_run_end(s, a);
    crate::parser::lemma_plain_run_end_ge(s, a);
    let text: Seq<PartShape> = if e > a {
        seq![PartShape::Text(s.subrange(a, e))]
    } else {
        seq![]
    };
    if e > a {
        assert(text.drop_last() =~= Seq::<PartShape>::empty());
        assert(shapes_text(text.drop_last()) == Seq::<char>::empty());
        assert(text.last() == PartShape::Text(s.subrange(a, e)));
        assert(shapes_text(text) =~= s.subrange(a, e));
    } else {
        assert(shapes_text(text) =~= s.subrange(a, e));
    }
    assert(names_end_in_name_chars(text));
    if e < s.len() && crate::parser::variable_placeholder_at(s, e) {
        let end = variable_placeholder_end(s, e);
        let var = seq![crate::parser::body_shape(s, e + 1)];
        lemma_placeholder_shape_text(s, e);
        lemma_shapes_text_of_source(s, end);
        lemma_shapes_text_concat(text, var);
        lemma_shapes_text_concat(text + var, text_and_variables_shapes(s, end));
        lemma_names_concat(text, var);
        lemma_names_concat(text + var, text_and_variables_shapes(s, end));
        assert(s.subrange(a, s.len() as int) =~= s.subrange(a, e) + s.subrange(e, end) + s.subrange(
            end,
            s.len() as int,
        ));
    } else if crate::parser::escape_at(s, e) {
        let esc = seq![PartShape::Escape(s[e + 1])];
        assert(esc.drop_last() =~= Seq::<PartShape>::empty());
        assert(shapes_text(esc.drop_last()) == Seq::<char>::empty());
        assert(shapes_text(esc) =~= s.subrange(e, e + 2));
        assert(names_end_in_name_chars(esc));
        lemma_shapes_text_of_source(s, e + 2);
        lemma_shapes_text_concat(text, esc);
        lemma_shapes_text_concat(text + esc, text_and_variables_shapes(s, e + 2));
        lemma_names_concat(text, esc);
        lemma_names_concat(text + esc, text_and_variables_shapes(s, e + 2));
        assert(s.subrange(a, s.len() as int) =~= s.subrange(a, e) + s.subrange(e, e + 2) + s.subrange(
            e + 2,
            s.len() as int,
        ));
    } else {
        assert(e == s.len());
    }
}

/// A message of text, escapes and placeholders that each hold a variable,
/// alone or with a function that has no namespace and no option (`{$name}`,
/// `{$name :function}`), as `parse` reads it, formats to its own text:
/// where no name and no text before a placeholder holds right-to-left
/// text, formatting adds and removes nothing.
pub proof fn law_text_and_variables_format_to_themselves(
    s: Seq<char>,
    m: Message,
    info: Option<&SourceTextInfo>,
)
    requires
        text_and_variables_from(s, 0),
        m matches Message::Simple(p) && parts_have_shapes(p.parts@, text_and_variables_shapes(s, 0)),
        shapes_left_to_right(text_and_variables_shapes(s, 0)),
    ensures
        printed(m, info) == s,
{
    if let Message::Simple(p) = m {
        lemma_shapes_text_of_source(s, 0);
        lemma_shapes_state(p.parts@, text_and_variables_shapes(s, 0), info);
        assert(s.subrange(0, s.len() as int) =~= s);
    }
}


/// `t` without the marks that isolate right-to-left text.
pub open spec fn unisolated(t: Seq<char>) -> Seq<char>
    decreases t.len(),
{
    if t.len() == 0 {
        seq![]
    } else if t.last() == FSI || t.last() == PDI {
        unisolated(t.drop_last())
    } else {
        unisolated(t.drop_last()).push(t.last())
    }
}

/// Dropping isolation marks from two texts one after the other drops them
/// from each.
proof fn lemma_unisolated_concat(a: Seq<char>, b: Seq<char>)
    ensures
        unisolated(a + b) == unisolated(a) + unisolated(b),
    decreases b.len(),
{
    if b.len() == 0 {
        assert(a + b =~= a);
    } else {
        assert((a + b).drop_last() =~= a + b.drop_last());
        lemma_unisolated_concat(a, b.drop_last());
    }
}

/// Isolating a text adds only isolation marks.
proof fn lemma_unisolated_isolated(t: Seq<char>)
    ensures
        unisolated(isolated(t)) == unisolated(t),
{
    if bidi_has_rtl(t) {
        lemma_unisolated_concat(seq![FSI] + t, seq![PDI]);
        lemma_unisolated_concat(seq![FSI], t);
        assert(seq![FSI].drop_last() =~= Seq::<char>::empty());
        assert(seq![PDI].drop_last() =~= Seq::<char>::empty());
        assert(seq![PDI].last() == PDI);
        assert(seq![FSI].last() == FSI);
        assert(unisolated(Seq::<char>::empty()) == Seq::<char>::empty());
        assert(unisolated(seq![PDI]) =~= Seq::<char>::empty());
        assert(unisolated(seq![FSI]) =~= Seq::<char>::empty());
        assert(unisolated(t) + Seq::<char>::empty() =~= unisolated(t));
        assert(Seq::<char>::empty() + unisolated(t) =~= unisolated(t));
    }
}

/// An identifier prints as it is written in the message: its namespace, a
/// colon and its name, or its name alone, with nothing but isolation marks
/// around right-to-left text added.
pub proof fn law_identifier_prints_as_written(id: Identifier, s: Seq<char>)
    requires
        id.wf(s),
    ensures
        exists|i: int, j: int|
            0 <= i <= j <= s.len() && byte_offset(s, i) == id.start.byte() && #[trigger] unisolated(
                s.subrange(i, j),
            ) == unisolated(identifier_text(id)),
{
    match id.namespace {
        Some(ns) => {
            let (i, j) = choose|i: int, j: int|
                0 <= i <= j <= s.len() && byte_offset(s, i) == id.start.byte() && #[trigger] s.subrange(i, j)
                    == ns@ + seq![':'] + id.name@;
            lemma_unisolated_concat(isolated(ns@) + seq![':'], isolated(id.name@));
            lemma_unisolated_concat(isolated(ns@), seq![':']);
            lemma_unisolated_concat(ns@ + seq![':'], id.name@);
            lemma_unisolated_concat(ns@, seq![':']);
            lemma_unisolated_isolated(ns@);
            lemma_unisolated_isolated(id.name@);
            assert(unisolated(s.subrange(i, j)) == unisolated(identifier_text(id)));
        },
        None => {
            let (i, j) = choose|i: int, j: int|
                0 <= i <= j <= s.len() && byte_offset(s, i) == id.start.byte() && #[trigger] s.subrange(i, j)
                    == id.name@;
            lemma_unisolated_isolated(id.name@);
            assert(unisolated(s.subrange(i, j)) == unisolated(identifier_text(id)));
        },
    }
}

/// A variable prints as a dollar sign and then its name as it is written in
/// the message, with nothing but isolation marks around right-to-left text
/// added.
pub proof fn law_variable_prints_as_written(v: Variable, s: Seq<char>)
    requires
        v.wf(s),
    ensures
        variable_text(v).len() > 0,
        variable_text(v)[0] == '$',
        exists|i: int, j: int|
            0 <= i <= j <= s.len() && byte_offset(s, i) + utf8_len(v.name@) == v.span.end.byte()
                && #[trigger] unisolated(s.subrange(i, j)) == unisolated(variable_text(v).drop_first()),
{
    let (i, j) = choose|i: int, j: int|
        0 <= i <= j <= s.len() && byte_offset(s, i) == v.span.end.byte() - utf8_len(v.name@) && #[trigger] s.subrange(
            i,
            j,
        ) == v.name@;
    assert(variable_text(v).drop_first() =~= isolated(v.name@));
    lemma_unisolated_isolated(v.name@);
    assert(unisolated(s.subrange(i, j)) == unisolated(variable_text(v).drop_first()));
}

/// An unquoted literal prints as it is written in the message: a name as
/// its text, a number as its digits and signs, with nothing but isolation
/// marks around right-to-left text added.
pub proof fn law_unquoted_literal_prints_as_written(l: Literal, s: Seq<char>, info: Option<&SourceTextInfo>)
    requires
        l.wf(s),
        !(l is Quoted),
    ensures
        exists|i: int, j: int|
            0 <= i <= j <= s.len() && byte_offset(s, i) == l.spec_span().start.byte() && #[trigger] unisolated(
                s.subrange(i, j),
            ) == unisolated(literal_text(l, info)),
{
    match l {
        Literal::Text(t) => {
            let (i, j) = choose|i: int, j: int|
                0 <= i <= j <= s.len() && byte_offset(s, i) == t.start.byte() && #[trigger] s.subrange(i, j)
                    == t.content@;
            lemma_unisolated_isolated(t.content@);
            assert(unisolated(s.subrange(i, j)) == unisolated(literal_text(l, info)));
        },
        Literal::Number(n) => {
            let (i, j) = choose|i: int, j: int|
                0 <= i <= j <= s.len() && byte_offset(s, i) == n.start.byte() && #[trigger] s.subrange(i, j)
                    == n.raw@;
            assert(unisolated(s.subrange(i, j)) == unisolated(literal_text(l, info)));
        },
        Literal::Quoted(_) => {},
    }
}

} // verus!
