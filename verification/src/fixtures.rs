//! Fixture files: a message followed by expected results under header
//! lines, and the diagnostics of a message drawn under it.
use unicode_width::UnicodeWidthStr;
use vstd::prelude::*;
use vstd::string::StringExecFns;

use crate::ast::span_in;
use crate::ast::AnyNode;
use crate::ast::Message;
use crate::ast::Number;
use crate::ast_utils::message_node_list;
use crate::ast_utils::message_nodes;
use crate::ast_utils::nodes_fit;
use crate::diagnostic::decimal;
use crate::diagnostic::push_decimal;
use crate::diagnostic::Diagnostic;
use crate::strings::byte_offset;
use crate::strings::chars_of;
use crate::strings::lemma_byte_offset_end;
use crate::strings::lemma_byte_offset_mono;
use crate::strings::lemma_str_len;
use crate::strings::push_char;
use crate::strings::slice_chars;
use crate::strings::utf8_len;
use crate::text::Location;
use crate::text::SourceTextInfo;
use crate::text::Span;
use crate::text::Spanned;

verus! {

/// `sep` occurs in `s` at character index `i`.
pub open spec fn occurs_at(s: Seq<char>, sep: Seq<char>, i: int) -> bool {
    0 <= i && i + sep.len() <= s.len() && s.subrange(i, i + sep.len()) == sep
}

/// `i` is the first index at which `sep` occurs in `s`.
pub open spec fn first_occurrence(s: Seq<char>, sep: Seq<char>, i: int) -> bool {
    occurs_at(s, sep, i) && forall|k: int| 0 <= k < i ==> !occurs_at(s, sep, k)
}

/// What precedes the first occurrence of `sep` in `s` and what follows it,
/// or `None` where `sep` does not occur.
pub open spec fn split_once(s: Seq<char>, sep: Seq<char>) -> Option<(Seq<char>, Seq<char>)> {
    if exists|i: int| first_occurrence(s, sep, i) {
        let i = choose|i: int| first_occurrence(s, sep, i);
        Some((s.take(i), s.skip(i + sep.len())))
    } else {
        None
    }
}

/// `str::split_once`: splits `s` at the first occurrence of `sep`. The
/// contract states that the result is `None` exactly where `sep` does not
/// occur, and otherwise the parts around the first occurrence.
#[verifier::external_body]
fn str_split_once<'a>(s: &'a str, sep: &str) -> (r: Option<(&'a str, &'a str)>)
    ensures
        r is None <==> forall|i: int| !occurs_at(s@, sep@, i),
        r matches Some((a, b)) ==> exists|i: int|
            first_occurrence(s@, sep@, i) && a@ == s@.take(i) && b@ == s@.skip(i + sep@.len()),
{
    s.split_once(sep)
}

/// The parts of a fixture: what precedes each header in turn, where the
/// next header is looked for after the previous one, and what follows the
/// last. A header that does not occur ends the text before it, and leaves
/// nothing after it.
pub open spec fn fixture_parts(raw: Seq<char>, headers: Seq<Seq<char>>) -> Seq<Seq<char>>
    decreases headers.len(),
{
    if headers.len() == 0 {
        seq![raw]
    } else {
        let p = split_or_whole(raw, headers[0]);
        seq![p.0] + fixture_parts(p.1, headers.drop_first())
    }
}

/// `raw` split at the first occurrence of `sep`, or whole and followed by
/// nothing.
pub open spec fn split_or_whole(raw: Seq<char>, sep: Seq<char>) -> (Seq<char>, Seq<char>) {
    match split_once(raw, sep) {
        Some(p) => p,
        None => (raw, Seq::<char>::empty()),
    }
}

/// A fixture splits into one part more than it has headers.
pub proof fn law_fixture_parts_count(raw: Seq<char>, headers: Seq<Seq<char>>)
    ensures
        fixture_parts(raw, headers).len() == headers.len() + 1,
    decreases headers.len(),
{
    if headers.len() > 0 {
        let p = split_or_whole(raw, headers[0]);
        law_fixture_parts_count(p.1, headers.drop_first());
    }
}

/// The texts of some strings.
pub open spec fn texts(v: Seq<&str>) -> Seq<Seq<char>> {
    v.map_values(|p: &str| p@)
}

/// Splits a fixture at its headers: see `fixture_parts`.
pub fn parse_fixture<'t>(raw: &'t str, headers: Vec<&str>) -> (r: Vec<&'t str>)
    ensures
        texts(r@) == fixture_parts(raw@, texts(headers@)),
{
    let mut parts: Vec<&'t str> = Vec::new();
    let mut rest = raw;
    let mut k: usize = 0;
    assert(texts(headers@).skip(0) =~= texts(headers@));
    assert(texts(parts@) + fixture_parts(rest@, texts(headers@)) =~= fixture_parts(rest@, texts(headers@)));
    while k < headers.len()
        invariant
            k <= headers.len(),
            texts(parts@) + fixture_parts(rest@, texts(headers@).skip(k as int)) == fixture_parts(
                raw@,
                texts(headers@),
            ),
        decreases headers.len() - k,
    {
        let ghost hs = texts(headers@).skip(k as int);
        assert(hs[0] == headers@[k as int]@);
        assert(hs.drop_first() =~= texts(headers@).skip(k + 1));
        let header = headers[k];
        let (part, after) = match str_split_once(rest, header) {
            Some((a, b)) => {
                proof {
                    let i = choose|i: int|
                        first_occurrence(rest@, header@, i) && a@ == rest@.take(i) && b@ == rest@.skip(
                            i + header@.len(),
                        );
                    let j = choose|j: int| first_occurrence(rest@, header@, j);
                    if i < j {
                        assert(!occurs_at(rest@, header@, i));
                    } else if j < i {
                        assert(!occurs_at(rest@, header@, j));
                    }
                    assert(split_once(rest@, header@) == Some((a@, b@)));
                }
                (a, b)
            },
            None => {
                proof {
                    reveal_strlit("");
                    assert(!exists|i: int| first_occurrence(rest@, header@, i));
                    assert(split_once(rest@, header@) is None);
                }
                (rest, "")
            },
        };
        proof {
            reveal_strlit("");
            assert(split_or_whole(rest@, header@) == (part@, after@));
            assert(hs.len() > 0);
            assert(hs[0] == header@);
            assert(fixture_parts(rest@, hs) == seq![part@] + fixture_parts(after@, hs.drop_first()));
        }
        let ghost before = parts@;
        parts.push(part);
        assert(texts(parts@) =~= texts(before) + seq![part@]);
        assert(texts(parts@) + fixture_parts(after@, hs.drop_first()) =~= texts(before) + (seq![part@]
            + fixture_parts(after@, hs.drop_first())));
        rest = after;
        k = k + 1;
    }
    let ghost before = parts@;
    parts.push(rest);
    assert(texts(parts@) =~= texts(before) + seq![rest@]);
    assert(texts(headers@).skip(k as int) =~= Seq::<Seq<char>>::empty());
    parts
}

/// A line end shows as `↵` (U+21B5) and a tab as `⇥` (U+21E5).
pub open spec fn normalized_char(c: char) -> char {
    if c == '\n' {
        '\u{21b5}'
    } else if c == '\t' {
        '\u{21e5}'
    } else {
        c
    }
}

/// The message on one line: line ends and tabs shown as arrows.
pub fn normalize_message(message: &str) -> (r: String)
    ensures
        r@ == message@.map_values(|c: char| normalized_char(c)),
{
    let cs = chars_of(message);
    let mut r = String::new();
    let mut k: usize = 0;
    while k < cs.len()
        invariant
            k <= cs.len(),
            cs@ == message@,
            r@ == cs@.take(k as int).map_values(|c: char| normalized_char(c)),
        decreases cs.len() - k,
    {
        let c = cs[k];
        let n = if c == '\n' {
            '\u{21b5}'
        } else if c == '\t' {
            '\u{21e5}'
        } else {
            c
        };
        push_char(&mut r, n);
        k = k + 1;
        assert(r@ =~= cs@.take(k as int).map_values(|c: char| normalized_char(c)));
    }
    assert(cs@.take(k as int) =~= cs@);
    r
}

/// The number of columns that `unicode_width` gives `text` in a CJK
/// context (ambiguous characters two columns wide).
pub uninterp spec fn cjk_width(text: Seq<char>) -> usize;

/// `UnicodeWidthStr::width_cjk`. The contract names the result.
#[verifier::external_body]
fn width_cjk(text: &str) -> (r: usize)
    ensures
        r == cjk_width(text@),
{
    text.width_cjk()
}

/// The character index of byte offset `b` in `s`.
pub open spec fn char_index(s: Seq<char>, b: int) -> int {
    choose|i: int| 0 <= i <= s.len() && byte_offset(s, i) == b
}

/// `n` copies of `c`.
pub open spec fn repeat(c: char, n: int) -> Seq<char> {
    Seq::new(n as nat, |_i: int| c)
}

/// A diagnostic shown under the message: its text, the message on one
/// line, and a line that marks the span under it.
pub open spec fn diagnostic_lines(d: Diagnostic, input: Seq<char>, normalized: Seq<char>) -> Seq<char> {
    let sp = d.spec_span();
    let a = char_index(input, sp.start.byte());
    let b = char_index(input, sp.end.byte());
    d.display_text() + seq!['\n', ' ', ' '] + normalized + seq!['\n'] + repeat(
        ' ',
        cjk_width(input.take(a)) + 2,
    ) + repeat('^', cjk_width(input.subrange(a, b)) as int)
}

/// The diagnostics shown under the message, separated by empty lines.
pub open spec fn diagnostics_report(ds: Seq<Diagnostic>, input: Seq<char>, normalized: Seq<char>) -> Seq<char>
    decreases ds.len(),
{
    if ds.len() == 0 {
        seq![]
    } else {
        diagnostics_report(ds.drop_last(), input, normalized) + (if ds.len() > 1 {
            seq!['\n']
        } else {
            seq![]
        }) + diagnostic_lines(ds.last(), input, normalized)
    }
}

/// Appends `n` copies of `c`.
fn push_repeat(out: &mut String, c: char, n: u128)
    ensures
        final(out)@ == old(out)@ + repeat(c, n as int),
{
    let mut k: u128 = 0;
    while k < n
        invariant
            k <= n,
            out@ == old(out)@ + repeat(c, k as int),
        decreases n - k,
    {
        push_char(out, c);
        k = k + 1;
        assert(out@ =~= old(out)@ + repeat(c, k as int));
    }
}

/// Each diagnostic has a span between character boundaries of `s`.
pub open spec fn spans_in(ds: Seq<Diagnostic>, s: Seq<char>) -> bool {
    forall|k: int| 0 <= k < ds.len() ==> #[trigger] ds[k].fits() && span_in(s, ds[k].spec_span())
}

/// Shows each diagnostic under the message: see `diagnostics_report`.
pub fn generate_actual_diagnostics(
    diagnostics: &[Diagnostic],
    input_message: &str,
    normalized_message: &str,
) -> (r: String)
    requires
        spans_in(diagnostics@, input_message@),
    ensures
        r@ == diagnostics_report(diagnostics@, input_message@, normalized_message@),
{
    let ghost s = input_message@;
    let mut out = String::new();
    let mut k: usize = 0;
    while k < diagnostics.len()
        invariant
            k <= diagnostics.len(),
            s == input_message@,
            spans_in(diagnostics@, s),
            out@ == diagnostics_report(diagnostics@.take(k as int), s, normalized_message@),
        decreases diagnostics.len() - k,
    {
        assert(diagnostics@.take(k + 1).drop_last() =~= diagnostics@.take(k as int));
        let diag = &diagnostics[k];
        assert(diagnostics@[k as int].fits() && span_in(s, diagnostics@[k as int].spec_span()));
        let span = diag.span();
        let ghost a = char_index(s, span.start.byte());
        let ghost b = char_index(s, span.end.byte());
        proof {
            crate::strings::lemma_byte_offset_mono(s, 0, a);
            if b < a {
                crate::strings::lemma_byte_offset_mono(s, b, a);
            }
            assert(s.take(0) =~= Seq::<char>::empty());
        }
        let prefix = slice_chars(input_message, 0, span.start.0 as usize, Ghost(0), Ghost(a));
        let contents = slice_chars(
            input_message,
            span.start.0 as usize,
            span.end.0 as usize,
            Ghost(a),
            Ghost(b),
        );
        assert(prefix@ =~= s.take(a));
        let ghost before = out@;
        if k != 0 {
            push_char(&mut out, '\n');
        }
        let text = diag.to_string();
        out.append(text.as_str());
        push_char(&mut out, '\n');
        push_char(&mut out, ' ');
        push_char(&mut out, ' ');
        out.append(normalized_message);
        push_char(&mut out, '\n');
        push_repeat(&mut out, ' ', width_cjk(prefix) as u128 + 2);
        push_repeat(&mut out, '^', width_cjk(contents) as u128);
        assert(out@ =~= before + (if k + 1 > 1 {
            seq!['\n']
        } else {
            seq![]
        }) + diagnostic_lines(*diag, s, normalized_message@));
        k = k + 1;
    }
    assert(diagnostics@.take(k as int) =~= diagnostics@);
    out
}

/// The name under which the span of a node is shown.
pub open spec fn node_label(n: AnyNode) -> Seq<char> {
    match n {
        AnyNode::Message(_) => "Message"@,
        AnyNode::Pattern(_) => "Pattern"@,
        AnyNode::PatternPart(_) => "PatternPart"@,
        AnyNode::Text(_) => "Text"@,
        AnyNode::Escape(_) => "Escape"@,
        AnyNode::Expression(_) => "Expression"@,
        AnyNode::LiteralExpression(_) => "LiteralExpression"@,
        AnyNode::VariableExpression(_) => "VariableExpression"@,
        AnyNode::Variable(_) => "Variable"@,
        AnyNode::AnnotationExpression(_) => "AnnotationExpression"@,
        AnyNode::Annotation(_) => "Function"@,
        AnyNode::Function(_) => "Function"@,
        AnyNode::FnOrMarkupOption(_) => "FnOrMarkupOption"@,
        AnyNode::Attribute(_) => "Attribute"@,
        AnyNode::LiteralOrVariable(_) => "LiteralOrVariable"@,
        AnyNode::Quoted(_) => "Quoted"@,
        AnyNode::QuotedPart(_) => "QuotedPart"@,
        AnyNode::Literal(_) => "Literal"@,
        AnyNode::Number(_) => "Number"@,
        AnyNode::Markup(_) => "Markup"@,
        AnyNode::Identifier(_) => "Identifier"@,
        AnyNode::ComplexMessage(_) => "ComplexMessage"@,
        AnyNode::Declaration(_) => "Declaration"@,
        AnyNode::InputDeclaration(_) => "InputDeclaration"@,
        AnyNode::LocalDeclaration(_) => "LocalDeclaration"@,
        AnyNode::ComplexMessageBody(_) => "ComplexMessageBody"@,
        AnyNode::QuotedPattern(_) => "QuotedPattern"@,
        AnyNode::Matcher(_) => "Matcher"@,
        AnyNode::Variant(_) => "Variant"@,
        AnyNode::Key(_) => "Key"@,
        AnyNode::Star(_) => "Star"@,
    }
}

/// The spans shown for a node, each under a name: its own, and for a
/// number also those of its integral, fractional and exponent digits.
pub open spec fn node_entries(n: AnyNode) -> Seq<(Seq<char>, Span)> {
    match n {
        AnyNode::Number(x) => seq![("Number"@, x.spec_span()), ("Number.integral"@, x.integral_span_spec())]
            + match x.fractional_span_spec() {
            Some(f) => seq![("Number.fractional"@, f)],
            None => seq![],
        } + match x.exponent_span_spec() {
            Some(e) => seq![("Number.exponent"@, e)],
            None => seq![],
        },
        _ => seq![(node_label(n), n.spec_span())],
    }
}

/// The spans shown for the nodes `ns`, in their order.
pub open spec fn span_entries(ns: Seq<AnyNode>) -> Seq<(Seq<char>, Span)>
    decreases ns.len(),
{
    if ns.len() == 0 {
        seq![]
    } else {
        span_entries(ns.drop_last()) + node_entries(ns.last())
    }
}

/// Each span lies between character boundaries of `s`.
pub open spec fn entries_in(es: Seq<(Seq<char>, Span)>, s: Seq<char>) -> bool {
    forall|k: int| 0 <= k < es.len() ==> span_in(s, (#[trigger] es[k]).1)
}

/// No span starts before an earlier one.
pub open spec fn in_source_order(es: Seq<(Seq<char>, Span)>) -> bool {
    forall|i: int, j: int|
        0 <= i < j < es.len() ==> (#[trigger] es[i]).1.start.byte() <= (#[trigger] es[j]).1.start.byte()
}

/// `line:col`, the UTF-8 line and column of byte offset `b`.
pub open spec fn line_col_text(info: SourceTextInfo, b: int) -> Seq<char> {
    let line = info.line_of(b);
    decimal(line as nat) + seq![':'] + decimal((b - info.line_start_byte(line)) as nat)
}

/// One line of the span report: a line feed, the name padded to twenty
/// columns, the message drawn with `^` under the span, and the line and
/// column of both ends.
#[verifier::opaque]
pub open spec fn span_line(label: Seq<char>, sp: Span, s: Seq<char>, info: SourceTextInfo) -> Seq<char> {
    let a = char_index(s, sp.start.byte());
    let b = char_index(s, sp.end.byte());
    seq!['\n'] + label + repeat(' ', 20 - label.len()) + repeat(' ', cjk_width(s.take(a)) as int)
        + repeat('^', cjk_width(s.subrange(a, b)) as int) + repeat(' ', cjk_width(s.skip(b)) as int)
        + seq![' '] + line_col_text(info, sp.start.byte()) + seq!['-'] + line_col_text(
        info,
        sp.end.byte(),
    )
}

/// The lines of the entries `es`, in their order.
pub open spec fn entries_text(es: Seq<(Seq<char>, Span)>, s: Seq<char>, info: SourceTextInfo) -> Seq<char>
    decreases es.len(),
{
    if es.len() == 0 {
        seq![]
    } else {
        entries_text(es.drop_last(), s, info) + span_line(es.last().0, es.last().1, s, info)
    }
}

proof fn lemma_entries_text_concat(
    a: Seq<(Seq<char>, Span)>,
    b: Seq<(Seq<char>, Span)>,
    s: Seq<char>,
    info: SourceTextInfo,
)
    ensures
        entries_text(a + b, s, info) == entries_text(a, s, info) + entries_text(b, s, info),
    decreases b.len(),
{
    if b.len() == 0 {
        assert(a + b =~= a);
    } else {
        lemma_entries_text_concat(a, b.drop_last(), s, info);
        assert((a + b).drop_last() =~= a + b.drop_last());
    }
}

proof fn lemma_span_entries_concat(a: Seq<AnyNode>, b: Seq<AnyNode>)
    ensures
        span_entries(a + b) == span_entries(a) + span_entries(b),
    decreases b.len(),
{
    if b.len() == 0 {
        assert(a + b =~= a);
    } else {
        lemma_span_entries_concat(a, b.drop_last());
        assert((a + b).drop_last() =~= a + b.drop_last());
    }
}

/// The name of a node, as `node_label` gives it.
fn label_of(n: AnyNode) -> (r: &'static str)
    ensures
        r@ == node_label(n),
{
    match n {
        AnyNode::Message(_) => { proof { reveal_strlit("Message"); } "Message" },
        AnyNode::Pattern(_) => { proof { reveal_strlit("Pattern"); } "Pattern" },
        AnyNode::PatternPart(_) => { proof { reveal_strlit("PatternPart"); } "PatternPart" },
        AnyNode::Text(_) => { proof { reveal_strlit("Text"); } "Text" },
        AnyNode::Escape(_) => { proof { reveal_strlit("Escape"); } "Escape" },
        AnyNode::Expression(_) => { proof { reveal_strlit("Expression"); } "Expression" },
        AnyNode::LiteralExpression(_) => { proof { reveal_strlit("LiteralExpression"); } "LiteralExpression" },
        AnyNode::VariableExpression(_) => { proof { reveal_strlit("VariableExpression"); } "VariableExpression" },
        AnyNode::Variable(_) => { proof { reveal_strlit("Variable"); } "Variable" },
        AnyNode::AnnotationExpression(_) => { proof { reveal_strlit("AnnotationExpression"); } "AnnotationExpression" },
        AnyNode::Annotation(_) => { proof { reveal_strlit("Function"); } "Function" },
        AnyNode::Function(_) => { proof { reveal_strlit("Function"); } "Function" },
        AnyNode::FnOrMarkupOption(_) => { proof { reveal_strlit("FnOrMarkupOption"); } "FnOrMarkupOption" },
        AnyNode::Attribute(_) => { proof { reveal_strlit("Attribute"); } "Attribute" },
        AnyNode::LiteralOrVariable(_) => { proof { reveal_strlit("LiteralOrVariable"); } "LiteralOrVariable" },
        AnyNode::Quoted(_) => { proof { reveal_strlit("Quoted"); } "Quoted" },
        AnyNode::QuotedPart(_) => { proof { reveal_strlit("QuotedPart"); } "QuotedPart" },
        AnyNode::Literal(_) => { proof { reveal_strlit("Literal"); } "Literal" },
        AnyNode::Number(_) => { proof { reveal_strlit("Number"); } "Number" },
        AnyNode::Markup(_) => { proof { reveal_strlit("Markup"); } "Markup" },
        AnyNode::Identifier(_) => { proof { reveal_strlit("Identifier"); } "Identifier" },
        AnyNode::ComplexMessage(_) => { proof { reveal_strlit("ComplexMessage"); } "ComplexMessage" },
        AnyNode::Declaration(_) => { proof { reveal_strlit("Declaration"); } "Declaration" },
        AnyNode::InputDeclaration(_) => { proof { reveal_strlit("InputDeclaration"); } "InputDeclaration" },
        AnyNode::LocalDeclaration(_) => { proof { reveal_strlit("LocalDeclaration"); } "LocalDeclaration" },
        AnyNode::ComplexMessageBody(_) => { proof { reveal_strlit("ComplexMessageBody"); } "ComplexMessageBody" },
        AnyNode::QuotedPattern(_) => { proof { reveal_strlit("QuotedPattern"); } "QuotedPattern" },
        AnyNode::Matcher(_) => { proof { reveal_strlit("Matcher"); } "Matcher" },
        AnyNode::Variant(_) => { proof { reveal_strlit("Variant"); } "Variant" },
        AnyNode::Key(_) => { proof { reveal_strlit("Key"); } "Key" },
        AnyNode::Star(_) => { proof { reveal_strlit("Star"); } "Star" },
    }
}

/// Every name is at most twenty characters long.
proof fn lemma_label_width(n: AnyNode)
    ensures
        node_label(n).len() <= 20,
{
    reveal_strlit("Message");
    reveal_strlit("Pattern");
    reveal_strlit("PatternPart");
    reveal_strlit("Text");
    reveal_strlit("Escape");
    reveal_strlit("Expression");
    reveal_strlit("LiteralExpression");
    reveal_strlit("VariableExpression");
    reveal_strlit("Variable");
    reveal_strlit("AnnotationExpression");
    reveal_strlit("Function");
    reveal_strlit("FnOrMarkupOption");
    reveal_strlit("Attribute");
    reveal_strlit("LiteralOrVariable");
    reveal_strlit("Quoted");
    reveal_strlit("QuotedPart");
    reveal_strlit("Literal");
    reveal_strlit("Number");
    reveal_strlit("Markup");
    reveal_strlit("Identifier");
    reveal_strlit("ComplexMessage");
    reveal_strlit("Declaration");
    reveal_strlit("InputDeclaration");
    reveal_strlit("LocalDeclaration");
    reveal_strlit("ComplexMessageBody");
    reveal_strlit("QuotedPattern");
    reveal_strlit("Matcher");
    reveal_strlit("Variant");
    reveal_strlit("Key");
    reveal_strlit("Star");
}

/// Appends `line:col` for location `b`.
fn push_line_col(out: &mut String, info: &SourceTextInfo, b: Location)
    requires
        info.wf(),
        b.byte() <= utf8_len(info.chars()),
    ensures
        final(out)@ == old(out)@ + line_col_text(*info, b.byte()),
{
    let lc = info.utf8_line_col(b);
    proof {
        info.lemma_line_of(lc.line as int, b.byte());
    }
    push_decimal(out, lc.line as u64);
    push_char(out, ':');
    push_decimal(out, lc.col as u64);
    assert(final(out)@ =~= old(out)@ + line_col_text(*info, b.byte()));
}

/// Appends `span_line(label, sp, input, info)`.
fn push_span_line(out: &mut String, label: &str, sp: Span, input: &str, info: &SourceTextInfo)
    requires
        info.wf(),
        info.chars() == input@,
        span_in(input@, sp),
        label@.len() <= 20,
    ensures
        final(out)@ == old(out)@ + span_line(label@, sp, input@, *info),
{
    let ghost s = input@;
    let ghost a = char_index(s, sp.start.byte());
    let ghost b = char_index(s, sp.end.byte());
    proof {
        if b < a {
            lemma_byte_offset_mono(s, b, a);
        }
        lemma_byte_offset_mono(s, b, s.len() as int);
        lemma_byte_offset_end(s);
        lemma_str_len(input);
        assert(s.take(0) =~= Seq::<char>::empty());
    }
    let prefix = slice_chars(input, 0, sp.start.0 as usize, Ghost(0), Ghost(a));
    let contents = slice_chars(input, sp.start.0 as usize, sp.end.0 as usize, Ghost(a), Ghost(b));
    let suffix = slice_chars(input, sp.end.0 as usize, input.len(), Ghost(b), Ghost(s.len() as int));
    assert(prefix@ =~= s.take(a));
    assert(suffix@ =~= s.skip(b));
    let pad = 20 - chars_of(label).len();
    push_char(out, '\n');
    out.append(label);
    push_repeat(out, ' ', pad as u128);
    push_repeat(out, ' ', width_cjk(prefix) as u128);
    push_repeat(out, '^', width_cjk(contents) as u128);
    push_repeat(out, ' ', width_cjk(suffix) as u128);
    push_char(out, ' ');
    push_line_col(out, info, sp.start);
    push_char(out, '-');
    push_line_col(out, info, sp.end);
    reveal(span_line);
    assert(final(out)@ =~= old(out)@ + span_line(label@, sp, s, *info));
}

/// Appends the lines of the spans of number `x`.
fn push_number_lines(out: &mut String, x: &Number, input: &str, info: &SourceTextInfo)
    requires
        info.wf(),
        info.chars() == input@,
        x.fits(),
        entries_in(node_entries(AnyNode::Number(x)), input@),
    ensures
        final(out)@ == old(out)@ + entries_text(node_entries(AnyNode::Number(x)), input@, *info),
{
    let ghost s = input@;
    let ghost es = node_entries(AnyNode::Number(x));
    let ghost e2 = seq![("Number"@, x.spec_span()), ("Number.integral"@, x.integral_span_spec())];
    let ghost fr: Seq<(Seq<char>, Span)> = match x.fractional_span_spec() {
        Some(f) => seq![("Number.fractional"@, f)],
        None => seq![],
    };
    let ghost ex: Seq<(Seq<char>, Span)> = match x.exponent_span_spec() {
        Some(e) => seq![("Number.exponent"@, e)],
        None => seq![],
    };
    let ghost e3 = e2 + fr;
    proof {
        reveal_strlit("Number");
        reveal_strlit("Number.integral");
        reveal_strlit("Number.fractional");
        reveal_strlit("Number.exponent");
        assert(es == e3 + ex);
        assert(span_in(s, es[0].1));
        assert(span_in(s, es[1].1));
    }
    push_span_line(out, "Number", x.span(), input, info);
    push_span_line(out, "Number.integral", x.integral_span(), input, info);
    proof {
        reveal_with_fuel(entries_text, 3);
        assert(e2.drop_last().drop_last() =~= Seq::<(Seq<char>, Span)>::empty());
        assert(e2.drop_last() =~= seq![("Number"@, x.spec_span())]);
        assert(out@ =~= old(out)@ + entries_text(e2, s, *info));
    }
    match x.fractional_span() {
        Some(f) => {
            assert(span_in(s, es[2].1));
            push_span_line(out, "Number.fractional", f, input, info);
            assert(e3.drop_last() =~= e2);
        },
        None => {
            assert(e3 =~= e2);
        },
    }
    assert(out@ == old(out)@ + entries_text(e3, s, *info));
    match x.exponent_span() {
        Some(e) => {
            assert(span_in(s, es[es.len() - 1].1));
            push_span_line(out, "Number.exponent", e, input, info);
            assert(es.drop_last() =~= e3);
        },
        None => {
            assert(es =~= e3);
        },
    }
}

/// Appends the lines of the spans of node `n`.
fn push_node_lines(out: &mut String, n: AnyNode, input: &str, info: &SourceTextInfo)
    requires
        info.wf(),
        info.chars() == input@,
        n.fits(),
        entries_in(node_entries(n), input@),
    ensures
        final(out)@ == old(out)@ + entries_text(node_entries(n), input@, *info),
{
    if let AnyNode::Number(x) = n {
        push_number_lines(out, x, input, info);
    } else {
        let ghost es = node_entries(n);
        proof {
            lemma_label_width(n);
            assert(span_in(input@, es[0].1));
            assert(es.drop_last() =~= Seq::<(Seq<char>, Span)>::empty());
        }
        let label = label_of(n);
        let sp = n.span();
        push_span_line(out, label, sp, input, info);
        assert(es.last() == (label@, sp));
        assert(entries_text(es, input@, *info) == entries_text(es.drop_last(), input@, *info) + span_line(label@, sp, input@, *info));
        assert(entries_text(es.drop_last(), input@, *info) == Seq::<char>::empty());
        assert(out@ == old(out)@ + entries_text(es, input@, *info));
    }
}

/// The spans of the nodes of a message, one line each, in the order in
/// which a visit meets the nodes, under the message on one line.
pub fn generate_actual_spans(
    actual_ast: &Message,
    input_message: &str,
    normalized_message: &str,
    source_text_info: &SourceTextInfo,
) -> (r: String)
    requires
        source_text_info.wf(),
        source_text_info.chars() == input_message@,
        nodes_fit(message_nodes(actual_ast)),
        entries_in(span_entries(message_nodes(actual_ast)), input_message@),
        in_source_order(span_entries(message_nodes(actual_ast))),
    ensures
        r@ == repeat(' ', 20) + normalized_message@ + entries_text(
            span_entries(message_nodes(actual_ast)),
            input_message@,
            *source_text_info,
        ),
{
    let ghost s = input_message@;
    let nodes = message_node_list(actual_ast);
    let ghost ns = nodes@;
    let mut out = String::new();
    push_repeat(&mut out, ' ', 20);
    out.append(normalized_message);
    let ghost head = out@;
    let mut k: usize = 0;
    assert(ns.take(0) =~= Seq::<AnyNode>::empty());
    while k < nodes.len()
        invariant
            k <= nodes.len(),
            ns == nodes@,
            ns == message_nodes(actual_ast),
            s == input_message@,
            source_text_info.wf(),
            source_text_info.chars() == s,
            nodes_fit(ns),
            entries_in(span_entries(ns), s),
            out@ == head + entries_text(span_entries(ns.take(k as int)), s, *source_text_info),
        decreases nodes.len() - k,
    {
        proof {
            let before = span_entries(ns.take(k as int));
            let own = node_entries(ns[k as int]);
            assert(ns.take(k + 1).drop_last() =~= ns.take(k as int));
            assert(span_entries(ns.take(k + 1)) == before + own);
            assert(ns =~= ns.take(k + 1) + ns.skip(k + 1));
            lemma_span_entries_concat(ns.take(k + 1), ns.skip(k + 1));
            assert forall|i: int| 0 <= i < own.len() implies span_in(s, (#[trigger] own[i]).1) by {
                assert(span_entries(ns)[before.len() + i] == own[i]);
            }
            lemma_entries_text_concat(before, own, s, *source_text_info);
        }
        push_node_lines(&mut out, nodes[k], input_message, source_text_info);
        k = k + 1;
    }
    assert(ns.take(k as int) =~= ns);
    out
}

} // verus!
