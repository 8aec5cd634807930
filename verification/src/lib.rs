//! Tools for MessageFormat 2: a parser with error recovery, its syntax tree
//! and diagnostics, and the line information of source texts.
pub mod ast;
pub mod ast_utils;
pub mod char_indices;
pub mod chars;
pub mod completions;
pub mod checker;
pub mod diagnostic;
pub mod fixtures;
pub mod lifecycle;
pub mod lines;
pub mod lsp_diagnostics;
pub mod parser;
pub mod plugin;
pub mod printer;
pub mod requests;
pub mod resource;
pub mod resource_document;
pub mod scope;
pub mod semantic_tokens;
pub mod strings;
pub mod text;
pub mod variable_nodes;

use vstd::prelude::*;

use crate::ast::Message;
use crate::ast::PatternPart;
use crate::ast::span_in;
use crate::diagnostic::Diagnostic;
use crate::fixtures::spans_in;
use crate::parser::plain_between;
use crate::parser::starts_complex;
use crate::printer::printed;
use crate::parser::Parser;
use crate::parser::first_declares;
use crate::parser::first_declared_at;
use crate::parser::parts_tile;
use crate::parser::declarations_read;
use crate::parser::parts_read;
use crate::parser::parts_recovered;
use crate::parser::parts_clean;
use crate::parser::body_clean;
use crate::parser::declarations_clean;
use crate::parser::body_recovered;
use crate::parser::declarations_recovered;
use crate::parser::body_read;
use crate::parser::missing_brace_reported;
use crate::parser::plain_run_end;
use crate::parser::unclosed_placeholder_at;
use crate::strings::byte_offset;
use crate::text::Location;
use crate::parser::parts_have_shapes;
use crate::parser::text_and_variables_from;
use crate::parser::text_and_variables_shapes;
use crate::scope::message_occ;
use crate::scope::scope_diagnostics;
use crate::scope::as_scope_diagnostic;
use crate::scope::usage_model;
use crate::scope::Scope;
use crate::strings::utf8_len;
use crate::text::SourceTextInfo;
use crate::text::Spanned;

pub use crate::chars::is_valid_name;

verus! {

/// `m` and `ds` are a message and diagnostics that `parse` may give for `t`,
/// by its contract.
pub open spec fn parse_allows(t: Seq<char>, m: Message, ds: Seq<Diagnostic>) -> bool {
    &&& m.wf(t)
    &&& forall|i: int| 0 <= i < ds.len() ==> #[trigger] ds[i].wf(t)
    &&& (m is Complex) == starts_complex(t)
    &&& plain_between(t, 0, t.len() as int) && !starts_complex(t) ==> {
        &&& ds.len() == 0
        &&& m matches Message::Simple(pattern) && pattern.parts.len() == 1 && (
        pattern.parts[0] matches PatternPart::Text(x) && x.content@ == t)
    }
    &&& t.len() > 0 && text_and_variables_from(t, 0) && !starts_complex(t) ==> {
        &&& ds.len() == 0
        &&& m matches Message::Simple(pattern) && parts_have_shapes(
            pattern.parts@,
            text_and_variables_shapes(t, 0),
        )
    }
    &&& first_declared_at(t, 0) matches Some(v) ==> (m matches Message::Complex(c) && first_declares(
        c.declarations@,
        t,
        v,
    ))
    &&& m matches Message::Simple(pattern) ==> parts_tile(pattern.parts@, t, ds)
    &&& m matches Message::Complex(c) ==> declarations_read(c.declarations@, t)
    &&& m matches Message::Simple(pattern) ==> parts_read(pattern.parts@, t)
    &&& m matches Message::Simple(pattern) ==> parts_recovered(pattern.parts@, ds)
    &&& m matches Message::Simple(pattern) ==> parts_clean(pattern.parts@, t, ds)
    &&& m matches Message::Complex(c) ==> body_clean(c.body, t, ds)
    &&& m matches Message::Complex(c) ==> declarations_clean(c.declarations@, t, ds)
    &&& m matches Message::Complex(c) ==> body_read(c.body, t)
    &&& m matches Message::Complex(c) ==> body_recovered(c.body, ds)
    &&& m matches Message::Complex(c) ==> declarations_recovered(c.declarations@, ds)
    &&& !starts_complex(t) && unclosed_placeholder_at(t, plain_run_end(t, 0)) ==> missing_brace_reported(
        ds,
        Location(byte_offset(t, plain_run_end(t, 0)) as u32),
        utf8_len(t) as int,
    )
}

/// Parses a message. Any text can be parsed: what does not follow the
/// syntax is reported in the diagnostics, and the tree still covers it.
/// The text is a complex message when its first character other than a
/// space is a dot or the start of `{{`. Text made of plain characters,
/// escapes and placeholders that each hold a variable, alone or with a
/// function that has no namespace and no option (`Hello, {$name}!`,
/// `{$count :number}`), parses without diagnostics into its runs of text,
/// its escapes and its variables. The parts of a simple message follow one
/// another from the start of the text to its end; only a backslash that
/// ends the text and escapes nothing is left out. Each declaration of a
/// complex message was read at a dot and its keyword, in the order of the
/// text. A complex message that opens with an `.input` declaration of a
/// variable in braces, or a `.local` declaration of a variable followed by
/// an equals sign and a brace, declares that variable first.
pub fn parse<'a>(message: &'a str) -> (r: (Message<'a>, Vec<Diagnostic<'a>>, SourceTextInfo<'a>))
    requires
        utf8_len(message@) <= u32::MAX,
    ensures
        r.0.wf(message@),
        forall|i: int| 0 <= i < r.1.len() ==> #[trigger] r.1[i].wf(message@),
        r.2.wf(),
        r.2.chars() == message@,
        (r.0 is Complex) == starts_complex(message@),
        plain_between(message@, 0, message@.len() as int) && !starts_complex(message@) ==> {
            &&& r.1.len() == 0
            &&& r.0 matches Message::Simple(pattern) && pattern.parts.len() == 1 && (
            pattern.parts[0] matches PatternPart::Text(t) && t.content@ == message@)
        },
        message@.len() > 0 && text_and_variables_from(message@, 0) && !starts_complex(message@) ==> {
            &&& r.1.len() == 0
            &&& r.0 matches Message::Simple(pattern) && parts_have_shapes(
                pattern.parts@,
                text_and_variables_shapes(message@, 0),
            )
        },
        parse_allows(message@, r.0, r.1@),
{
    Parser::new(message).parse()
}

/// Every diagnostic that `parse` gives covers a span of the message: its
/// location fits a source location, and both of its ends fall on character
/// boundaries of the message, the start before the end.
pub proof fn law_parse_diagnostics_in_message(t: Seq<char>, m: Message, ds: Seq<Diagnostic>)
    requires
        parse_allows(t, m, ds),
    ensures
        spans_in(ds, t),
{
    if !spans_in(ds, t) {
        let k = choose|k: int| !(0 <= k < ds.len() ==> #[trigger] ds[k].fits() && span_in(t, ds[k].spec_span()));
        assert(ds[k].wf(t));
        ds[k].lemma_span_in(t);
        assert(false);
    }
}

/// The tree that `parse` gives lies within the message: each part of a
/// simple message, and each declaration and the body of a complex one,
/// covers a span of the message whose ends fall on character boundaries,
/// the start before the end.
pub proof fn law_parsed_tree_lies_within_message(t: Seq<char>, m: Message, ds: Seq<Diagnostic>)
    requires
        parse_allows(t, m, ds),
    ensures
        m matches Message::Simple(p) ==> forall|i: int|
            0 <= i < p.parts.len() ==> span_in(t, #[trigger] p.parts[i].spec_span()),
        m matches Message::Complex(c) ==> span_in(t, c.body.spec_span()) && forall|i: int|
            0 <= i < c.declarations.len() ==> span_in(t, #[trigger] c.declarations[i].spec_span()),
{
    match m {
        Message::Simple(p) => {
            assert forall|i: int| 0 <= i < p.parts.len() implies span_in(t, #[trigger] p.parts[i].spec_span()) by {
                crate::ast::lemma_pattern_part_span(p.parts[i], t);
            }
        },
        Message::Complex(c) => {
            crate::ast::lemma_body_span(c.body, t);
            assert forall|i: int| 0 <= i < c.declarations.len() implies span_in(
                t,
                #[trigger] c.declarations[i].spec_span(),
            ) by {
                crate::ast::lemma_declaration_span(c.declarations[i], t);
            }
        },
    }
}

/// Text in which no character has a meaning in the syntax, and that does
/// not start a complex message, formats as itself: it parses (see `parse`)
/// to a simple message of one text part, which prints as that text.
pub proof fn law_plain_text_formats_to_itself(s: Seq<char>, m: Message, info: Option<&SourceTextInfo>)
    requires
        plain_between(s, 0, s.len() as int),
        !starts_complex(s),
        m matches Message::Simple(pattern) && pattern.parts.len() == 1 && (
        pattern.parts[0] matches PatternPart::Text(t) && t.content@ == s),
    ensures
        printed(m, info) == s,
{
    if let Message::Simple(pattern) = m {
        crate::printer::law_text_prints_as_itself(pattern, info);
        assert(pattern.parts@.drop_last() =~= Seq::<PatternPart>::empty());
        assert(crate::printer::texts_of(pattern.parts@.drop_last()) =~= Seq::<char>::empty());
        assert(pattern.parts@.last() == pattern.parts@[0]);
        assert(crate::printer::texts_of(pattern.parts@) =~= s);
    }
}

/// Formatting is stable on messages of plain text, or of text, escapes and
/// placeholders that each hold a variable (alone or with a function that has
/// no namespace and no option) where no right-to-left text stands before a
/// placeholder or in a name: parsing what the formatted message prints and
/// printing it again gives the same text, and neither parse reports a
/// diagnostic.
pub proof fn law_formatting_is_stable(
    s: Seq<char>,
    m1: Message,
    ds1: Seq<Diagnostic>,
    m2: Message,
    ds2: Seq<Diagnostic>,
    info: Option<&SourceTextInfo>,
)
    requires
        !starts_complex(s),
        plain_between(s, 0, s.len() as int) || (s.len() > 0 && text_and_variables_from(s, 0)
            && crate::printer::shapes_left_to_right(text_and_variables_shapes(s, 0))),
        parse_allows(s, m1, ds1),
        parse_allows(printed(m1, info), m2, ds2),
    ensures
        printed(m2, info) == printed(m1, info),
        ds1.len() == 0,
        ds2.len() == ds1.len(),
{
    if plain_between(s, 0, s.len() as int) {
        law_plain_text_formats_to_itself(s, m1, info);
        law_plain_text_formats_to_itself(s, m2, info);
    } else {
        crate::printer::law_text_and_variables_format_to_themselves(s, m1, info);
        crate::printer::law_text_and_variables_format_to_themselves(s, m2, info);
    }
}

/// Analyses the variables of a parsed message and appends the diagnostics
/// of the analysis (duplicate declarations, uses before declaration) to
/// `diagnostics`.
pub fn analyze_semantics<'a>(ast: &Message<'a>, diagnostics: &mut Vec<Diagnostic<'a>>) -> (r: Scope<'a>)
    ensures
        r.wf(),
        forall|n: Seq<char>| #[trigger] r.usage(n) == usage_model(message_occ(*ast), n),
        final(diagnostics).len() == old(diagnostics).len() + scope_diagnostics(
            message_occ(*ast),
        ).len(),
        forall|i: int|
            0 <= i < old(diagnostics).len() ==> #[trigger] final(diagnostics)[i] == old(
                diagnostics,
            )[i],
        forall|j: int|
            0 <= j < scope_diagnostics(message_occ(*ast)).len() ==> as_scope_diagnostic(
                #[trigger] final(diagnostics)[old(diagnostics).len() + j],
            ) == Some(scope_diagnostics(message_occ(*ast))[j]),
{
    Scope::analyze(ast, diagnostics)
}

} // verus!
