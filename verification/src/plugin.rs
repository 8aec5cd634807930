//! Formatting of message files, as a formatter plugin does it: a file is
//! left alone where it is already formatted, and refused where it is not
//! UTF-8 or where the parser could not recover from an error.
use vstd::prelude::*;
use vstd::string::StrSliceExecFns;
use vstd::string::StringSliceAdditionalSpecFns;
use vstd::string::StringExecFns;
use vstd::utf8::decode_utf8;
use vstd::utf8::valid_utf8;

use crate::ast::Message;
use crate::ast::PatternPart;
use crate::ast::ComplexMessageBody;
use crate::parser::contents_clean;
use crate::diagnostic::Diagnostic;
use crate::printer::print;
use crate::parser::starts_complex;
use crate::parser::text_and_variables_from;
use crate::parser::text_and_variables_shapes;
use crate::printer::law_text_and_variables_format_to_themselves;
use crate::printer::printed;
use crate::printer::shapes_left_to_right;
use crate::parse_allows;
use crate::strings::lemma_utf8_len_encode;
use crate::strings::utf8_len;
use crate::text::SourceTextInfo;

verus! {

/// The configuration of the plugin: it has no settings.
pub struct Configuration {}

/// The formatter plugin for message files.
pub struct Mf2PluginHandler;

/// Why a file could not be formatted.
#[derive(Debug)]
pub enum FormatError {
    /// The file is not UTF-8.
    InvalidUtf8,
    /// The parser could not recover from an error; the text says which.
    Fatal(String),
}

/// The text of a file that is UTF-8, by `std::str::from_utf8`. The
/// contract states that there is a text exactly where the bytes are valid
/// UTF-8, and that the text encodes to them.
#[verifier::external_body]
fn text_of_bytes(bytes: &[u8]) -> (r: Option<&str>)
    ensures
        r is Some <==> valid_utf8(bytes@),
        r matches Some(s) ==> s.spec_bytes() == bytes@,
{
    std::str::from_utf8(bytes).ok()
}

/// The first fatal diagnostic among `ds`, if any.
pub open spec fn first_fatal(ds: Seq<Diagnostic>) -> Option<Diagnostic>
    decreases ds.len(),
{
    if ds.len() == 0 {
        None
    } else if ds[0].is_fatal() {
        Some(ds[0])
    } else {
        first_fatal(ds.drop_first())
    }
}

/// The message of the error for a fatal diagnostic.
pub open spec fn fatal_text(d: Diagnostic) -> Seq<char> {
    "failed to format: "@ + d.display_text()
}

/// What formatting a parsed file gives: where the parser reported a fatal
/// diagnostic, the error for the first; else the printed message, or
/// nothing where it encodes to the bytes of the file already.
pub open spec fn format_outcome(
    ast: Message,
    diagnostics: Seq<Diagnostic>,
    info: &SourceTextInfo,
    file: Seq<u8>,
) -> Result<Option<Seq<u8>>, Seq<char>> {
    match first_fatal(diagnostics) {
        Some(d) => Err(fatal_text(d)),
        None => {
            let bytes = vstd::utf8::encode_utf8(printed(ast, Some(info)));
            if bytes == file {
                Ok(None)
            } else {
                Ok(Some(bytes))
            }
        },
    }
}

/// The outcome of a formatting, as values.
pub open spec fn outcome_model(r: Result<Option<Vec<u8>>, FormatError>) -> Option<
    Result<Option<Seq<u8>>, Seq<char>>,
> {
    match r {
        Ok(None) => Some(Ok(None)),
        Ok(Some(v)) => Some(Ok(Some(v@))),
        Err(FormatError::Fatal(m)) => Some(Err(m@)),
        Err(FormatError::InvalidUtf8) => None,
    }
}

/// Whether two byte sequences are equal.
fn bytes_equal(a: &[u8], b: &[u8]) -> (r: bool)
    ensures
        r == (a@ == b@),
{
    if a.len() != b.len() {
        return false;
    }
    let mut i: usize = 0;
    while i < a.len()
        invariant
            i <= a.len() == b.len(),
            forall|k: int| 0 <= k < i ==> a@[k] == b@[k],
        decreases a.len() - i,
    {
        if a[i] != b[i] {
            return false;
        }
        i = i + 1;
    }
    assert(a@ =~= b@);
    true
}

impl Mf2PluginHandler {
    /// Formats a parsed file: see `format_outcome`.
    pub fn format_parsed(
        &self,
        ast: &Message,
        diagnostics: &Vec<Diagnostic>,
        info: &SourceTextInfo,
        file_bytes: &[u8],
    ) -> (r: Result<Option<Vec<u8>>, FormatError>)
        requires
            info.wf(),
            ast.wf(info.chars()),
            forall|k: int| 0 <= k < diagnostics.len() ==> #[trigger] diagnostics[k].fits(),
        ensures
            outcome_model(r) == Some(format_outcome(*ast, diagnostics@, info, file_bytes@)),
    {
        let mut k: usize = 0;
        assert(diagnostics@.skip(0) =~= diagnostics@);
        while k < diagnostics.len()
            invariant
                k <= diagnostics.len(),
                forall|k: int| 0 <= k < diagnostics.len() ==> #[trigger] diagnostics[k].fits(),
                first_fatal(diagnostics@) == first_fatal(diagnostics@.skip(k as int)),
            decreases diagnostics.len() - k,
        {
            assert(diagnostics@.skip(k as int).drop_first() =~= diagnostics@.skip(k + 1));
            assert(diagnostics@.skip(k as int)[0] == diagnostics@[k as int]);
            let d = &diagnostics[k];
            if d.fatal() {
                let mut text = String::from_str("failed to format: ");
                proof {
                    reveal_strlit("failed to format: ");
                }
                let shown = d.to_string();
                text.append(shown.as_str());
                return Err(FormatError::Fatal(text));
            }
            k = k + 1;
        }
        assert(diagnostics@.skip(k as int) =~= Seq::<Diagnostic>::empty());
        let printed_text = print(ast, Some(info));
        let bytes = printed_text.as_str().as_bytes_vec();
        if bytes_equal(bytes.as_slice(), file_bytes) {
            Ok(None)
        } else {
            Ok(Some(bytes))
        }
    }

    /// Formats the bytes of a file. A file that is not UTF-8 is refused;
    /// otherwise the text is parsed and formatted as `format_parsed` says.
    /// A file of text, escapes and placeholders that each hold a variable,
    /// alone or with a function that has no namespace and no option, with no
    /// right-to-left text before a placeholder or in a name, is left alone.
    pub fn format(&self, file_bytes: &[u8]) -> (r: Result<Option<Vec<u8>>, FormatError>)
        requires
            file_bytes.len() <= u32::MAX,
        ensures
            (r matches Err(FormatError::InvalidUtf8)) <==> !valid_utf8(file_bytes@),
            r matches Ok(Some(v)) ==> v@ != file_bytes@,
            valid_utf8(file_bytes@) && decode_utf8(file_bytes@).len() > 0 && text_and_variables_from(
                decode_utf8(file_bytes@),
                0,
            ) && !starts_complex(decode_utf8(file_bytes@)) && shapes_left_to_right(
                text_and_variables_shapes(decode_utf8(file_bytes@), 0),
            ) ==> r matches Ok(None),
            valid_utf8(file_bytes@) ==> exists|m: Message, ds: Seq<Diagnostic>, info: SourceTextInfo|
                parse_allows(decode_utf8(file_bytes@), m, ds) && info.wf() && info.chars()
                    == decode_utf8(file_bytes@) && outcome_model(r) == Some(
                    format_outcome(m, ds, &info, file_bytes@),
                ),
    {
        let message = match text_of_bytes(file_bytes) {
            Some(m) => m,
            None => return Err(FormatError::InvalidUtf8),
        };
        proof {
            lemma_utf8_len_encode(message@);
            vstd::utf8::encode_utf8_decode_utf8(message@);
        }
        let (ast, diagnostics, info) = crate::parse(message);
        proof {
            assert forall|k: int| 0 <= k < diagnostics.len() implies #[trigger] diagnostics[k].fits() by {
                assert(diagnostics[k].wf(message@));
            }
            let s = message@;
            if s.len() > 0 && text_and_variables_from(s, 0) && !starts_complex(s) && shapes_left_to_right(
                text_and_variables_shapes(s, 0),
            ) {
                law_text_and_variables_format_to_themselves(s, ast, Some(&info));
                assert(diagnostics@ =~= Seq::<Diagnostic>::empty());
            }
        }
        let r = self.format_parsed(&ast, &diagnostics, &info, file_bytes);
        proof {
            assert(parse_allows(decode_utf8(file_bytes@), ast, diagnostics@));
        }
        r
    }
}

/// With no fatal diagnostic first, there is none at all.
proof fn lemma_first_fatal_none(ds: Seq<Diagnostic>)
    requires
        first_fatal(ds) is None,
    ensures
        forall|k: int| 0 <= k < ds.len() ==> !(#[trigger] ds[k]).is_fatal(),
    decreases ds.len(),
{
    if ds.len() > 0 {
        lemma_first_fatal_none(ds.drop_first());
        assert forall|k: int| 0 <= k < ds.len() implies !(#[trigger] ds[k]).is_fatal() by {
            if k > 0 {
                assert(ds[k] == ds.drop_first()[k - 1]);
            }
        }
    }
}

/// Formatting never drops or adds to what a placeholder holds: where
/// formatting a message succeeds, each placeholder of it (in a simple
/// message's pattern, a declaration, a quoted body or a variant) has its
/// closing brace and holds nothing but spaces between what its tree keeps
/// (operand, function, options, attributes) and that brace, so the printed
/// tree leaves out no text of it. A placeholder with other contents, or
/// without its brace, makes formatting fail. (The clauses on
/// complex messages give the predicates no diagnostics to excuse a
/// placeholder, so they ask for clean contents outright.)
pub proof fn law_formatting_keeps_placeholder_contents(
    t: Seq<char>,
    m: Message,
    ds: Seq<Diagnostic>,
    info: &SourceTextInfo,
    file: Seq<u8>,
)
    requires
        parse_allows(t, m, ds),
        format_outcome(m, ds, info, file) is Ok,
    ensures
        m matches Message::Simple(p) ==> forall|i: int|
            0 <= i < p.parts.len() && #[trigger] p.parts[i] is Expression ==> crate::parser::expression_closed(
                p.parts[i]->Expression_0,
            ) && contents_clean(p.parts[i]->Expression_0, t),
        m matches Message::Complex(c) ==> (forall|i: int|
            0 <= i < c.declarations.len() ==> #[trigger] crate::parser::declaration_clean(
                c.declarations[i],
                t,
                Seq::empty(),
            )),
        m matches Message::Complex(c) ==> crate::parser::body_clean(c.body, t, Seq::empty()),
{
    lemma_first_fatal_none(ds);
    if crate::parser::invalid_contents_reported(ds) {
        let k = choose|k: int| 0 <= k < ds.len() && #[trigger] ds[k] is PlaceholderInvalidContents;
        assert(!ds[k].is_fatal());
    }
    if crate::parser::unclosed_reported(ds) {
        let k = choose|k: int| 0 <= k < ds.len() && #[trigger] ds[k] is PlaceholderMissingClosingBrace;
        assert(!ds[k].is_fatal());
    }
    assert(!crate::parser::invalid_contents_reported(ds));
    assert(!crate::parser::unclosed_reported(ds));
    assert(!crate::parser::invalid_contents_reported(Seq::<Diagnostic>::empty()));
    assert(!crate::parser::unclosed_reported(Seq::<Diagnostic>::empty()));
    if let Message::Complex(c) = m {
        assert forall|i: int| 0 <= i < c.declarations.len() implies #[trigger] crate::parser::declaration_clean(
            c.declarations[i],
            t,
            Seq::empty(),
        ) by {
            assert(crate::parser::declaration_clean(c.declarations[i], t, ds));
        }
        match c.body {
            ComplexMessageBody::QuotedPattern(q) => {
                assert forall|i: int| 0 <= i < q.pattern.parts.len() implies #[trigger] crate::parser::part_clean(
                    q.pattern.parts[i],
                    t,
                    Seq::empty(),
                ) by {
                    assert(crate::parser::part_clean(q.pattern.parts[i], t, ds));
                }
            },
            ComplexMessageBody::Matcher(mm) => {
                assert forall|v: int| 0 <= v < mm.variants.len() implies crate::parser::parts_clean(
                    #[trigger] mm.variants[v].pattern.pattern.parts@,
                    t,
                    Seq::empty(),
                ) by {
                    let ps = mm.variants[v].pattern.pattern.parts@;
                    assert(crate::parser::parts_clean(ps, t, ds));
                    assert forall|i: int| 0 <= i < ps.len() implies #[trigger] crate::parser::part_clean(
                        ps[i],
                        t,
                        Seq::empty(),
                    ) by {
                        assert(crate::parser::part_clean(ps[i], t, ds));
                    }
                }
            },
        }
    }
    if let Message::Simple(p) = m {
        assert forall|i: int| 0 <= i < p.parts.len() && #[trigger] p.parts[i] is Expression implies crate::parser::expression_closed(
            p.parts[i]->Expression_0,
        ) && contents_clean(p.parts[i]->Expression_0, t) by {
            assert(crate::parser::part_clean(p.parts[i], t, ds));
        }
    }
}

} // verus!
