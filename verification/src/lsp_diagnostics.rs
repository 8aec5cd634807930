//! The diagnostics of a document as the language server reports them: those
//! of the parser and those of the analysis of its variables.
use vstd::prelude::*;
use vstd::string::StringExecFns;

use crate::diagnostic::Diagnostic as ParserDiagnostic;
use crate::diagnostic::push_span_suffix;
use crate::diagnostic::span_suffix;
use crate::scope::ScopeDiagnostic;
use crate::strings::push_char;
use crate::text::Span;

verus! {

/// A diagnostic of the parser or of the analysis of variables.
#[derive(Debug)]
pub enum Diagnostic<'t> {
    Parser(ParserDiagnostic<'t>),
    Scope(ScopeDiagnostic<'t>),
}

impl<'t> Diagnostic<'t> {
    /// Its positions fit in the text.
    pub open spec fn fits(&self) -> bool {
        match self {
            Diagnostic::Parser(d) => d.fits(),
            Diagnostic::Scope(_) => true,
        }
    }

    /// Where the diagnostic applies: for a duplicate declaration the second
    /// one, for a use before the declaration the use.
    pub open spec fn spec_span(&self) -> Span {
        match self {
            Diagnostic::Parser(d) => d.spec_span(),
            Diagnostic::Scope(ScopeDiagnostic::DuplicateDeclaration { second_span, .. }) => *second_span,
            Diagnostic::Scope(ScopeDiagnostic::UsageBeforeDeclaration { usage_span, .. }) => *usage_span,
        }
    }

    /// The human-readable message.
    pub open spec fn message_text(&self) -> Seq<char> {
        match self {
            Diagnostic::Parser(d) => d.message_text(),
            Diagnostic::Scope(ScopeDiagnostic::DuplicateDeclaration { name, .. }) => "$"@ + name@
                + " has already been declared."@,
            Diagnostic::Scope(ScopeDiagnostic::UsageBeforeDeclaration { name, .. }) => "$"@ + name@
                + " is used before it is declared."@,
        }
    }

    pub fn span(&self) -> (r: Span)
        requires
            self.fits(),
        ensures
            r == self.spec_span(),
    {
        match self {
            Diagnostic::Parser(d) => d.span(),
            Diagnostic::Scope(ScopeDiagnostic::DuplicateDeclaration { second_span, .. }) => *second_span,
            Diagnostic::Scope(ScopeDiagnostic::UsageBeforeDeclaration { usage_span, .. }) => *usage_span,
        }
    }

    pub fn message(&self) -> (r: String)
        ensures
            r@ == self.message_text(),
    {
        match self {
            Diagnostic::Parser(d) => d.message(),
            Diagnostic::Scope(ScopeDiagnostic::DuplicateDeclaration { name, .. }) => {
                let mut r = String::new();
                push_char(&mut r, '$');
                r.append(name);
                r.append(" has already been declared.");
                proof {
                    reveal_strlit(" has already been declared.");
                    reveal_strlit("$");
                }
                r
            },
            Diagnostic::Scope(ScopeDiagnostic::UsageBeforeDeclaration { name, .. }) => {
                let mut r = String::new();
                push_char(&mut r, '$');
                r.append(name);
                r.append(" is used before it is declared.");
                proof {
                    reveal_strlit(" is used before it is declared.");
                    reveal_strlit("$");
                }
                r
            },
        }
    }

    /// The code under which the language server publishes the diagnostic:
    /// only a missing space before an annotation has one.
    pub open spec fn lsp_code_text(&self) -> Option<Seq<char>> {
        match self {
            Diagnostic::Parser(ParserDiagnostic::AnnotationMissingSpaceBefore { .. }) => Some(
                "annotation-missing-space-before"@,
            ),
            _ => None,
        }
    }

    /// The message that the language server publishes: for a missing space
    /// before an annotation it says that the space is required, for every
    /// other diagnostic it is `message_text`.
    pub open spec fn lsp_message_text(&self) -> Seq<char> {
        match self {
            Diagnostic::Parser(ParserDiagnostic::AnnotationMissingSpaceBefore { .. }) =>
                "Annotation is missing a leading space, which is required"@,
            _ => self.message_text(),
        }
    }

    pub fn lsp_code(&self) -> (r: Option<&'static str>)
        ensures
            r.is_some() == self.lsp_code_text().is_some(),
            r.is_some() ==> r.unwrap()@ == self.lsp_code_text().unwrap(),
    {
        match self {
            Diagnostic::Parser(ParserDiagnostic::AnnotationMissingSpaceBefore { .. }) => {
                proof {
                    reveal_strlit("annotation-missing-space-before");
                }
                Some("annotation-missing-space-before")
            },
            _ => None,
        }
    }

    pub fn lsp_message(&self) -> (r: String)
        ensures
            r@ == self.lsp_message_text(),
    {
        match self {
            Diagnostic::Parser(ParserDiagnostic::AnnotationMissingSpaceBefore { .. }) => {
                proof {
                    reveal_strlit("Annotation is missing a leading space, which is required");
                }
                String::from_str("Annotation is missing a leading space, which is required")
            },
            _ => self.message(),
        }
    }

    /// The diagnostic as displayed: its message, then ` (at @start..end)`.
    pub fn to_string(&self) -> (r: String)
        requires
            self.fits(),
        ensures
            r@ == self.message_text() + span_suffix(self.spec_span()),
    {
        let mut r = self.message();
        push_span_suffix(&mut r, self.span());
        r
    }
}

} // verus!
