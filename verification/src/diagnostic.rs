//! Diagnostics that the parser reports.
use vstd::prelude::*;

use crate::ast::Attribute;
use crate::ast::Expression;
use crate::ast::FnOrMarkupOption;
use crate::ast::Identifier;
use crate::ast::Number;
use crate::ast::span_in;
use crate::lines::is_boundary;
use crate::strings::chars_of;
use crate::strings::push_char;
use crate::strings::utf8_width;
use crate::text::Location;
use crate::text::SourceTextInfo;
use crate::text::Span;
use crate::text::Spanned;

verus! {

/// The decimal digits of `n`.
pub open spec fn decimal(n: nat) -> Seq<char>
    decreases n,
{
    if n < 10 {
        seq![((n + 48) as u8) as char]
    } else {
        decimal(n / 10).push((((n % 10) + 48) as u8) as char)
    }
}

/// Appends the decimal digits of `n` to `out`.
pub fn push_decimal(out: &mut String, n: u64)
    ensures
        final(out)@ == old(out)@ + decimal(n as nat),
    decreases n,
{
    if n >= 10 {
        push_decimal(out, n / 10);
    }
    let d = (n % 10) as u8;
    push_char(out, (d + 48) as char);
    proof {
        assert(final(out)@ =~= old(out)@ + decimal(n as nat));
    }
}

/// ` (at @start..end)`: where a diagnostic applies, by byte offsets.
pub open spec fn span_suffix(span: Span) -> Seq<char> {
    seq![' ', '(', 'a', 't', ' ', '@'] + decimal(span.start.0 as nat) + seq!['.', '.'] + decimal(
        span.end.0 as nat,
    ) + seq![')']
}

/// Appends ` (at @start..end)`.
pub fn push_span_suffix(out: &mut String, span: Span)
    ensures
        final(out)@ == old(out)@ + span_suffix(span),
{
    let ghost before = out@;
    push_char(out, ' ');
    push_char(out, '(');
    push_char(out, 'a');
    push_char(out, 't');
    push_char(out, ' ');
    push_char(out, '@');
    push_decimal(out, span.start.0 as u64);
    push_char(out, '.');
    push_char(out, '.');
    push_decimal(out, span.end.0 as u64);
    push_char(out, ')');
    assert(out@ =~= before + span_suffix(span));
}

/// Diagnostics that can be produced by the parser. Each diagnostic has a
/// message that describes the error, and a span that indicates the location
/// in the source text where the error occurred.
///
/// Fatal diagnostics indicate that the parser was unable to recover from the
/// error, and the AST may be incomplete or incorrect. Non-fatal diagnostics
/// indicate that the parser was able to recover from the error, and the AST
/// still fully represents the input text, but the AST may still be invalid in
/// some way (like escaping a character that can not be escaped).
#[derive(Debug)]
pub enum Diagnostic<'text> {
    NumberMissingIntegralPart { number: Number<'text> },
    NumberLeadingZeroIntegralPart { number: Number<'text> },
    NumberMissingFractionalPart { number: Number<'text> },
    NumberMissingExponentPart { number: Number<'text> },
    OptionMissingKey { span: Span },
    OptionMissingValue { span: Span },
    LoneEqualsSign { loc: Location },
    MarkupMissingIdentifier { span: Span },
    MarkupInvalidSpaceBeforeIdentifier { id: Identifier<'text>, start_loc: Location },
    MarkupMissingClosingBrace { span: Span },
    MarkupCloseInvalidSelfClose { self_close_loc: Location },
    MarkupInvalidSpaceBetweenSelfCloseAndBrace { space: Span },
    MarkupOptionAfterAttribute { previous_attribute: Attribute<'text>, option: FnOrMarkupOption<'text> },
    FunctionMissingIdentifier { span: Span },
    UnterminatedQuoted { span: Span },
    PlaceholderMissingClosingBrace { span: Span },
    PlaceholderMissingBody { span: Span },
    PlaceholderInvalidLiteral { span: Span },
    PlaceholderInvalidContents { span: Span },
    QuotedPatternInsidePattern { open_span: Span, close_span: Option<Span> },
    MarkupInvalidContents { span: Span },
    MissingIdentifierName { identifier: Identifier<'text> },
    MissingIdentifierNamespace { identifier: Identifier<'text> },
    EscapeInvalidCharacter { slash_loc: Location, char: char },
    EscapeMissingCharacter { slash_loc: Location },
    InvalidNullCharacter { char_loc: Location },
    InvalidClosingBrace { brace_loc: Location },
    AnnotationMissingSpaceBefore { span: Span },
    AttributeMissingSpaceBefore { span: Span },
    AttributeMissingKey { span: Span },
    AttributeMissingValue { span: Span },
    AttributeValueIsVariable { span: Span },
    VariableMissingName { span: Span },
    UnterminatedQuotedPattern { span: Span },
    LocalKeywordMissingTrailingSpace { span: Span },
    LocalVariableMissingDollar { span: Span },
    MissingSpaceBeforeMatcherSelector { span: Span },
    MissingSpaceBeforeMatcherKey { span: Span },
    ComplexMessageMissingBody { span: Span },
    ComplexMessageTrailingContent { span: Span },
    ComplexMessageBodyNotQuoted { span: Span },
    ComplexMessageDeclarationAfterBody { span: Span, body_start: Location },
    ComplexMessageMultipleBodies { span: Span },
    MatcherKeyIsVariable { span: Span },
    InvalidMatcherLiteralKey { span: Span },
    InvalidStatement { span: Span, keyword: &'text str },
    LocalDeclarationMalformed { span: Span },
    LocalDeclarationValueNotWrappedInBraces { span: Span },
    LocalDeclarationVariableMissingTrailingEquals { span: Span },
    LocalDeclarationMissingExpression { span: Span },
    InputDeclarationMissingExpression { span: Span },
    InputDeclarationWithInvalidExpression { span: Span, expression: Expression<'text> },
    MatcherMissingSelectors { span: Span },
    MatcherVariantKeysMismatch { span: Span, selectors: usize, keys: usize },
    MatcherVariantMissingKeys { span: Span },
    MatcherVariantExpressionBodyNotQuoted { span: Span },
    MatcherVariantMissingBody { span: Span },
    MatcherMissingFallback { span: Span },
    DuplicateDeclaration { first_span: Span, second_span: Span, name: &'text str },
    UsageBeforeDeclaration { declaration_span: Span, usage_span: Span, name: &'text str },
}

impl<'text> Diagnostic<'text> {
    /// The locations that `span` computes fit in a [Location].
    pub open spec fn fits(&self) -> bool {
        match self {
            Diagnostic::NumberMissingIntegralPart { number } => number.fits(),
            Diagnostic::NumberLeadingZeroIntegralPart { number } => number.fits(),
            Diagnostic::NumberMissingFractionalPart { number } => number.fits(),
            Diagnostic::NumberMissingExponentPart { number } => number.fits(),
            Diagnostic::OptionMissingKey { span } => true,
            Diagnostic::OptionMissingValue { span } => true,
            Diagnostic::LoneEqualsSign { loc } => loc.byte() + 1 <= u32::MAX,
            Diagnostic::MarkupMissingIdentifier { span } => true,
            Diagnostic::MarkupInvalidSpaceBeforeIdentifier { id, start_loc } => start_loc.byte() + 1 <= u32::MAX && id.fits(),
            Diagnostic::MarkupMissingClosingBrace { span } => true,
            Diagnostic::MarkupCloseInvalidSelfClose { self_close_loc } => self_close_loc.byte() + 1 <= u32::MAX,
            Diagnostic::MarkupInvalidSpaceBetweenSelfCloseAndBrace { space } => true,
            Diagnostic::MarkupOptionAfterAttribute { previous_attribute, option } => option.fits(),
            Diagnostic::FunctionMissingIdentifier { span } => true,
            Diagnostic::UnterminatedQuoted { span } => true,
            Diagnostic::PlaceholderMissingClosingBrace { span } => true,
            Diagnostic::PlaceholderMissingBody { span } => true,
            Diagnostic::PlaceholderInvalidLiteral { span } => true,
            Diagnostic::PlaceholderInvalidContents { span } => true,
            Diagnostic::QuotedPatternInsidePattern { open_span, close_span } => true,
            Diagnostic::MarkupInvalidContents { span } => true,
            Diagnostic::MissingIdentifierName { identifier } => identifier.fits(),
            Diagnostic::MissingIdentifierNamespace { identifier } => identifier.fits(),
            Diagnostic::EscapeInvalidCharacter { slash_loc, char } => slash_loc.byte() + 1 + utf8_width(*char) <= u32::MAX,
            Diagnostic::EscapeMissingCharacter { slash_loc } => slash_loc.byte() + 1 <= u32::MAX,
            Diagnostic::InvalidNullCharacter { char_loc } => char_loc.byte() + 1 <= u32::MAX,
            Diagnostic::InvalidClosingBrace { brace_loc } => brace_loc.byte() + 1 <= u32::MAX,
            Diagnostic::AnnotationMissingSpaceBefore { span } => true,
            Diagnostic::AttributeMissingSpaceBefore { span } => true,
            Diagnostic::AttributeMissingKey { span } => true,
            Diagnostic::AttributeMissingValue { span } => true,
            Diagnostic::AttributeValueIsVariable { span } => true,
            Diagnostic::VariableMissingName { span } => true,
            Diagnostic::UnterminatedQuotedPattern { span } => true,
            Diagnostic::LocalKeywordMissingTrailingSpace { span } => true,
            Diagnostic::LocalVariableMissingDollar { span } => true,
            Diagnostic::MissingSpaceBeforeMatcherSelector { span } => true,
            Diagnostic::MissingSpaceBeforeMatcherKey { span } => true,
            Diagnostic::ComplexMessageMissingBody { span } => true,
            Diagnostic::ComplexMessageTrailingContent { span } => true,
            Diagnostic::ComplexMessageBodyNotQuoted { span } => true,
            Diagnostic::ComplexMessageDeclarationAfterBody { span, body_start } => true,
            Diagnostic::ComplexMessageMultipleBodies { span } => true,
            Diagnostic::MatcherKeyIsVariable { span } => true,
            Diagnostic::InvalidMatcherLiteralKey { span } => true,
            Diagnostic::InvalidStatement { span, keyword } => true,
            Diagnostic::LocalDeclarationMalformed { span } => true,
            Diagnostic::LocalDeclarationValueNotWrappedInBraces { span } => true,
            Diagnostic::LocalDeclarationVariableMissingTrailingEquals { span } => true,
            Diagnostic::LocalDeclarationMissingExpression { span } => true,
            Diagnostic::InputDeclarationMissingExpression { span } => true,
            Diagnostic::InputDeclarationWithInvalidExpression { span, expression } => true,
            Diagnostic::MatcherMissingSelectors { span } => true,
            Diagnostic::MatcherVariantKeysMismatch { span, selectors, keys } => true,
            Diagnostic::MatcherVariantMissingKeys { span } => true,
            Diagnostic::MatcherVariantExpressionBodyNotQuoted { span } => true,
            Diagnostic::MatcherVariantMissingBody { span } => true,
            Diagnostic::MatcherMissingFallback { span } => true,
            Diagnostic::DuplicateDeclaration { first_span, second_span, name } => true,
            Diagnostic::UsageBeforeDeclaration { declaration_span, usage_span, name } => true,
        }
    }

    /// The spans, locations and nodes of the diagnostic are in `s`, and its
    /// span can be computed.
    pub open spec fn wf(&self, s: Seq<char>) -> bool {
        &&& self.fits()
        &&& match self {
            Diagnostic::NumberMissingIntegralPart { number } => number.wf(s),
            Diagnostic::NumberLeadingZeroIntegralPart { number } => number.wf(s),
            Diagnostic::NumberMissingFractionalPart { number } => number.wf(s) && number.fractional_len is Some,
            Diagnostic::NumberMissingExponentPart { number } => number.wf(s) && number.exponent_len is Some,
            Diagnostic::OptionMissingKey { span } => span_in(s, *span),
            Diagnostic::OptionMissingValue { span } => span_in(s, *span),
            Diagnostic::LoneEqualsSign { loc } => is_boundary(s, loc.byte()) && is_boundary(s, loc.byte() + 1),
            Diagnostic::MarkupMissingIdentifier { span } => span_in(s, *span),
            Diagnostic::MarkupInvalidSpaceBeforeIdentifier { id, start_loc } => {
                &&& id.wf(s)
                &&& is_boundary(s, start_loc.byte())
                &&& is_boundary(s, start_loc.byte() + 1)
                &&& start_loc.byte() + 1 <= id.spec_span().start.byte()
            },
            Diagnostic::MarkupMissingClosingBrace { span } => span_in(s, *span),
            Diagnostic::MarkupCloseInvalidSelfClose { self_close_loc } => is_boundary(s, self_close_loc.byte()) && is_boundary(s, self_close_loc.byte() + 1),
            Diagnostic::MarkupInvalidSpaceBetweenSelfCloseAndBrace { space } => span_in(s, *space),
            Diagnostic::MarkupOptionAfterAttribute { previous_attribute, option } => previous_attribute.wf(s) && option.wf(s),
            Diagnostic::FunctionMissingIdentifier { span } => span_in(s, *span),
            Diagnostic::UnterminatedQuoted { span } => span_in(s, *span),
            Diagnostic::PlaceholderMissingClosingBrace { span } => span_in(s, *span),
            Diagnostic::PlaceholderMissingBody { span } => span_in(s, *span),
            Diagnostic::PlaceholderInvalidLiteral { span } => span_in(s, *span),
            Diagnostic::PlaceholderInvalidContents { span } => span_in(s, *span),
            Diagnostic::QuotedPatternInsidePattern { open_span, close_span } => span_in(s, *open_span) && (close_span matches Some(sp) ==> span_in(s, *sp)),
            Diagnostic::MarkupInvalidContents { span } => span_in(s, *span),
            Diagnostic::MissingIdentifierName { identifier } => identifier.wf(s),
            Diagnostic::MissingIdentifierNamespace { identifier } => identifier.wf(s),
            Diagnostic::EscapeInvalidCharacter { slash_loc, char } => is_boundary(s, slash_loc.byte()) && is_boundary(s, slash_loc.byte() + 1 + utf8_width(*char)),
            Diagnostic::EscapeMissingCharacter { slash_loc } => is_boundary(s, slash_loc.byte()) && is_boundary(s, slash_loc.byte() + 1),
            Diagnostic::InvalidNullCharacter { char_loc } => is_boundary(s, char_loc.byte()) && is_boundary(s, char_loc.byte() + 1),
            Diagnostic::InvalidClosingBrace { brace_loc } => is_boundary(s, brace_loc.byte()) && is_boundary(s, brace_loc.byte() + 1),
            Diagnostic::AnnotationMissingSpaceBefore { span } => span_in(s, *span),
            Diagnostic::AttributeMissingSpaceBefore { span } => span_in(s, *span),
            Diagnostic::AttributeMissingKey { span } => span_in(s, *span),
            Diagnostic::AttributeMissingValue { span } => span_in(s, *span),
            Diagnostic::AttributeValueIsVariable { span } => span_in(s, *span),
            Diagnostic::VariableMissingName { span } => span_in(s, *span),
            Diagnostic::UnterminatedQuotedPattern { span } => span_in(s, *span),
            Diagnostic::LocalKeywordMissingTrailingSpace { span } => span_in(s, *span) && span.start.byte() + 6 <= span.end.byte(),
            Diagnostic::LocalVariableMissingDollar { span } => span_in(s, *span),
            Diagnostic::MissingSpaceBeforeMatcherSelector { span } => span_in(s, *span),
            Diagnostic::MissingSpaceBeforeMatcherKey { span } => span_in(s, *span),
            Diagnostic::ComplexMessageMissingBody { span } => span_in(s, *span),
            Diagnostic::ComplexMessageTrailingContent { span } => span_in(s, *span),
            Diagnostic::ComplexMessageBodyNotQuoted { span } => span_in(s, *span),
            Diagnostic::ComplexMessageDeclarationAfterBody { span, body_start } => span_in(s, *span) && is_boundary(s, body_start.byte()),
            Diagnostic::ComplexMessageMultipleBodies { span } => span_in(s, *span),
            Diagnostic::MatcherKeyIsVariable { span } => span_in(s, *span),
            Diagnostic::InvalidMatcherLiteralKey { span } => span_in(s, *span),
            Diagnostic::InvalidStatement { span, keyword } => span_in(s, *span),
            Diagnostic::LocalDeclarationMalformed { span } => span_in(s, *span),
            Diagnostic::LocalDeclarationValueNotWrappedInBraces { span } => span_in(s, *span),
            Diagnostic::LocalDeclarationVariableMissingTrailingEquals { span } => span_in(s, *span),
            Diagnostic::LocalDeclarationMissingExpression { span } => span_in(s, *span),
            Diagnostic::InputDeclarationMissingExpression { span } => span_in(s, *span),
            Diagnostic::InputDeclarationWithInvalidExpression { span, expression } => span_in(s, *span) && expression.wf(s),
            Diagnostic::MatcherMissingSelectors { span } => span_in(s, *span),
            Diagnostic::MatcherVariantKeysMismatch { span, selectors, keys } => span_in(s, *span),
            Diagnostic::MatcherVariantMissingKeys { span } => span_in(s, *span),
            Diagnostic::MatcherVariantExpressionBodyNotQuoted { span } => span_in(s, *span),
            Diagnostic::MatcherVariantMissingBody { span } => span_in(s, *span),
            Diagnostic::MatcherMissingFallback { span } => span_in(s, *span),
            Diagnostic::DuplicateDeclaration { first_span, second_span, name } => span_in(s, *first_span) && span_in(s, *second_span),
            Diagnostic::UsageBeforeDeclaration { declaration_span, usage_span, name } => span_in(s, *declaration_span) && span_in(s, *usage_span),
        }
    }

    /// The span of the diagnostic.
    pub open spec fn spec_span(&self) -> Span {
        match self {
            Diagnostic::NumberMissingIntegralPart { number } => number.spec_span(),
            Diagnostic::NumberLeadingZeroIntegralPart { number } => number.spec_span(),
            Diagnostic::NumberMissingFractionalPart { number } => number.spec_span(),
            Diagnostic::NumberMissingExponentPart { number } => number.spec_span(),
            Diagnostic::OptionMissingKey { span } => *span,
            Diagnostic::OptionMissingValue { span } => *span,
            Diagnostic::LoneEqualsSign { loc } => Span { start: *loc, end: Location((loc.0 + 1) as u32) },
            Diagnostic::MarkupMissingIdentifier { span } => *span,
            Diagnostic::MarkupInvalidSpaceBeforeIdentifier { id, start_loc } => Span { start: Location((start_loc.0 + 1) as u32), end: id.spec_span().start },
            Diagnostic::MarkupMissingClosingBrace { span } => *span,
            Diagnostic::MarkupCloseInvalidSelfClose { self_close_loc } => Span { start: *self_close_loc, end: Location((self_close_loc.0 + 1) as u32) },
            Diagnostic::MarkupInvalidSpaceBetweenSelfCloseAndBrace { space } => *space,
            Diagnostic::MarkupOptionAfterAttribute { previous_attribute, option } => option.spec_span(),
            Diagnostic::FunctionMissingIdentifier { span } => *span,
            Diagnostic::UnterminatedQuoted { span } => *span,
            Diagnostic::PlaceholderMissingClosingBrace { span } => *span,
            Diagnostic::PlaceholderMissingBody { span } => *span,
            Diagnostic::PlaceholderInvalidLiteral { span } => *span,
            Diagnostic::PlaceholderInvalidContents { span } => *span,
            Diagnostic::QuotedPatternInsidePattern { open_span, close_span } => *open_span,
            Diagnostic::MarkupInvalidContents { span } => *span,
            Diagnostic::MissingIdentifierName { identifier } => identifier.spec_span(),
            Diagnostic::MissingIdentifierNamespace { identifier } => identifier.spec_span(),
            Diagnostic::EscapeInvalidCharacter { slash_loc, char } => Span { start: *slash_loc, end: Location((slash_loc.0 + 1 + utf8_width(*char)) as u32) },
            Diagnostic::EscapeMissingCharacter { slash_loc } => Span { start: *slash_loc, end: Location((slash_loc.0 + 1) as u32) },
            Diagnostic::InvalidNullCharacter { char_loc } => Span { start: *char_loc, end: Location((char_loc.0 + 1) as u32) },
            Diagnostic::InvalidClosingBrace { brace_loc } => Span { start: *brace_loc, end: Location((brace_loc.0 + 1) as u32) },
            Diagnostic::AnnotationMissingSpaceBefore { span } => *span,
            Diagnostic::AttributeMissingSpaceBefore { span } => *span,
            Diagnostic::AttributeMissingKey { span } => *span,
            Diagnostic::AttributeMissingValue { span } => *span,
            Diagnostic::AttributeValueIsVariable { span } => *span,
            Diagnostic::VariableMissingName { span } => *span,
            Diagnostic::UnterminatedQuotedPattern { span } => *span,
            Diagnostic::LocalKeywordMissingTrailingSpace { span } => *span,
            Diagnostic::LocalVariableMissingDollar { span } => *span,
            Diagnostic::MissingSpaceBeforeMatcherSelector { span } => *span,
            Diagnostic::MissingSpaceBeforeMatcherKey { span } => *span,
            Diagnostic::ComplexMessageMissingBody { span } => *span,
            Diagnostic::ComplexMessageTrailingContent { span } => *span,
            Diagnostic::ComplexMessageBodyNotQuoted { span } => *span,
            Diagnostic::ComplexMessageDeclarationAfterBody { span, body_start } => *span,
            Diagnostic::ComplexMessageMultipleBodies { span } => *span,
            Diagnostic::MatcherKeyIsVariable { span } => *span,
            Diagnostic::InvalidMatcherLiteralKey { span } => *span,
            Diagnostic::InvalidStatement { span, keyword } => *span,
            Diagnostic::LocalDeclarationMalformed { span } => *span,
            Diagnostic::LocalDeclarationValueNotWrappedInBraces { span } => *span,
            Diagnostic::LocalDeclarationVariableMissingTrailingEquals { span } => *span,
            Diagnostic::LocalDeclarationMissingExpression { span } => *span,
            Diagnostic::InputDeclarationMissingExpression { span } => *span,
            Diagnostic::InputDeclarationWithInvalidExpression { span, expression } => *span,
            Diagnostic::MatcherMissingSelectors { span } => *span,
            Diagnostic::MatcherVariantKeysMismatch { span, selectors, keys } => *span,
            Diagnostic::MatcherVariantMissingKeys { span } => *span,
            Diagnostic::MatcherVariantExpressionBodyNotQuoted { span } => *span,
            Diagnostic::MatcherVariantMissingBody { span } => *span,
            Diagnostic::MatcherMissingFallback { span } => *span,
            Diagnostic::DuplicateDeclaration { first_span, second_span, name } => *second_span,
            Diagnostic::UsageBeforeDeclaration { declaration_span, usage_span, name } => *usage_span,
        }
    }

    /// A diagnostic placed in `s` covers a span of `s`.
    pub proof fn lemma_span_in(&self, s: Seq<char>)
        requires
            self.wf(s),
        ensures
            span_in(s, self.spec_span()),
    {
        match self {
            Diagnostic::NumberMissingIntegralPart { number } => crate::ast::lemma_number_span(*number, s),
            Diagnostic::NumberLeadingZeroIntegralPart { number } => crate::ast::lemma_number_span(*number, s),
            Diagnostic::NumberMissingFractionalPart { number } => crate::ast::lemma_number_span(*number, s),
            Diagnostic::NumberMissingExponentPart { number } => crate::ast::lemma_number_span(*number, s),
            Diagnostic::MarkupInvalidSpaceBeforeIdentifier { id, start_loc } => crate::ast::lemma_identifier_span(*id, s),
            Diagnostic::MissingIdentifierName { identifier } => crate::ast::lemma_identifier_span(*identifier, s),
            Diagnostic::MissingIdentifierNamespace { identifier } => crate::ast::lemma_identifier_span(*identifier, s),
            _ => {},
        }
    }

    /// Get the span of the diagnostic.
    pub fn span(&self) -> (r: Span)
        requires
            self.fits(),
        ensures
            r == self.spec_span(),
    {
        match self {
            Diagnostic::NumberMissingIntegralPart { number } => number.span(),
            Diagnostic::NumberLeadingZeroIntegralPart { number } => number.span(),
            Diagnostic::NumberMissingFractionalPart { number } => number.span(),
            Diagnostic::NumberMissingExponentPart { number } => number.span(),
            Diagnostic::OptionMissingKey { span } => *span,
            Diagnostic::OptionMissingValue { span } => *span,
            Diagnostic::LoneEqualsSign { loc } => Span { start: *loc, end: loc.add_char('=') },
            Diagnostic::MarkupMissingIdentifier { span } => *span,
            Diagnostic::MarkupInvalidSpaceBeforeIdentifier { id, start_loc } => Span { start: start_loc.add_char('#'), end: id.span().start },
            Diagnostic::MarkupMissingClosingBrace { span } => *span,
            Diagnostic::MarkupCloseInvalidSelfClose { self_close_loc } => Span { start: *self_close_loc, end: self_close_loc.add_char('/') },
            Diagnostic::MarkupInvalidSpaceBetweenSelfCloseAndBrace { space } => *space,
            Diagnostic::MarkupOptionAfterAttribute { previous_attribute, option } => option.span(),
            Diagnostic::FunctionMissingIdentifier { span } => *span,
            Diagnostic::UnterminatedQuoted { span } => *span,
            Diagnostic::PlaceholderMissingClosingBrace { span } => *span,
            Diagnostic::PlaceholderMissingBody { span } => *span,
            Diagnostic::PlaceholderInvalidLiteral { span } => *span,
            Diagnostic::PlaceholderInvalidContents { span } => *span,
            Diagnostic::QuotedPatternInsidePattern { open_span, close_span } => *open_span,
            Diagnostic::MarkupInvalidContents { span } => *span,
            Diagnostic::MissingIdentifierName { identifier } => identifier.span(),
            Diagnostic::MissingIdentifierNamespace { identifier } => identifier.span(),
            Diagnostic::EscapeInvalidCharacter { slash_loc, char } => Span { start: *slash_loc, end: slash_loc.add_char('\\').add_char(*char) },
            Diagnostic::EscapeMissingCharacter { slash_loc } => Span { start: *slash_loc, end: slash_loc.add_char('\\') },
            Diagnostic::InvalidNullCharacter { char_loc } => Span { start: *char_loc, end: char_loc.add_char('\0') },
            Diagnostic::InvalidClosingBrace { brace_loc } => Span { start: *brace_loc, end: brace_loc.add_char('}') },
            Diagnostic::AnnotationMissingSpaceBefore { span } => *span,
            Diagnostic::AttributeMissingSpaceBefore { span } => *span,
            Diagnostic::AttributeMissingKey { span } => *span,
            Diagnostic::AttributeMissingValue { span } => *span,
            Diagnostic::AttributeValueIsVariable { span } => *span,
            Diagnostic::VariableMissingName { span } => *span,
            Diagnostic::UnterminatedQuotedPattern { span } => *span,
            Diagnostic::LocalKeywordMissingTrailingSpace { span } => *span,
            Diagnostic::LocalVariableMissingDollar { span } => *span,
            Diagnostic::MissingSpaceBeforeMatcherSelector { span } => *span,
            Diagnostic::MissingSpaceBeforeMatcherKey { span } => *span,
            Diagnostic::ComplexMessageMissingBody { span } => *span,
            Diagnostic::ComplexMessageTrailingContent { span } => *span,
            Diagnostic::ComplexMessageBodyNotQuoted { span } => *span,
            Diagnostic::ComplexMessageDeclarationAfterBody { span, body_start } => *span,
            Diagnostic::ComplexMessageMultipleBodies { span } => *span,
            Diagnostic::MatcherKeyIsVariable { span } => *span,
            Diagnostic::InvalidMatcherLiteralKey { span } => *span,
            Diagnostic::InvalidStatement { span, keyword } => *span,
            Diagnostic::LocalDeclarationMalformed { span } => *span,
            Diagnostic::LocalDeclarationValueNotWrappedInBraces { span } => *span,
            Diagnostic::LocalDeclarationVariableMissingTrailingEquals { span } => *span,
            Diagnostic::LocalDeclarationMissingExpression { span } => *span,
            Diagnostic::InputDeclarationMissingExpression { span } => *span,
            Diagnostic::InputDeclarationWithInvalidExpression { span, expression } => *span,
            Diagnostic::MatcherMissingSelectors { span } => *span,
            Diagnostic::MatcherVariantKeysMismatch { span, selectors, keys } => *span,
            Diagnostic::MatcherVariantMissingKeys { span } => *span,
            Diagnostic::MatcherVariantExpressionBodyNotQuoted { span } => *span,
            Diagnostic::MatcherVariantMissingBody { span } => *span,
            Diagnostic::MatcherMissingFallback { span } => *span,
            Diagnostic::DuplicateDeclaration { first_span, second_span, name } => *second_span,
            Diagnostic::UsageBeforeDeclaration { declaration_span, usage_span, name } => *usage_span,
        }
    }

    /// Whether the diagnostic is fatal. Fatal diagnostics indicate that the
    /// parser was unable to recover from the error, and the AST may be
    /// incomplete or incorrect.
    pub open spec fn is_fatal(&self) -> bool {
        match self {
            Diagnostic::NumberMissingIntegralPart { .. } => false,
            Diagnostic::NumberLeadingZeroIntegralPart { .. } => false,
            Diagnostic::NumberMissingFractionalPart { .. } => false,
            Diagnostic::NumberMissingExponentPart { .. } => false,
            Diagnostic::OptionMissingKey { .. } => false,
            Diagnostic::OptionMissingValue { .. } => true,
            Diagnostic::LoneEqualsSign { .. } => true,
            Diagnostic::MarkupMissingIdentifier { .. } => false,
            Diagnostic::MarkupInvalidSpaceBeforeIdentifier { .. } => true,
            Diagnostic::MarkupMissingClosingBrace { .. } => true,
            Diagnostic::MarkupCloseInvalidSelfClose { .. } => true,
            Diagnostic::MarkupInvalidSpaceBetweenSelfCloseAndBrace { .. } => true,
            Diagnostic::MarkupOptionAfterAttribute { .. } => false,
            Diagnostic::FunctionMissingIdentifier { .. } => false,
            Diagnostic::UnterminatedQuoted { .. } => true,
            Diagnostic::PlaceholderMissingClosingBrace { .. } => true,
            Diagnostic::PlaceholderMissingBody { .. } => false,
            Diagnostic::PlaceholderInvalidLiteral { .. } => false,
            Diagnostic::PlaceholderInvalidContents { .. } => true,
            Diagnostic::QuotedPatternInsidePattern { .. } => false,
            Diagnostic::MarkupInvalidContents { .. } => true,
            Diagnostic::MissingIdentifierName { .. } => false,
            Diagnostic::MissingIdentifierNamespace { .. } => false,
            Diagnostic::EscapeInvalidCharacter { .. } => false,
            Diagnostic::EscapeMissingCharacter { .. } => true,
            Diagnostic::InvalidNullCharacter { .. } => false,
            Diagnostic::InvalidClosingBrace { .. } => false,
            Diagnostic::AnnotationMissingSpaceBefore { .. } => true,
            Diagnostic::AttributeMissingSpaceBefore { .. } => true,
            Diagnostic::AttributeMissingKey { .. } => false,
            Diagnostic::AttributeMissingValue { .. } => true,
            Diagnostic::AttributeValueIsVariable { .. } => false,
            Diagnostic::VariableMissingName { .. } => false,
            Diagnostic::UnterminatedQuotedPattern { .. } => true,
            Diagnostic::LocalKeywordMissingTrailingSpace { .. } => true,
            Diagnostic::LocalVariableMissingDollar { .. } => true,
            Diagnostic::MissingSpaceBeforeMatcherSelector { .. } => true,
            Diagnostic::MissingSpaceBeforeMatcherKey { .. } => true,
            Diagnostic::ComplexMessageMissingBody { .. } => true,
            Diagnostic::ComplexMessageTrailingContent { .. } => true,
            Diagnostic::ComplexMessageBodyNotQuoted { .. } => true,
            Diagnostic::ComplexMessageDeclarationAfterBody { .. } => true,
            Diagnostic::ComplexMessageMultipleBodies { .. } => true,
            Diagnostic::MatcherKeyIsVariable { .. } => false,
            Diagnostic::InvalidMatcherLiteralKey { .. } => false,
            Diagnostic::InvalidStatement { .. } => true,
            Diagnostic::LocalDeclarationMalformed { .. } => true,
            Diagnostic::LocalDeclarationValueNotWrappedInBraces { .. } => true,
            Diagnostic::LocalDeclarationVariableMissingTrailingEquals { .. } => true,
            Diagnostic::LocalDeclarationMissingExpression { .. } => true,
            Diagnostic::InputDeclarationMissingExpression { .. } => true,
            Diagnostic::InputDeclarationWithInvalidExpression { .. } => true,
            Diagnostic::MatcherMissingSelectors { .. } => false,
            Diagnostic::MatcherVariantKeysMismatch { .. } => false,
            Diagnostic::MatcherVariantMissingKeys { .. } => false,
            Diagnostic::MatcherVariantExpressionBodyNotQuoted { .. } => true,
            Diagnostic::MatcherVariantMissingBody { .. } => true,
            Diagnostic::MatcherMissingFallback { .. } => false,
            Diagnostic::DuplicateDeclaration { .. } => false,
            Diagnostic::UsageBeforeDeclaration { .. } => false,
        }
    }

    /// Check if the diagnostic is fatal.
    pub fn fatal(&self) -> (r: bool)
        ensures
            r == self.is_fatal(),
    {
        match self {
            Diagnostic::NumberMissingIntegralPart { .. } => false,
            Diagnostic::NumberLeadingZeroIntegralPart { .. } => false,
            Diagnostic::NumberMissingFractionalPart { .. } => false,
            Diagnostic::NumberMissingExponentPart { .. } => false,
            Diagnostic::OptionMissingKey { .. } => false,
            Diagnostic::OptionMissingValue { .. } => true,
            Diagnostic::LoneEqualsSign { .. } => true,
            Diagnostic::MarkupMissingIdentifier { .. } => false,
            Diagnostic::MarkupInvalidSpaceBeforeIdentifier { .. } => true,
            Diagnostic::MarkupMissingClosingBrace { .. } => true,
            Diagnostic::MarkupCloseInvalidSelfClose { .. } => true,
            Diagnostic::MarkupInvalidSpaceBetweenSelfCloseAndBrace { .. } => true,
            Diagnostic::MarkupOptionAfterAttribute { .. } => false,
            Diagnostic::FunctionMissingIdentifier { .. } => false,
            Diagnostic::UnterminatedQuoted { .. } => true,
            Diagnostic::PlaceholderMissingClosingBrace { .. } => true,
            Diagnostic::PlaceholderMissingBody { .. } => false,
            Diagnostic::PlaceholderInvalidLiteral { .. } => false,
            Diagnostic::PlaceholderInvalidContents { .. } => true,
            Diagnostic::QuotedPatternInsidePattern { .. } => false,
            Diagnostic::MarkupInvalidContents { .. } => true,
            Diagnostic::MissingIdentifierName { .. } => false,
            Diagnostic::MissingIdentifierNamespace { .. } => false,
            Diagnostic::EscapeInvalidCharacter { .. } => false,
            Diagnostic::EscapeMissingCharacter { .. } => true,
            Diagnostic::InvalidNullCharacter { .. } => false,
            Diagnostic::InvalidClosingBrace { .. } => false,
            Diagnostic::AnnotationMissingSpaceBefore { .. } => true,
            Diagnostic::AttributeMissingSpaceBefore { .. } => true,
            Diagnostic::AttributeMissingKey { .. } => false,
            Diagnostic::AttributeMissingValue { .. } => true,
            Diagnostic::AttributeValueIsVariable { .. } => false,
            Diagnostic::VariableMissingName { .. } => false,
            Diagnostic::UnterminatedQuotedPattern { .. } => true,
            Diagnostic::LocalKeywordMissingTrailingSpace { .. } => true,
            Diagnostic::LocalVariableMissingDollar { .. } => true,
            Diagnostic::MissingSpaceBeforeMatcherSelector { .. } => true,
            Diagnostic::MissingSpaceBeforeMatcherKey { .. } => true,
            Diagnostic::ComplexMessageMissingBody { .. } => true,
            Diagnostic::ComplexMessageTrailingContent { .. } => true,
            Diagnostic::ComplexMessageBodyNotQuoted { .. } => true,
            Diagnostic::ComplexMessageDeclarationAfterBody { .. } => true,
            Diagnostic::ComplexMessageMultipleBodies { .. } => true,
            Diagnostic::MatcherKeyIsVariable { .. } => false,
            Diagnostic::InvalidMatcherLiteralKey { .. } => false,
            Diagnostic::InvalidStatement { .. } => true,
            Diagnostic::LocalDeclarationMalformed { .. } => true,
            Diagnostic::LocalDeclarationValueNotWrappedInBraces { .. } => true,
            Diagnostic::LocalDeclarationVariableMissingTrailingEquals { .. } => true,
            Diagnostic::LocalDeclarationMissingExpression { .. } => true,
            Diagnostic::InputDeclarationMissingExpression { .. } => true,
            Diagnostic::InputDeclarationWithInvalidExpression { .. } => true,
            Diagnostic::MatcherMissingSelectors { .. } => false,
            Diagnostic::MatcherVariantKeysMismatch { .. } => false,
            Diagnostic::MatcherVariantMissingKeys { .. } => false,
            Diagnostic::MatcherVariantExpressionBodyNotQuoted { .. } => true,
            Diagnostic::MatcherVariantMissingBody { .. } => true,
            Diagnostic::MatcherMissingFallback { .. } => false,
            Diagnostic::DuplicateDeclaration { .. } => false,
            Diagnostic::UsageBeforeDeclaration { .. } => false,
        }
    }

    /// The human-readable message of the diagnostic.
    pub open spec fn message_text(&self) -> Seq<char> {
        match self {
            Diagnostic::NumberMissingIntegralPart { .. } => "Number is missing an integral part."@,
            Diagnostic::NumberLeadingZeroIntegralPart { .. } => "Number has leading zero in integral part, which is not allowed."@,
            Diagnostic::NumberMissingFractionalPart { .. } => "Number is missing a fractional part, which it must have because it has a decimal point."@,
            Diagnostic::NumberMissingExponentPart { .. } => "Number is missing an exponent part, which it must have because it is written in scientific notation."@,
            Diagnostic::OptionMissingKey { .. } => "Found equals sign followed by value, but equals sign is not preceeded by a key. Did you forget to add a key to make this an option?"@,
            Diagnostic::OptionMissingValue { .. } => "Found an identifier followed by an equals sign, but not followed by a value. Did you forget to add a value to make this an option?"@,
            Diagnostic::LoneEqualsSign { .. } => "Found an equals sign without a key or value. Did you mean to add a key and value to make this an option?"@,
            Diagnostic::MarkupMissingIdentifier { .. } => "Markup tag is missing an identifier."@,
            Diagnostic::MarkupInvalidSpaceBeforeIdentifier { .. } => "Identifier of the markup tag is preceeded by spaces, which is not allowed."@,
            Diagnostic::MarkupMissingClosingBrace { .. } => "Markup tag is not closed with a closing brace."@,
            Diagnostic::MarkupCloseInvalidSelfClose { .. } => "Markup tag can not be self-closing if it is a close tag."@,
            Diagnostic::MarkupInvalidSpaceBetweenSelfCloseAndBrace { .. } => "Self-closing tag of a markup tag can not have trailing spaces before the closing brace."@,
            Diagnostic::MarkupOptionAfterAttribute { .. } => "Markup tag has an option after an attribute, which is not allowed. All options must come before any attribute."@,
            Diagnostic::FunctionMissingIdentifier { .. } => "Function is missing an identifier."@,
            Diagnostic::UnterminatedQuoted { .. } => "Quoted string is missing the closing quote."@,
            Diagnostic::PlaceholderMissingClosingBrace { .. } => "Placeholder is missing the closing brace."@,
            Diagnostic::PlaceholderMissingBody { .. } => "Placeholder is empty, but should have at least a variable reference, literal, or annotation."@,
            Diagnostic::PlaceholderInvalidLiteral { .. } => "Placeholder expression contains a literal that is not valid when unquoted. Did you mean to quote it?"@,
            Diagnostic::PlaceholderInvalidContents { .. } => "Placeholder expression contains invalid content."@,
            Diagnostic::QuotedPatternInsidePattern { .. } => "Quoted pattern is not allowed inside of a pattern."@,
            Diagnostic::MarkupInvalidContents { .. } => "Markup tag contains invalid content."@,
            Diagnostic::MissingIdentifierName { .. } => "Namespaced identifier is missing a name, which is required after the colon following the namespace."@,
            Diagnostic::MissingIdentifierNamespace { .. } => "Identifiers with a colon before the name are namespaced identifiers, but this identifier is missing a namespace before the colon."@,
            Diagnostic::EscapeInvalidCharacter { slash_loc, char } => "The character '"@ + seq![*char] + "' can not be escaped, as escape sequences can only escape '}', '{', '|', and '\\'."@,
            Diagnostic::EscapeMissingCharacter { .. } => "Backslashes start an escape sequence, but no character to be escaped was found. A literal '\\' must be written as '\\\\'."@,
            Diagnostic::InvalidNullCharacter { .. } => "The NULL character (0x00) is invalid anywhere inside of messages."@,
            Diagnostic::InvalidClosingBrace { .. } => "The closing brace character ('}') is invalid inside of messages, and must be escaped as '\\}'."@,
            Diagnostic::AnnotationMissingSpaceBefore { .. } => "Annotation is missing a leading space."@,
            Diagnostic::AttributeMissingSpaceBefore { .. } => "Attribute is missing a leading space."@,
            Diagnostic::AttributeMissingKey { .. } => "Attribute is missing a key after the '@' sign."@,
            Diagnostic::AttributeMissingValue { .. } => "Attribute is missing a value after the '=' sign."@,
            Diagnostic::AttributeValueIsVariable { .. } => "Attribute value can not be a variable, but must be a literal value."@,
            Diagnostic::VariableMissingName { .. } => "Variable is missing a name after the dollar sign ('$')."@,
            Diagnostic::UnterminatedQuotedPattern { .. } => "Quoted pattern is missing the closing braces ('}}')."@,
            Diagnostic::LocalKeywordMissingTrailingSpace { .. } => "'.local' keyword is not followed by a space."@,
            Diagnostic::LocalVariableMissingDollar { .. } => "Variable is not prefixed with a dollar sign ('$')."@,
            Diagnostic::MissingSpaceBeforeMatcherSelector { .. } => "Matcher selector is missing a leading space."@,
            Diagnostic::MissingSpaceBeforeMatcherKey { .. } => "Matcher key is missing a leading space."@,
            Diagnostic::ComplexMessageMissingBody { .. } => "Message is missing a body (a matcher or quoted pattern)."@,
            Diagnostic::ComplexMessageTrailingContent { .. } => "Message has additional invalid content after the body."@,
            Diagnostic::ComplexMessageBodyNotQuoted { .. } => "Using an unquoted pattern as the body is invalid, because the message contains declarations. Did you mean to quote the pattern?."@,
            Diagnostic::ComplexMessageDeclarationAfterBody { .. } => "Declarations are not valid after the message body. Did you mean to put the declaration before the body?"@,
            Diagnostic::ComplexMessageMultipleBodies { .. } => "Message has multiple bodies, but only one is allowed."@,
            Diagnostic::MatcherKeyIsVariable { .. } => "Matcher key is a variable, which is not allowed. Matcher keys must be literal values, or the wildcard ('*')."@,
            Diagnostic::InvalidMatcherLiteralKey { .. } => "Found an invalid matcher key (not a valid literal). Did you mean to quote the key to make it a literal?"@,
            Diagnostic::InvalidStatement { span, keyword } => "Found a statement that is invalid because the keyword '"@ + keyword@ + "' is unrecognized."@,
            Diagnostic::LocalDeclarationMalformed { .. } => "Found a local declaration that is missing or malformed name."@,
            Diagnostic::LocalDeclarationValueNotWrappedInBraces { .. } => "Value of a local declaration is a literal or variable, but must be an expression. Did you mean to wrap the value in braces?"@,
            Diagnostic::LocalDeclarationVariableMissingTrailingEquals { .. } => "Local declaration is missing an equals sign after the variable."@,
            Diagnostic::LocalDeclarationMissingExpression { .. } => "Local declaration is missing an expression as the value after the equals sign."@,
            Diagnostic::InputDeclarationMissingExpression { .. } => "Input declaration is missing an expression."@,
            Diagnostic::InputDeclarationWithInvalidExpression { .. } => "Input declaration has a non-variable expression, which is invalid. Did you mean to use a local declaration instead of an input declaration?"@,
            Diagnostic::MatcherMissingSelectors { .. } => "Matcher is missing a selector, but at least one is required."@,
            Diagnostic::MatcherVariantKeysMismatch { span, selectors, keys } => "Matcher variant has "@ + decimal(*keys as nat) + " keys, but there are "@ + decimal(*selectors as nat) + " selectors."@,
            Diagnostic::MatcherVariantMissingKeys { .. } => "Matcher variant is missing key(s), but at least one is required."@,
            Diagnostic::MatcherVariantExpressionBodyNotQuoted { .. } => "Matcher variant has an expression as a body, but only quoted patterns are allowed. Did you mean to wrap the expression in a quoted pattern?"@,
            Diagnostic::MatcherVariantMissingBody { .. } => "Matcher variant is missing a body."@,
            Diagnostic::MatcherMissingFallback { .. } => "Matcher is missing a catch-all variant, where all keys are *."@,
            Diagnostic::DuplicateDeclaration { first_span, second_span, name } => "$"@ + name@ + " has already been declared."@,
            Diagnostic::UsageBeforeDeclaration { declaration_span, usage_span, name } => "$"@ + name@ + " is used before it is declared."@,
        }
    }

    /// The diagnostic as displayed: its message and where it applies.
    pub open spec fn display_text(&self) -> Seq<char> {
        self.message_text() + span_suffix(self.spec_span())
    }

    /// The diagnostic as displayed: its message, then ` (at @start..end)`.
    pub fn to_string(&self) -> (r: String)
        requires
            self.fits(),
        ensures
            r@ == self.display_text(),
    {
        let mut r = self.message();
        push_span_suffix(&mut r, self.span());
        r
    }

    /// Get a human-readable message describing the diagnostic.
    pub fn message(&self) -> (r: String)
        ensures
            r@ == self.message_text(),
    {
        match self {
            Diagnostic::NumberMissingIntegralPart { .. } => String::from_str("Number is missing an integral part."),
            Diagnostic::NumberLeadingZeroIntegralPart { .. } => String::from_str("Number has leading zero in integral part, which is not allowed."),
            Diagnostic::NumberMissingFractionalPart { .. } => String::from_str("Number is missing a fractional part, which it must have because it has a decimal point."),
            Diagnostic::NumberMissingExponentPart { .. } => String::from_str("Number is missing an exponent part, which it must have because it is written in scientific notation."),
            Diagnostic::OptionMissingKey { .. } => String::from_str("Found equals sign followed by value, but equals sign is not preceeded by a key. Did you forget to add a key to make this an option?"),
            Diagnostic::OptionMissingValue { .. } => String::from_str("Found an identifier followed by an equals sign, but not followed by a value. Did you forget to add a value to make this an option?"),
            Diagnostic::LoneEqualsSign { .. } => String::from_str("Found an equals sign without a key or value. Did you mean to add a key and value to make this an option?"),
            Diagnostic::MarkupMissingIdentifier { .. } => String::from_str("Markup tag is missing an identifier."),
            Diagnostic::MarkupInvalidSpaceBeforeIdentifier { .. } => String::from_str("Identifier of the markup tag is preceeded by spaces, which is not allowed."),
            Diagnostic::MarkupMissingClosingBrace { .. } => String::from_str("Markup tag is not closed with a closing brace."),
            Diagnostic::MarkupCloseInvalidSelfClose { .. } => String::from_str("Markup tag can not be self-closing if it is a close tag."),
            Diagnostic::MarkupInvalidSpaceBetweenSelfCloseAndBrace { .. } => String::from_str("Self-closing tag of a markup tag can not have trailing spaces before the closing brace."),
            Diagnostic::MarkupOptionAfterAttribute { .. } => String::from_str("Markup tag has an option after an attribute, which is not allowed. All options must come before any attribute."),
            Diagnostic::FunctionMissingIdentifier { .. } => String::from_str("Function is missing an identifier."),
            Diagnostic::UnterminatedQuoted { .. } => String::from_str("Quoted string is missing the closing quote."),
            Diagnostic::PlaceholderMissingClosingBrace { .. } => String::from_str("Placeholder is missing the closing brace."),
            Diagnostic::PlaceholderMissingBody { .. } => String::from_str("Placeholder is empty, but should have at least a variable reference, literal, or annotation."),
            Diagnostic::PlaceholderInvalidLiteral { .. } => String::from_str("Placeholder expression contains a literal that is not valid when unquoted. Did you mean to quote it?"),
            Diagnostic::PlaceholderInvalidContents { .. } => String::from_str("Placeholder expression contains invalid content."),
            Diagnostic::QuotedPatternInsidePattern { .. } => String::from_str("Quoted pattern is not allowed inside of a pattern."),
            Diagnostic::MarkupInvalidContents { .. } => String::from_str("Markup tag contains invalid content."),
            Diagnostic::MissingIdentifierName { .. } => String::from_str("Namespaced identifier is missing a name, which is required after the colon following the namespace."),
            Diagnostic::MissingIdentifierNamespace { .. } => String::from_str("Identifiers with a colon before the name are namespaced identifiers, but this identifier is missing a namespace before the colon."),
            Diagnostic::EscapeInvalidCharacter { slash_loc, char } => {
                let mut r = String::from_str("The character '");
                push_char(&mut r, *char);
                r.append("' can not be escaped, as escape sequences can only escape '}', '{', '|', and '\\'.");
                r
            },
            Diagnostic::EscapeMissingCharacter { .. } => String::from_str("Backslashes start an escape sequence, but no character to be escaped was found. A literal '\\' must be written as '\\\\'."),
            Diagnostic::InvalidNullCharacter { .. } => String::from_str("The NULL character (0x00) is invalid anywhere inside of messages."),
            Diagnostic::InvalidClosingBrace { .. } => String::from_str("The closing brace character ('}') is invalid inside of messages, and must be escaped as '\\}'."),
            Diagnostic::AnnotationMissingSpaceBefore { .. } => String::from_str("Annotation is missing a leading space."),
            Diagnostic::AttributeMissingSpaceBefore { .. } => String::from_str("Attribute is missing a leading space."),
            Diagnostic::AttributeMissingKey { .. } => String::from_str("Attribute is missing a key after the '@' sign."),
            Diagnostic::AttributeMissingValue { .. } => String::from_str("Attribute is missing a value after the '=' sign."),
            Diagnostic::AttributeValueIsVariable { .. } => String::from_str("Attribute value can not be a variable, but must be a literal value."),
            Diagnostic::VariableMissingName { .. } => String::from_str("Variable is missing a name after the dollar sign ('$')."),
            Diagnostic::UnterminatedQuotedPattern { .. } => String::from_str("Quoted pattern is missing the closing braces ('}}')."),
            Diagnostic::LocalKeywordMissingTrailingSpace { .. } => String::from_str("'.local' keyword is not followed by a space."),
            Diagnostic::LocalVariableMissingDollar { .. } => String::from_str("Variable is not prefixed with a dollar sign ('$')."),
            Diagnostic::MissingSpaceBeforeMatcherSelector { .. } => String::from_str("Matcher selector is missing a leading space."),
            Diagnostic::MissingSpaceBeforeMatcherKey { .. } => String::from_str("Matcher key is missing a leading space."),
            Diagnostic::ComplexMessageMissingBody { .. } => String::from_str("Message is missing a body (a matcher or quoted pattern)."),
            Diagnostic::ComplexMessageTrailingContent { .. } => String::from_str("Message has additional invalid content after the body."),
            Diagnostic::ComplexMessageBodyNotQuoted { .. } => String::from_str("Using an unquoted pattern as the body is invalid, because the message contains declarations. Did you mean to quote the pattern?."),
            Diagnostic::ComplexMessageDeclarationAfterBody { .. } => String::from_str("Declarations are not valid after the message body. Did you mean to put the declaration before the body?"),
            Diagnostic::ComplexMessageMultipleBodies { .. } => String::from_str("Message has multiple bodies, but only one is allowed."),
            Diagnostic::MatcherKeyIsVariable { .. } => String::from_str("Matcher key is a variable, which is not allowed. Matcher keys must be literal values, or the wildcard ('*')."),
            Diagnostic::InvalidMatcherLiteralKey { .. } => String::from_str("Found an invalid matcher key (not a valid literal). Did you mean to quote the key to make it a literal?"),
            Diagnostic::InvalidStatement { span, keyword } => {
                let mut r = String::from_str("Found a statement that is invalid because the keyword '");
                r.append(keyword);
                r.append("' is unrecognized.");
                r
            },
            Diagnostic::LocalDeclarationMalformed { .. } => String::from_str("Found a local declaration that is missing or malformed name."),
            Diagnostic::LocalDeclarationValueNotWrappedInBraces { .. } => String::from_str("Value of a local declaration is a literal or variable, but must be an expression. Did you mean to wrap the value in braces?"),
            Diagnostic::LocalDeclarationVariableMissingTrailingEquals { .. } => String::from_str("Local declaration is missing an equals sign after the variable."),
            Diagnostic::LocalDeclarationMissingExpression { .. } => String::from_str("Local declaration is missing an expression as the value after the equals sign."),
            Diagnostic::InputDeclarationMissingExpression { .. } => String::from_str("Input declaration is missing an expression."),
            Diagnostic::InputDeclarationWithInvalidExpression { .. } => String::from_str("Input declaration has a non-variable expression, which is invalid. Did you mean to use a local declaration instead of an input declaration?"),
            Diagnostic::MatcherMissingSelectors { .. } => String::from_str("Matcher is missing a selector, but at least one is required."),
            Diagnostic::MatcherVariantKeysMismatch { span, selectors, keys } => {
                let mut r = String::from_str("Matcher variant has ");
                push_decimal(&mut r, *keys as u64);
                r.append(" keys, but there are ");
                push_decimal(&mut r, *selectors as u64);
                r.append(" selectors.");
                r
            },
            Diagnostic::MatcherVariantMissingKeys { .. } => String::from_str("Matcher variant is missing key(s), but at least one is required."),
            Diagnostic::MatcherVariantExpressionBodyNotQuoted { .. } => String::from_str("Matcher variant has an expression as a body, but only quoted patterns are allowed. Did you mean to wrap the expression in a quoted pattern?"),
            Diagnostic::MatcherVariantMissingBody { .. } => String::from_str("Matcher variant is missing a body."),
            Diagnostic::MatcherMissingFallback { .. } => String::from_str("Matcher is missing a catch-all variant, where all keys are *."),
            Diagnostic::DuplicateDeclaration { first_span, second_span, name } => {
                let mut r = String::from_str("$");
                r.append(name);
                r.append(" has already been declared.");
                r
            },
            Diagnostic::UsageBeforeDeclaration { declaration_span, usage_span, name } => {
                let mut r = String::from_str("$");
                r.append(name);
                r.append(" is used before it is declared.");
                r
            },
        }
    }
}

/// A fix that can be applied to the source text to resolve a diagnostic: a
/// label that describes it, and the edits that make it.
pub struct DiagnosticFix {
    pub label: &'static str,
    pub edits: Vec<DiagnosticEdit>,
}

/// Replacing the text of a span with new text.
pub struct DiagnosticEdit {
    pub span: Span,
    pub new_text: String,
}

/// An edit, as a value: the span it replaces and the new text.
pub type EditModel = (Span, Seq<char>);

/// A fix, as a value: its label and its edits.
pub type FixModel = (Seq<char>, Seq<EditModel>);

impl DiagnosticEdit {
    pub open spec fn model(&self) -> EditModel {
        (self.span, self.new_text@)
    }
}

impl DiagnosticFix {
    pub open spec fn model(&self) -> FixModel {
        (self.label@, self.edits@.map_values(|e: DiagnosticEdit| e.model()))
    }
}

/// The fixes, as values.
pub open spec fn fix_models(v: Seq<DiagnosticFix>) -> Seq<FixModel> {
    v.map_values(|f: DiagnosticFix| f.model())
}

/// The digits without their leading zeros, or `0` if nothing else is left.
pub open spec fn without_leading_zeros(s: Seq<char>) -> Seq<char>
    decreases s.len(),
{
    if s.len() == 0 {
        seq!['0']
    } else if s[0] == '0' {
        without_leading_zeros(s.drop_first())
    } else {
        s
    }
}

/// The empty span at `loc`.
pub open spec fn at(loc: Location) -> Span {
    Span { start: loc, end: loc }
}

/// One fix with one edit.
pub open spec fn single(label: Seq<char>, span: Span, text: Seq<char>) -> Seq<FixModel> {
    seq![(label, seq![(span, text)])]
}

/// One fix with two edits.
pub open spec fn pair(
    label: Seq<char>,
    span1: Span,
    text1: Seq<char>,
    span2: Span,
    text2: Seq<char>,
) -> Seq<FixModel> {
    seq![(label, seq![(span1, text1), (span2, text2)])]
}

impl<'text> Diagnostic<'text> {
    /// The fixes that resolve the diagnostic, for the text that `info`
    /// describes: each a label and the edits that make it.
    pub open spec fn fix_plan(&self, info: SourceTextInfo) -> Seq<FixModel> {
        match self {
            Diagnostic::NumberMissingIntegralPart { number } => single(
                "Add 0 before the decimal point"@,
                number.integral_span_spec(),
                "0"@,
            ),
            Diagnostic::NumberLeadingZeroIntegralPart { number } => single(
                "Remove leading zeros"@,
                number.integral_span_spec(),
                without_leading_zeros(
                    number.raw@.subrange(
                        number.integral_start_byte() - number.start.byte(),
                        number.integral_end_byte() - number.start.byte(),
                    ),
                ),
            ),
            Diagnostic::NumberMissingFractionalPart { number } => {
                let f = number.fractional_span_spec()->0;
                seq![
                    ("Add 0 after the decimal point"@, seq![(f, "0"@)]),
                    (
                        "Remove decimal point"@,
                        seq![(Span { start: number.integral_span_spec().end, end: f.start }, ""@)],
                    ),
                ]
            },
            Diagnostic::NumberMissingExponentPart { number } => single(
                "Remove the 'e'"@,
                Span {
                    start: match number.fractional_span_spec() {
                        Some(f) => f.end,
                        None => number.integral_span_spec().end,
                    },
                    end: (number.exponent_span_spec()->0).start,
                },
                ""@,
            ),
            Diagnostic::MarkupInvalidSpaceBeforeIdentifier { .. } => single(
                "Remove space before identifier"@,
                self.spec_span(),
                ""@,
            ),
            Diagnostic::MarkupCloseInvalidSelfClose { .. } => single(
                "Remove self-closing slash"@,
                self.spec_span(),
                ""@,
            ),
            Diagnostic::MarkupInvalidSpaceBetweenSelfCloseAndBrace { space } => single(
                "Remove space before closing brace"@,
                *space,
                ""@,
            ),
            Diagnostic::MarkupOptionAfterAttribute { previous_attribute, option } => pair(
                "Move option before attribute"@,
                option.spec_span(),
                ""@,
                at(previous_attribute.span.start),
                info.text_of(option.spec_span()).push(' '),
            ),
            Diagnostic::PlaceholderInvalidLiteral { span } => pair(
                "Quote literal"@,
                at(span.start),
                "|"@,
                at(span.end),
                "|"@,
            ),
            Diagnostic::QuotedPatternInsidePattern { open_span, close_span } => seq![
                (
                    "Remove quotes"@,
                    match close_span {
                        Some(c) => seq![(*open_span, ""@), (*c, ""@)],
                        None => seq![(*open_span, ""@)],
                    },
                ),
            ],
            Diagnostic::EscapeInvalidCharacter { slash_loc, char } => single(
                "Remove backslash"@,
                Span { start: *slash_loc, end: Location((slash_loc.0 + 1) as u32) },
                ""@,
            ),
            Diagnostic::InvalidNullCharacter { .. } => single(
                "Remove NULL character"@,
                self.spec_span(),
                ""@,
            ),
            Diagnostic::InvalidClosingBrace { brace_loc } => single(
                "Escape the brace"@,
                at(*brace_loc),
                "\\"@,
            ),
            Diagnostic::AnnotationMissingSpaceBefore { span } => single(
                "Add space before annotation"@,
                at(span.start),
                " "@,
            ),
            Diagnostic::AttributeMissingSpaceBefore { span } => single(
                "Add space before attribute"@,
                at(span.start),
                " "@,
            ),
            Diagnostic::LocalKeywordMissingTrailingSpace { span } => single(
                "Add space after '.local'"@,
                at(Location((span.start.0 + 6) as u32)),
                " "@,
            ),
            Diagnostic::LocalVariableMissingDollar { span } => single(
                "Add dollar sign"@,
                at(span.start),
                "$"@,
            ),
            Diagnostic::MissingSpaceBeforeMatcherSelector { span } => single(
                "Add space before selector"@,
                at(span.start),
                " "@,
            ),
            Diagnostic::MissingSpaceBeforeMatcherKey { span } => single(
                "Add space before key"@,
                at(span.start),
                " "@,
            ),
            Diagnostic::ComplexMessageBodyNotQuoted { span } => pair(
                "Surround with quotes"@,
                at(span.start),
                "{{"@,
                at(span.end),
                "}}"@,
            ),
            Diagnostic::ComplexMessageDeclarationAfterBody { span, body_start } => pair(
                "Move declaration before body"@,
                at(*body_start),
                info.text_of(*span).push('\n'),
                *span,
                ""@,
            ),
            Diagnostic::InvalidMatcherLiteralKey { span } => pair(
                "Quote literal"@,
                at(span.start),
                "|"@,
                at(span.end),
                "|"@,
            ),
            Diagnostic::LocalDeclarationValueNotWrappedInBraces { span } => pair(
                "Wrap value in braces"@,
                at(span.start),
                "{"@,
                at(span.end),
                "}"@,
            ),
            Diagnostic::LocalDeclarationVariableMissingTrailingEquals { span } => single(
                "Add equals after variable"@,
                at(span.end),
                " ="@,
            ),
            Diagnostic::MatcherVariantExpressionBodyNotQuoted { span } => pair(
                "Quote the expression"@,
                at(span.start),
                "{{"@,
                at(span.end),
                "}}"@,
            ),
            _ => seq![],
        }
    }

    /// The fixes that can be applied to the source text to resolve the
    /// diagnostic. Each fix has a label that describes the fix, and a list of
    /// edits that describe the changes to make to the source text if the fix
    /// is applied.
    pub fn fixes(&self, info: &SourceTextInfo) -> (r: Vec<DiagnosticFix>)
        requires
            info.wf(),
            self.wf(info.chars()),
        ensures
            fix_models(r@) == self.fix_plan(*info),
    {
        match self {
            Diagnostic::NumberMissingIntegralPart { number } => one_edit(
                "Add 0 before the decimal point",
                number.integral_span(),
                "0".to_owned(),
            ),
            Diagnostic::NumberLeadingZeroIntegralPart { number } => {
                let integral = number.integral_part();
                let trimmed = without_zeros(integral);
                one_edit("Remove leading zeros", number.integral_span(), trimmed)
            },
            Diagnostic::NumberMissingFractionalPart { number } => {
                let f = number.fractional_span().unwrap();
                let mut r: Vec<DiagnosticFix> = Vec::new();
                r.push(fix_of("Add 0 after the decimal point", f, "0".to_owned()));
                r.push(
                    fix_of(
                        "Remove decimal point",
                        Span { start: number.integral_span().end, end: f.start },
                        "".to_owned(),
                    ),
                );
                assert(fix_models(r@) =~= self.fix_plan(*info));
                r
            },
            Diagnostic::NumberMissingExponentPart { number } => {
                let start = match number.fractional_span() {
                    Some(f) => f.end,
                    None => number.integral_span().end,
                };
                let end = number.exponent_span().unwrap().start;
                one_edit("Remove the 'e'", Span { start, end }, "".to_owned())
            },
            Diagnostic::MarkupInvalidSpaceBeforeIdentifier { .. } => one_edit(
                "Remove space before identifier",
                self.span(),
                "".to_owned(),
            ),
            Diagnostic::MarkupCloseInvalidSelfClose { .. } => one_edit(
                "Remove self-closing slash",
                self.span(),
                "".to_owned(),
            ),
            Diagnostic::MarkupInvalidSpaceBetweenSelfCloseAndBrace { space } => one_edit(
                "Remove space before closing brace",
                *space,
                "".to_owned(),
            ),
            Diagnostic::MarkupOptionAfterAttribute { previous_attribute, option } => {
                let start = previous_attribute.span.start;
                let option_span = option.span();
                let mut moved = info.text(option_span).to_owned();
                push_char(&mut moved, ' ');
                two_edits(
                    "Move option before attribute",
                    option_span,
                    "".to_owned(),
                    Span { start, end: start },
                    moved,
                )
            },
            Diagnostic::PlaceholderInvalidLiteral { span } => two_edits(
                "Quote literal",
                Span { start: span.start, end: span.start },
                "|".to_owned(),
                Span { start: span.end, end: span.end },
                "|".to_owned(),
            ),
            Diagnostic::QuotedPatternInsidePattern { open_span, close_span } => {
                let mut edits: Vec<DiagnosticEdit> = Vec::new();
                edits.push(DiagnosticEdit { span: *open_span, new_text: "".to_owned() });
                if let Some(c) = close_span {
                    edits.push(DiagnosticEdit { span: *c, new_text: "".to_owned() });
                }
                let mut r: Vec<DiagnosticFix> = Vec::new();
                r.push(DiagnosticFix { label: "Remove quotes", edits });
                proof {
                    assert(r@[0].edits@.map_values(|e: DiagnosticEdit| e.model()) =~= match close_span {
                        Some(c) => seq![(*open_span, ""@), (*c, ""@)],
                        None => seq![(*open_span, ""@)],
                    });
                }
                assert(fix_models(r@) =~= self.fix_plan(*info));
                r
            },
            Diagnostic::EscapeInvalidCharacter { slash_loc, .. } => one_edit(
                "Remove backslash",
                Span { start: *slash_loc, end: slash_loc.add_char('\\') },
                "".to_owned(),
            ),
            Diagnostic::InvalidNullCharacter { .. } => one_edit(
                "Remove NULL character",
                self.span(),
                "".to_owned(),
            ),
            Diagnostic::InvalidClosingBrace { brace_loc } => one_edit(
                "Escape the brace",
                Span { start: *brace_loc, end: *brace_loc },
                "\\".to_owned(),
            ),
            Diagnostic::AnnotationMissingSpaceBefore { span } => one_edit(
                "Add space before annotation",
                Span { start: span.start, end: span.start },
                " ".to_owned(),
            ),
            Diagnostic::AttributeMissingSpaceBefore { span } => one_edit(
                "Add space before attribute",
                Span { start: span.start, end: span.start },
                " ".to_owned(),
            ),
            Diagnostic::LocalKeywordMissingTrailingSpace { span } => {
                let start = Location(span.start.0 + 6);
                one_edit("Add space after '.local'", Span { start, end: start }, " ".to_owned())
            },
            Diagnostic::LocalVariableMissingDollar { span } => one_edit(
                "Add dollar sign",
                Span { start: span.start, end: span.start },
                "$".to_owned(),
            ),
            Diagnostic::MissingSpaceBeforeMatcherSelector { span } => one_edit(
                "Add space before selector",
                Span { start: span.start, end: span.start },
                " ".to_owned(),
            ),
            Diagnostic::MissingSpaceBeforeMatcherKey { span } => one_edit(
                "Add space before key",
                Span { start: span.start, end: span.start },
                " ".to_owned(),
            ),
            Diagnostic::ComplexMessageBodyNotQuoted { span } => two_edits(
                "Surround with quotes",
                Span { start: span.start, end: span.start },
                "{{".to_owned(),
                Span { start: span.end, end: span.end },
                "}}".to_owned(),
            ),
            Diagnostic::ComplexMessageDeclarationAfterBody { span, body_start } => {
                let mut moved = info.text(*span).to_owned();
                push_char(&mut moved, '\n');
                two_edits(
                    "Move declaration before body",
                    Span { start: *body_start, end: *body_start },
                    moved,
                    *span,
                    "".to_owned(),
                )
            },
            Diagnostic::InvalidMatcherLiteralKey { span } => two_edits(
                "Quote literal",
                Span { start: span.start, end: span.start },
                "|".to_owned(),
                Span { start: span.end, end: span.end },
                "|".to_owned(),
            ),
            Diagnostic::LocalDeclarationValueNotWrappedInBraces { span } => two_edits(
                "Wrap value in braces",
                Span { start: span.start, end: span.start },
                "{".to_owned(),
                Span { start: span.end, end: span.end },
                "}".to_owned(),
            ),
            Diagnostic::LocalDeclarationVariableMissingTrailingEquals { span } => one_edit(
                "Add equals after variable",
                Span { start: span.end, end: span.end },
                " =".to_owned(),
            ),
            Diagnostic::MatcherVariantExpressionBodyNotQuoted { span } => two_edits(
                "Quote the expression",
                Span { start: span.start, end: span.start },
                "{{".to_owned(),
                Span { start: span.end, end: span.end },
                "}}".to_owned(),
            ),
            _ => Vec::new(),
        }
    }
}

/// A fix with one edit.
fn fix_of(label: &'static str, span: Span, text: String) -> (r: DiagnosticFix)
    ensures
        r.model() == (label@, seq![(span, text@)]),
{
    let mut edits: Vec<DiagnosticEdit> = Vec::new();
    edits.push(DiagnosticEdit { span, new_text: text });
    let r = DiagnosticFix { label, edits };
    assert(r.model().1 =~= seq![(span, text@)]);
    r
}

/// The one fix with one edit.
fn one_edit(label: &'static str, span: Span, text: String) -> (r: Vec<DiagnosticFix>)
    ensures
        fix_models(r@) == single(label@, span, text@),
{
    let mut r: Vec<DiagnosticFix> = Vec::new();
    r.push(fix_of(label, span, text));
    assert(fix_models(r@) =~= single(label@, span, text@));
    r
}

/// The one fix with two edits.
fn two_edits(
    label: &'static str,
    span1: Span,
    text1: String,
    span2: Span,
    text2: String,
) -> (r: Vec<DiagnosticFix>)
    ensures
        fix_models(r@) == pair(label@, span1, text1@, span2, text2@),
{
    let mut edits: Vec<DiagnosticEdit> = Vec::new();
    edits.push(DiagnosticEdit { span: span1, new_text: text1 });
    edits.push(DiagnosticEdit { span: span2, new_text: text2 });
    let f = DiagnosticFix { label, edits };
    assert(f.model().1 =~= seq![(span1, text1@), (span2, text2@)]);
    let mut r: Vec<DiagnosticFix> = Vec::new();
    r.push(f);
    assert(fix_models(r@) =~= pair(label@, span1, text1@, span2, text2@));
    r
}

/// The digits without their leading zeros, or `0` if nothing else is left.
fn without_zeros(digits: &str) -> (r: String)
    ensures
        r@ == without_leading_zeros(digits@),
{
    let chars = chars_of(digits);
    let n = chars.len();
    let mut k: usize = 0;
    assert(digits@.subrange(0, n as int) =~= digits@);
    while k < n && chars[k] == '0'
        invariant
            k <= n,
            n == chars.len(),
            chars@ == digits@,
            without_leading_zeros(digits@) == without_leading_zeros(digits@.subrange(k as int, n as int)),
        decreases n - k,
    {
        assert(digits@.subrange(k as int, n as int).drop_first() =~= digits@.subrange(k + 1, n as int));
        k = k + 1;
    }
    let mut r = String::new();
    if k == n {
        push_char(&mut r, '0');
        assert(digits@.subrange(k as int, n as int) =~= Seq::<char>::empty());
        assert(r@ =~= seq!['0']);
    } else {
        let mut i = k;
        while i < n
            invariant
                k <= i <= n,
                n == chars.len(),
                chars@ == digits@,
                r@ == digits@.subrange(k as int, i as int),
            decreases n - i,
        {
            push_char(&mut r, chars[i]);
            i = i + 1;
            assert(r@ =~= digits@.subrange(k as int, i as int));
        }
    }
    r
}

} // verus!
