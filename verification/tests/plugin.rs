use mf2_tools::lsp_diagnostics::Diagnostic;
use mf2_tools::plugin::FormatError;
use mf2_tools::plugin::Mf2PluginHandler;
use mf2_tools::scope::ScopeDiagnostic;
use mf2_tools::text::Location;
use mf2_tools::text::Span;

#[test]
fn leaves_formatted_files_alone() {
  let handler = Mf2PluginHandler;
  assert!(matches!(handler.format(b"Hello {$name}!"), Ok(None)));
}

#[test]
fn formats_files() {
  let handler = Mf2PluginHandler;
  match handler.format(b"Hello {  $name  }!") {
    Ok(Some(bytes)) => assert_eq!(bytes, b"Hello {$name}!".to_vec()),
    _ => panic!("expected a formatted file"),
  }
}

#[test]
fn refuses_files_that_are_not_utf8() {
  let handler = Mf2PluginHandler;
  assert!(matches!(handler.format(&[0xff, 0xfe]), Err(FormatError::InvalidUtf8)));
}

#[test]
fn refuses_files_with_fatal_errors() {
  let handler = Mf2PluginHandler;
  match handler.format(b"{$x") {
    Err(FormatError::Fatal(message)) => assert!(message.starts_with("failed to format: "), "{message}"),
    _ => panic!("expected a fatal error"),
  }
}

fn span(start: u32, end: u32) -> Span {
  Span { start: Location(start), end: Location(end) }
}

#[test]
fn scope_diagnostics_have_messages_and_spans() {
  let duplicate = Diagnostic::Scope(ScopeDiagnostic::DuplicateDeclaration {
    name: "x",
    first_span: span(0, 2),
    second_span: span(5, 7),
  });
  assert_eq!(duplicate.message(), "$x has already been declared.");
  assert_eq!(duplicate.span().start.0, 5);
  assert_eq!(duplicate.to_string(), "$x has already been declared. (at @5..7)");
  let early = Diagnostic::Scope(ScopeDiagnostic::UsageBeforeDeclaration {
    name: "y",
    declaration_span: span(9, 11),
    usage_span: span(1, 3),
  });
  assert_eq!(early.message(), "$y is used before it is declared.");
  assert_eq!(early.span().end.0, 3);
}

#[test]
fn published_diagnostics_carry_codes_and_messages() {
  let missing = Diagnostic::Parser(mf2_tools::diagnostic::Diagnostic::AnnotationMissingSpaceBefore {
    span: span(3, 4),
  });
  assert_eq!(missing.lsp_code(), Some("annotation-missing-space-before"));
  assert_eq!(missing.lsp_message(), "Annotation is missing a leading space, which is required");
  assert_eq!(missing.message(), "Annotation is missing a leading space.");
  let duplicate = Diagnostic::Scope(ScopeDiagnostic::DuplicateDeclaration {
    name: "x",
    first_span: span(0, 2),
    second_span: span(5, 7),
  });
  assert_eq!(duplicate.lsp_code(), None);
  assert_eq!(duplicate.lsp_message(), "$x has already been declared.");
}
