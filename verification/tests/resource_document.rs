use mf2_tools::resource_document::document_diagnostics;
use mf2_tools::resource_document::remap_value_span;
use mf2_tools::text::Location;
use mf2_tools::text::Span;

#[test]
fn reports_structural_and_value_diagnostics() {
  let source = "@locale en-US\n\n[item]\nbroken line\nentry = Hello {$name\n";
  let (diags, _) = document_diagnostics(source);

  assert!(diags.iter().any(|d| d.message.contains("Metadata must attach")));
  assert!(diags.iter().any(|d| d.message.contains("Line is not valid")));
  assert!(diags.iter().any(|d| d.message.contains("missing the closing brace")));
}

#[test]
fn remaps_crlf_value_diagnostics() {
  let source = "entry = Hello {$name\r\n";
  let (diags, info) = document_diagnostics(source);
  let diag = diags
    .iter()
    .find(|d| d.message.contains("missing the closing brace"))
    .expect("expected value diagnostic");

  assert_eq!(info.utf16_line_col(diag.span.start).line, 0);
}

fn span(start: u32, end: u32) -> Span {
  Span { start: Location(start), end: Location(end) }
}

#[test]
fn remaps_spans_through_the_offsets() {
  let offsets = [8, 9, 10, 12];
  let mapped = remap_value_span(&offsets, span(1, 3)).unwrap();
  assert_eq!((mapped.start.0, mapped.end.0), (9, 11));
  let past = remap_value_span(&offsets, span(4, 6)).unwrap();
  assert_eq!((past.start.0, past.end.0), (13, 13));
  let empty = remap_value_span(&offsets, span(0, 0)).unwrap();
  assert_eq!((empty.start.0, empty.end.0), (8, 8));
  assert!(remap_value_span(&[], span(0, 1)).is_none());
}
