use mf2_tools::diagnostic::Diagnostic;
use mf2_tools::parse;

#[test]
fn leading_zero_fix_trims_the_zeros() {
  let (_, diagnostics, info) = parse("{0012.5}");
  assert_eq!(diagnostics.len(), 1);
  let fixes = diagnostics[0].fixes(&info);
  assert_eq!(fixes.len(), 1);
  assert_eq!(fixes[0].label, "Remove leading zeros");
  assert_eq!(fixes[0].edits.len(), 1);
  assert_eq!(fixes[0].edits[0].span.start.0, 1);
  assert_eq!(fixes[0].edits[0].span.end.0, 5);
  assert_eq!(fixes[0].edits[0].new_text, "12");
  assert!(!diagnostics[0].fatal());
}

#[test]
fn all_zero_integral_part_keeps_one_zero() {
  let (_, diagnostics, info) = parse("{000}");
  let fixes = diagnostics[0].fixes(&info);
  assert_eq!(fixes[0].edits[0].new_text, "0");
}

#[test]
fn missing_fraction_has_two_fixes() {
  let (_, diagnostics, info) = parse("{1.}");
  assert_eq!(diagnostics.len(), 1);
  assert!(matches!(diagnostics[0], Diagnostic::NumberMissingFractionalPart { .. }));
  let fixes = diagnostics[0].fixes(&info);
  assert_eq!(fixes.len(), 2);
  assert_eq!(fixes[0].label, "Add 0 after the decimal point");
  assert_eq!(fixes[0].edits[0].span.start.0, 3);
  assert_eq!(fixes[1].label, "Remove decimal point");
  assert_eq!(fixes[1].edits[0].span.start.0, 2);
  assert_eq!(fixes[1].edits[0].span.end.0, 3);
}

#[test]
fn closing_brace_fix_escapes_it() {
  let (_, diagnostics, info) = parse("a}b");
  let fixes = diagnostics[0].fixes(&info);
  assert_eq!(fixes[0].label, "Escape the brace");
  assert_eq!(fixes[0].edits[0].span.start.0, 1);
  assert_eq!(fixes[0].edits[0].span.end.0, 1);
  assert_eq!(fixes[0].edits[0].new_text, "\\");
  assert_eq!(diagnostics[0].span().start.0, 1);
  assert_eq!(diagnostics[0].span().end.0, 2);
}

#[test]
fn declaration_after_body_moves_the_declaration() {
  let (_, diagnostics, info) = parse("{{hi}} .local $x = {1}");
  assert_eq!(diagnostics.len(), 1, "{:?}", diagnostics);
  assert!(diagnostics[0].fatal());
  let fixes = diagnostics[0].fixes(&info);
  assert_eq!(fixes[0].label, "Move declaration before body");
  assert_eq!(fixes[0].edits[0].span.start.0, 0);
  assert_eq!(fixes[0].edits[0].new_text, ".local $x = {1}\n");
  assert_eq!(fixes[0].edits[1].new_text, "");
}

#[test]
fn messages_name_the_variable() {
  let (message, mut diagnostics, _) = parse(".local $x = {1}\n.local $x = {2}\n{{}}");
  mf2_tools::analyze_semantics(&message, &mut diagnostics);
  assert_eq!(diagnostics[0].message(), "$x has already been declared.");
}
