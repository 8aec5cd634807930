use mf2_tools::diagnostic::Diagnostic;
use mf2_tools::fixtures::generate_actual_diagnostics;
use mf2_tools::fixtures::generate_actual_spans;
use mf2_tools::parse;
use mf2_tools::fixtures::normalize_message;
use mf2_tools::fixtures::parse_fixture;
use mf2_tools::text::Location;
use mf2_tools::text::Span;

#[test]
fn splits_at_each_header_in_turn() {
  let raw = "msg\n=== a ===\nfirst\n=== b ===\nsecond";
  let parts = parse_fixture(raw, vec!["\n=== a ===\n", "\n=== b ===\n"]);
  assert_eq!(parts, vec!["msg", "first", "second"]);
}

#[test]
fn a_missing_header_leaves_nothing_after_it() {
  let parts = parse_fixture("only the message", vec!["\n=== diagnostics ===\n"]);
  assert_eq!(parts, vec!["only the message", ""]);
  let parts = parse_fixture("m\n=== b ===\nx", vec!["\n=== a ===\n", "\n=== b ===\n"]);
  assert_eq!(parts, vec!["m\n=== b ===\nx", "", ""]);
}

#[test]
fn normalizes_line_ends_and_tabs() {
  assert_eq!(normalize_message("a\nb\tc"), "a\u{21b5}b\u{21e5}c");
  assert_eq!(normalize_message(""), "");
}

fn span(start: u32, end: u32) -> Span {
  Span { start: Location(start), end: Location(end) }
}

#[test]
fn draws_diagnostics_under_the_message() {
  let diagnostics = vec![
    Diagnostic::OptionMissingKey { span: span(2, 4) },
    Diagnostic::PlaceholderMissingBody { span: span(0, 1) },
  ];
  let report = generate_actual_diagnostics(&diagnostics, "ab{cd}", "ab{cd}");
  assert_eq!(
    report,
    "Found equals sign followed by value, but equals sign is not preceeded by a key. Did you forget to add a key to make this an option? (at @2..4)\n  ab{cd}\n    ^^\nPlaceholder is empty, but should have at least a variable reference, literal, or annotation. (at @0..1)\n  ab{cd}\n  ^"
  );
}

#[test]
fn measures_wide_characters_in_columns() {
  let diagnostics = vec![Diagnostic::PlaceholderMissingBody { span: span(6, 8) }];
  let report = generate_actual_diagnostics(&diagnostics, "日本{}", "日本{}");
  assert!(report.ends_with("\n  日本{}\n      ^^"), "{report}");
}

#[test]
fn draws_nothing_without_diagnostics() {
  assert_eq!(generate_actual_diagnostics(&[], "x", "x"), "");
}

fn line(label: &str, marks: &str, ends: &str) -> String {
  format!("\n{label:<20}{marks} {ends}")
}

#[test]
fn shows_the_span_of_each_node_in_visit_order() {
  let message = "{$x}";
  let (ast, diagnostics, info) = parse(message);
  assert!(diagnostics.is_empty());
  let spans = generate_actual_spans(&ast, message, &normalize_message(message), &info);
  let expected = format!(
    "{}{}{}{}{}",
    " ".repeat(20),
    message,
    line("Pattern", "^^^^", "0:0-0:4"),
    line("VariableExpression", "^^^^", "0:0-0:4"),
    line("Variable", " ^^ ", "0:1-0:3"),
  );
  assert_eq!(spans, expected);
}

#[test]
fn shows_the_digit_groups_of_numbers() {
  let message = "{1.5e3}";
  let (ast, diagnostics, info) = parse(message);
  assert!(diagnostics.is_empty());
  let spans = generate_actual_spans(&ast, message, &normalize_message(message), &info);
  let expected = format!(
    "{}{}{}{}{}{}{}{}",
    " ".repeat(20),
    message,
    line("Pattern", "^^^^^^^", "0:0-0:7"),
    line("LiteralExpression", "^^^^^^^", "0:0-0:7"),
    line("Number", " ^^^^^ ", "0:1-0:6"),
    line("Number.integral", " ^     ", "0:1-0:2"),
    line("Number.fractional", "   ^   ", "0:3-0:4"),
    line("Number.exponent", "     ^ ", "0:5-0:6"),
  );
  assert_eq!(spans, expected);
}

#[test]
fn gives_lines_and_columns_on_later_lines() {
  // A line feed takes no column in the drawing.
  let message = "a\n{$y}";
  let (ast, _, info) = parse(message);
  let normalized = normalize_message(message);
  let spans = generate_actual_spans(&ast, message, &normalized, &info);
  let expected = format!(
    "{}{}{}{}{}{}",
    " ".repeat(20),
    normalized,
    line("Pattern", "^^^^^", "0:0-1:4"),
    line("Text", "^    ", "0:0-1:0"),
    line("VariableExpression", " ^^^^", "1:0-1:4"),
    line("Variable", "  ^^ ", "1:1-1:3"),
  );
  assert_eq!(spans, expected);
}
