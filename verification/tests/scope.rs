use mf2_tools::analyze_semantics;
use mf2_tools::diagnostic::Diagnostic;
use mf2_tools::parse;
use mf2_tools::scope::Scope;
use mf2_tools::scope::ScopeDiagnostic;

#[test]
fn collects_declarations_and_references() {
  let source = ".input {$count :number}\n.local $x = {$count}\n{{{$x} {$count} {$other}}}";
  let (message, diagnostics, _) = parse(source);
  assert!(diagnostics.is_empty());
  let (scope, found) = Scope::analyse(&message);
  assert!(found.is_empty());
  let count = scope.get_spans("count").unwrap();
  assert_eq!(count.len(), 3);
  assert_eq!(count[0].start.0, 8);
  assert_eq!(scope.get_declaration_span("count").unwrap().start.0, 8);
  assert_eq!(scope.get_declaration_span("x").unwrap().start.0, 31);
  assert!(scope.get_declaration_span("other").is_none());
  assert_eq!(scope.get_spans("other").unwrap().len(), 1);
  assert!(scope.get_spans("missing").is_none());
  let mut names = scope.get_names();
  names.sort();
  assert_eq!(names, vec!["count", "other", "x"]);
}

#[test]
fn reports_duplicate_declaration() {
  let (message, _, _) = parse(".local $x = {1}\n.local $x = {2}\n{{{$x}}}");
  let (_, found) = Scope::analyse(&message);
  assert_eq!(found.len(), 1);
  match found[0] {
    ScopeDiagnostic::DuplicateDeclaration { name, first_span, second_span } => {
      assert_eq!(name, "x");
      assert_eq!(first_span.start.0, 7);
      assert_eq!(second_span.start.0, 23);
    }
    _ => panic!("expected a duplicate declaration"),
  }
}

#[test]
fn reports_each_usage_before_declaration() {
  let (message, mut diagnostics, _) =
    parse(".local $y = {$x}\n.local $z = {$x}\n.input {$x}\n{{}}");
  assert!(diagnostics.is_empty());
  let scope = analyze_semantics(&message, &mut diagnostics);
  assert_eq!(diagnostics.len(), 2);
  for d in &diagnostics {
    match d {
      Diagnostic::UsageBeforeDeclaration { name, declaration_span, .. } => {
        assert_eq!(*name, "x");
        assert_eq!(declaration_span.start.0, 42);
      }
      _ => panic!("expected a usage before declaration"),
    }
  }
  assert_eq!(scope.get_spans("x").unwrap().len(), 3);
}

#[test]
fn usage_before_declaration_spans() {
  let (message, _, _) = parse(".local $y = {$x} .input {$x} {{}}");
  let (scope, diags) = Scope::analyse(&message);
  assert_eq!(diags.len(), 1);
  let x = scope.get_declaration_span("x").unwrap();
  assert_eq!((x.start.0, x.end.0), (25, 27));
  let y = scope.get_declaration_span("y").unwrap();
  assert_eq!((y.start.0, y.end.0), (7, 9));
  let spans: Vec<(u32, u32)> = scope.get_spans("x").unwrap().iter().map(|s| (s.start.0, s.end.0)).collect();
  assert_eq!(spans, vec![(13, 15), (25, 27)]);
}

#[test]
fn body_reference_follows_declaration() {
  let (message, diagnostics, _) = parse(".input {$x} {{{$x}}}");
  assert!(diagnostics.is_empty());
  let (scope, diags) = Scope::analyse(&message);
  assert!(diags.is_empty());
  let spans: Vec<(u32, u32)> = scope.get_spans("x").unwrap().iter().map(|s| (s.start.0, s.end.0)).collect();
  assert_eq!(spans, vec![(8, 10), (15, 17)]);
  assert!(scope.get_spans("y").is_none());
}
