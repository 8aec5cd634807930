use mf2_tools::parse;
use mf2_tools::requests::find_variable_at;
use mf2_tools::requests::prepare_rename;
use mf2_tools::requests::quick_fixes;
use mf2_tools::requests::rename;
use mf2_tools::requests::RenameError;
use mf2_tools::scope::Scope;
use mf2_tools::text::Location;
use mf2_tools::text::Span;

#[test]
fn finds_the_variable_at_a_position() {
  let (ast, _, _) = parse("{$foo} {$foo}");
  assert_eq!(find_variable_at(&ast, Location(2)), Some("foo"));
  assert_eq!(find_variable_at(&ast, Location(0)), None);
}

#[test]
fn renames_every_occurrence() {
  let (ast, _, _) = parse("{$foo} {$foo}");
  let (scope, _) = Scope::analyse(&ast);
  let edits = rename(&ast, &scope, Location(2), "bar").unwrap().unwrap();
  let found: Vec<(u32, u32, String)> =
    edits.into_iter().map(|e| (e.span.start.0, e.span.end.0, e.new_text)).collect();
  assert_eq!(found, vec![(1, 5, "$bar".to_string()), (8, 12, "$bar".to_string())]);
}

#[test]
fn refuses_invalid_renames() {
  let (ast, _, _) = parse("{$foo} {$foo}");
  let (scope, _) = Scope::analyse(&ast);
  assert!(matches!(rename(&ast, &scope, Location(2), "1x"), Err(RenameError::InvalidName)));
  assert!(matches!(rename(&ast, &scope, Location(0), "bar"), Err(RenameError::NoVariable)));
  assert!(matches!(rename(&ast, &scope, Location(2), "foo"), Ok(None)));
}

#[test]
fn prepares_a_rename_on_the_name() {
  let (ast, _, _) = parse("{$foo} {$foo}");
  let span = prepare_rename(&ast, Location(2)).unwrap();
  assert_eq!((span.start.0, span.end.0), (2, 5));
  assert!(prepare_rename(&ast, Location(6)).is_none());
}

#[test]
fn offers_to_remove_a_space_before_a_markup_identifier() {
  let (_, diagnostics, _) = parse("{# b}");
  let diag_span = diagnostics
    .iter()
    .find(|d| matches!(d, mf2_tools::diagnostic::Diagnostic::MarkupInvalidSpaceBeforeIdentifier { .. }))
    .expect("expected the diagnostic")
    .span();
  let fixes = quick_fixes(&diagnostics, diag_span);
  assert_eq!(fixes.len(), 1);
  assert_eq!(fixes[0].title, "Remove space before identifier");
  assert_eq!(fixes[0].edit.new_text, "");
  assert_eq!(fixes[0].edit.span, diag_span);
  let outside = Span { start: Location(0), end: Location(0) };
  assert!(quick_fixes(&diagnostics, outside).is_empty() || diag_span.start.0 == 0);
}
