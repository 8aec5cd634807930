use mf2_tools::completions::get_completion_type;
use mf2_tools::completions::AllowedCompletionType;
use mf2_tools::completions::Completion;
use mf2_tools::completions::CompletionAction;
use mf2_tools::completions::CompletionsProvider;
use mf2_tools::parse;
use mf2_tools::scope::Scope;
use mf2_tools::text::Location;

/// The completion type at the cursor `┋` of `source`: `None` for nothing,
/// `Some(None)` for a variable to insert, `Some(Some(name))` for a variable
/// to replace.
fn completion_type_at(source: &str) -> Option<Option<String>> {
  let loc = Location::new_for_test(source.find('┋').expect("Cursor not found") as u32);
  let message = source.replace('┋', "");
  let (ast, ..) = parse(&message);
  match get_completion_type(&ast, loc) {
    AllowedCompletionType::Nothing => None,
    AllowedCompletionType::Variable(None) => Some(None),
    AllowedCompletionType::Variable(Some((_, name))) => Some(Some(name.to_string())),
  }
}

fn replace(name: &str) -> Option<Option<String>> {
  Some(Some(name.to_string()))
}

fn insert() -> Option<Option<String>> {
  Some(None)
}

#[test]
fn works() {
  assert_eq!(completion_type_at("{$┋}"), replace(""));
  assert_eq!(completion_type_at("{$f┋}"), replace("f"));
  assert_eq!(completion_type_at("{$┋f}"), replace("f"));
  assert_eq!(completion_type_at("{┋}"), insert());
  assert_eq!(completion_type_at("{ ┋}"), insert());
  assert_eq!(completion_type_at("{┋ }"), insert());
  assert_eq!(completion_type_at("{ ┋ }"), insert());
  assert_eq!(completion_type_at("{1┋}"), None);
  assert_eq!(completion_type_at("{1 ┋}"), None);
  assert_eq!(completion_type_at("{┋1}"), None);
  assert_eq!(completion_type_at("{ ┋1}"), None);
  assert_eq!(completion_type_at("{:fn ┋}"), None);
  assert_eq!(completion_type_at("{:fn param=┋}"), insert());
  assert_eq!(completion_type_at("{:fn param┋=}"), None);
  assert_eq!(completion_type_at("{:fn param┋}"), None);
  assert_eq!(completion_type_at("{:fn param ┋}"), None);
  assert_eq!(completion_type_at("{:fn param ┋=}"), None);
  assert_eq!(completion_type_at("{:fn param= ┋}"), insert());
  assert_eq!(completion_type_at("{:fn param=$f┋}"), replace("f"));
  assert_eq!(completion_type_at("{:fn param=f┋}"), None);
  assert_eq!(completion_type_at("{:fn param=┋f}"), None);
  assert_eq!(completion_type_at("{:fn p1=a p2=┋}"), insert());
  assert_eq!(completion_type_at("{:fn p1=a p2=b┋}"), None);
  assert_eq!(completion_type_at("{ 1 :fn param=┋}"), insert());
  assert_eq!(completion_type_at("{ $x :fn param=┋}"), insert());
  assert_eq!(completion_type_at("{ ┋ :fn }"), insert());
  assert_eq!(completion_type_at("{ ┋:fn }"), insert());
  assert_eq!(completion_type_at("{┋ :fn }"), insert());
  assert_eq!(completion_type_at("{ $x┋ :fn }"), replace("x"));
}

/// The completions at the cursor `┋` of `source`, as text and the start of
/// the span they replace, if any.
fn completions_at(source: &str) -> Vec<(String, Option<u32>)> {
  let loc = Location::new_for_test(source.find('┋').expect("Cursor not found") as u32);
  let message = source.replace('┋', "");
  let (ast, ..) = parse(&message);
  let (scope, _) = Scope::analyse(&ast);
  let provider = CompletionsProvider::new(&ast, loc, &scope);
  let completions: Vec<Completion> = provider.get_completions();
  completions
    .into_iter()
    .map(|c| {
      let start = match c.action {
        CompletionAction::Insert => None,
        CompletionAction::Replace(span) => Some(span.start.0),
      };
      (c.text, start)
    })
    .collect()
}

#[test]
fn offers_every_variable_in_an_empty_placeholder() {
  let found = completions_at("{$foo} {$bar} { ┋ }");
  assert_eq!(found, vec![("$foo".to_string(), None), ("$bar".to_string(), None)]);
}

#[test]
fn replaces_the_variable_at_the_cursor() {
  let found = completions_at("{$foo} {$bar} {$┋}");
  assert_eq!(
    found,
    vec![("$foo".to_string(), Some(15)), ("$bar".to_string(), Some(15))]
  );
}

#[test]
fn offers_the_variable_itself_when_it_occurs_elsewhere() {
  let found = completions_at("{$ab} {$ab┋}");
  assert_eq!(found, vec![("$ab".to_string(), Some(7))]);
}

#[test]
fn leaves_out_a_one_byte_variable_at_the_cursor() {
  let found = completions_at("{$a} {$a┋}");
  assert!(found.is_empty());
}

#[test]
fn leaves_out_a_variable_that_occurs_only_at_the_cursor() {
  let found = completions_at("{$x} {$abc┋}");
  assert_eq!(found, vec![("$x".to_string(), Some(6))]);
}

#[test]
fn has_no_completions_in_text() {
  let source = "hello ┋world";
  let loc = Location::new_for_test(source.find('┋').unwrap() as u32);
  let message = source.replace('┋', "");
  let (ast, ..) = parse(&message);
  let (scope, _) = Scope::analyse(&ast);
  let provider = CompletionsProvider::new(&ast, loc, &scope);
  assert!(!provider.has_completions());
  assert!(provider.get_completions().is_empty());
}
