use mf2_tools::parse;
use mf2_tools::semantic_tokens::legend;
use mf2_tools::semantic_tokens::semantic_tokens;

fn encoded(source: &str) -> Vec<(u32, u32, u32, u32)> {
  let (ast, _, info) = parse(source);
  semantic_tokens(&ast, &info)
    .expect("tokens in order")
    .into_iter()
    .map(|t| (t.delta_line, t.delta_start, t.length, t.token_type))
    .collect()
}

#[test]
fn encodes_tokens_relative_to_each_other() {
  assert_eq!(encoded("{$x :fn opt=1}"), vec![(0, 1, 2, 0), (0, 4, 2, 2), (0, 3, 3, 1), (0, 4, 1, 5)]);
}

#[test]
fn splits_tokens_at_line_ends() {
  assert_eq!(encoded("{|a\nb|}"), vec![(0, 1, 3, 4), (1, 0, 2, 4)]);
}

#[test]
fn marks_the_match_keyword_and_selectors() {
  let tokens = encoded(".input {$n :number}\n.match $n\n* {{x}}");
  assert_eq!(tokens[0], (0, 8, 2, 0));
  assert_eq!(tokens[1], (0, 4, 6, 2));
  assert_eq!(tokens[2], (1, 0, 6, 3));
  assert_eq!(tokens[3], (0, 7, 2, 0));
  assert_eq!(tokens.len(), 4);
}

#[test]
fn has_a_legend_for_each_kind() {
  assert_eq!(legend(), vec!["variable", "parameter", "function", "keyword", "string", "number"]);
}

#[test]
fn text_has_no_tokens() {
  assert!(encoded("just text").is_empty());
}
