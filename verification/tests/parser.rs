use mf2_tools::ast::ComplexMessageBody;
use mf2_tools::ast::Declaration;
use mf2_tools::ast::Expression;
use mf2_tools::ast::Key;
use mf2_tools::ast::Literal;
use mf2_tools::ast::Message;
use mf2_tools::ast::PatternPart;
use mf2_tools::diagnostic::Diagnostic;
use mf2_tools::parse;
use mf2_tools::text::Spanned;

fn diagnostics_of(source: &str) -> Vec<String> {
  let (_, diagnostics, _) = parse(source);
  diagnostics.iter().map(|d| format!("{:?}", d)).collect()
}

#[test]
fn parses_plain_text_as_one_text_part() {
  let (message, diagnostics, _) = parse("hello world");
  assert!(diagnostics.is_empty());
  match message {
    Message::Simple(pattern) => {
      assert_eq!(pattern.parts.len(), 1);
      match &pattern.parts[0] {
        PatternPart::Text(t) => {
          assert_eq!(t.content, "hello world");
          assert_eq!(t.start.0, 0);
        }
        _ => panic!("expected text"),
      }
    }
    _ => panic!("expected simple message"),
  }
}

#[test]
fn parses_placeholder_with_variable_and_function() {
  let (message, diagnostics, _) = parse("Hi {$name :string style=bold} !");
  assert!(diagnostics.is_empty(), "{:?}", diagnostics);
  let Message::Simple(pattern) = message else { panic!("expected simple") };
  assert_eq!(pattern.parts.len(), 3);
  let PatternPart::Expression(Expression::VariableExpression(e)) = &pattern.parts[1] else {
    panic!("expected variable expression")
  };
  assert_eq!(e.variable.name, "name");
  assert_eq!(e.span.start.0, 3);
  assert_eq!(e.span.end.0, 29);
  let annotation = e.annotation.as_ref().unwrap();
  let mf2_tools::ast::Annotation::Function(f) = annotation;
  assert_eq!(f.id.name, "string");
  assert_eq!(f.options.len(), 1);
  assert_eq!(f.options[0].key.name, "style");
}

#[test]
fn parses_complex_message_with_declarations_and_matcher() {
  let source = ".input {$count :number}\n.local $x = {|a b|}\n.match $count\n1 {{one}}\n* {{other}}";
  let (message, diagnostics, _) = parse(source);
  assert!(diagnostics.is_empty(), "{:?}", diagnostics);
  let Message::Complex(complex) = message else { panic!("expected complex") };
  assert_eq!(complex.declarations.len(), 2);
  assert!(matches!(complex.declarations[0], Declaration::InputDeclaration(_)));
  assert!(matches!(complex.declarations[1], Declaration::LocalDeclaration(_)));
  let ComplexMessageBody::Matcher(matcher) = &complex.body else { panic!("expected matcher") };
  assert_eq!(matcher.selectors.len(), 1);
  assert_eq!(matcher.selectors[0].name, "count");
  assert_eq!(matcher.variants.len(), 2);
  assert!(matches!(matcher.variants[0].keys[0], Key::Literal(Literal::Number(_))));
  assert!(matches!(matcher.variants[1].keys[0], Key::Star(_)));
}

#[test]
fn parses_quoted_pattern_body() {
  let (message, diagnostics, _) = parse("  {{Hello {$x}}}");
  assert!(diagnostics.is_empty(), "{:?}", diagnostics);
  let Message::Complex(complex) = message else { panic!("expected complex") };
  let ComplexMessageBody::QuotedPattern(q) = &complex.body else { panic!("expected quoted") };
  assert_eq!(q.span.start.0, 2);
  assert_eq!(q.span.end.0, 16);
  assert_eq!(q.pattern.parts.len(), 2);
}

#[test]
fn reports_unclosed_placeholder() {
  let d = diagnostics_of("{");
  assert_eq!(d.len(), 2, "{:?}", d);
  assert!(d[0].starts_with("PlaceholderMissingClosingBrace"));
  assert!(d[1].starts_with("PlaceholderMissingBody"));
}

#[test]
fn reports_invalid_escape_and_brace() {
  let (_, diagnostics, _) = parse("a\\x}");
  assert_eq!(diagnostics.len(), 2);
  assert!(matches!(diagnostics[0], Diagnostic::EscapeInvalidCharacter { char: 'x', .. }));
  assert!(matches!(diagnostics[1], Diagnostic::InvalidClosingBrace { .. }));
}

#[test]
fn reports_number_with_leading_zero() {
  let (_, diagnostics, _) = parse("{0123}");
  assert_eq!(diagnostics.len(), 1);
  assert!(matches!(diagnostics[0], Diagnostic::NumberLeadingZeroIntegralPart { .. }));
}

#[test]
fn reports_missing_fallback_and_key_mismatch() {
  let (_, diagnostics, _) = parse(".match $a $b 1 {{x}}");
  assert_eq!(diagnostics.len(), 2, "{:?}", diagnostics);
  assert!(matches!(
    diagnostics[0],
    Diagnostic::MatcherVariantKeysMismatch { selectors: 2, keys: 1, .. }
  ));
  assert!(matches!(diagnostics[1], Diagnostic::MatcherMissingFallback { .. }));
}

#[test]
fn reports_unquoted_complex_body() {
  let (message, diagnostics, _) = parse(".local $x = {1} hello");
  assert_eq!(diagnostics.len(), 1, "{:?}", diagnostics);
  assert!(matches!(diagnostics[0], Diagnostic::ComplexMessageBodyNotQuoted { .. }));
  assert!(matches!(message, Message::Complex(_)));
}

#[test]
fn whitespace_only_message_is_one_text() {
  let (message, diagnostics, _) = parse("  \n ");
  assert!(diagnostics.is_empty());
  let Message::Simple(pattern) = message else { panic!("expected simple") };
  assert_eq!(pattern.parts.len(), 1);
}

#[test]
fn test() {}

#[test]
fn text_and_variables_parse_into_runs_and_variables() {
  let (message, diagnostics, _) = parse("Hello, {$name}!");
  assert!(diagnostics.is_empty());
  let Message::Simple(pattern) = message else { panic!("expected a simple message") };
  assert_eq!(pattern.parts.len(), 3);
  assert!(matches!(&pattern.parts[0], PatternPart::Text(t) if t.content == "Hello, "));
  match &pattern.parts[1] {
    PatternPart::Expression(Expression::VariableExpression(x)) => {
      assert_eq!(x.variable.name, "name");
      assert!(x.annotation.is_none());
      assert!(x.attributes.is_empty());
    }
    other => panic!("unexpected part {other:?}"),
  }
  assert!(matches!(&pattern.parts[2], PatternPart::Text(t) if t.content == "!"));
}

#[test]
fn escapes_stand_between_runs_of_text() {
  let (message, diagnostics, _) = parse("a\\{b");
  assert!(diagnostics.is_empty());
  let Message::Simple(pattern) = message else { panic!("expected a simple message") };
  assert_eq!(pattern.parts.len(), 3);
  assert!(matches!(&pattern.parts[0], PatternPart::Text(t) if t.content == "a"));
  assert!(matches!(&pattern.parts[1], PatternPart::Escape(e) if e.escaped_char == '{'));
  assert!(matches!(&pattern.parts[2], PatternPart::Text(t) if t.content == "b"));
}

#[test]
fn variables_with_functions_parse_without_diagnostics() {
  let (message, diagnostics, _) = parse("{$count :number} items");
  assert!(diagnostics.is_empty());
  let Message::Simple(pattern) = message else { panic!("expected a simple message") };
  assert_eq!(pattern.parts.len(), 2);
  match &pattern.parts[0] {
    PatternPart::Expression(Expression::VariableExpression(x)) => {
      assert_eq!(x.variable.name, "count");
      match &x.annotation {
        Some(mf2_tools::ast::Annotation::Function(f)) => {
          assert_eq!(f.id.name, "number");
          assert!(f.id.namespace.is_none());
          assert!(f.options.is_empty());
        }
        None => panic!("expected a function"),
      }
    }
    other => panic!("unexpected part {other:?}"),
  }
}

#[test]
fn matcher_selectors_are_the_variables_after_match() {
  let (message, _, _) = parse(".match $a   $bb\n* * {{x}}");
  let Message::Complex(complex) = message else { panic!("expected complex") };
  let ComplexMessageBody::Matcher(matcher) = &complex.body else { panic!("expected matcher") };
  assert_eq!(matcher.selectors.len(), 2);
  assert_eq!(matcher.selectors[0].name, "a");
  assert_eq!(matcher.selectors[0].span.start.0, 7);
  assert_eq!(matcher.selectors[1].name, "bb");
  assert_eq!(matcher.selectors[1].span.start.0, 12);
}

#[test]
fn literal_operand_keeps_its_annotation() {
  let (message, diagnostics, _) = parse("{1 :number x=1}");
  assert!(diagnostics.is_empty(), "{:?}", diagnostics);
  let Message::Simple(pattern) = message else { panic!("expected simple") };
  match &pattern.parts[0] {
    PatternPart::Expression(Expression::LiteralExpression(x)) => {
      assert!(matches!(x.literal, Literal::Number(_)));
      let Some(mf2_tools::ast::Annotation::Function(f)) = &x.annotation else { panic!("expected a function") };
      assert_eq!(f.id.name, "number");
      assert_eq!(f.options.len(), 1);
      assert_eq!(f.options[0].key.name, "x");
    }
    other => panic!("unexpected part {other:?}"),
  }
}

#[test]
fn annotation_alone_makes_an_annotation_expression() {
  let (message, _, _) = parse("{:fn}");
  let Message::Simple(pattern) = message else { panic!("expected simple") };
  assert!(matches!(&pattern.parts[0], PatternPart::Expression(Expression::AnnotationExpression(_))));
}

#[test]
fn first_input_declaration_is_read() {
  let (message, _, _) = parse("  .input  { $x } {{hi}}");
  let Message::Complex(complex) = message else { panic!("expected complex") };
  match &complex.declarations[0] {
    Declaration::InputDeclaration(d) => {
      assert_eq!(d.expression.variable.name, "x");
      assert_eq!(d.expression.variable.span.start.0, 12);
    }
    other => panic!("unexpected declaration {other:?}"),
  }
}

#[test]
fn diagnostic_spans_stay_inside_the_message() {
  let source = "a\\é\\";
  let (_, diagnostics, _) = parse(source);
  assert_eq!(diagnostics.len(), 2);
  for d in &diagnostics {
    let span = d.span();
    assert!(span.start.0 <= span.end.0);
    assert!(source.is_char_boundary(span.end.0 as usize), "{:?}", d);
  }
  assert_eq!(diagnostics[0].span().end.0, 4);
}

#[test]
fn simple_message_parts_cover_the_text() {
  let source = "ab{$x}\\{c} d}";
  let (message, _, _) = parse(source);
  let Message::Simple(pattern) = message else { panic!("expected simple") };
  let spans: Vec<(u32, u32)> = pattern.parts.iter().map(|p| {
    let s = mf2_tools::text::Spanned::span(p);
    (s.start.0, s.end.0)
  }).collect();
  assert_eq!(spans.first().unwrap().0, 0);
  for w in spans.windows(2) {
    assert_eq!(w[0].1, w[1].0);
  }
  assert_eq!(spans.last().unwrap().1 as usize, source.len());
}

#[test]
fn a_lone_backslash_at_the_end_is_left_out() {
  let (message, diagnostics, _) = parse("ab\\");
  assert!(matches!(diagnostics[0], Diagnostic::EscapeMissingCharacter { .. }));
  let Message::Simple(pattern) = message else { panic!("expected simple") };
  assert_eq!(pattern.parts.len(), 1);
  assert!(matches!(&pattern.parts[0], PatternPart::Text(t) if t.content == "ab"));
}

#[test]
fn declarations_start_at_their_keywords_in_order() {
  let source = ".input {$a}\n.local $b = {1}\n{{x}}";
  let (message, diagnostics, _) = parse(source);
  assert!(diagnostics.is_empty(), "{:?}", diagnostics);
  let Message::Complex(complex) = message else { panic!("expected complex") };
  assert_eq!(complex.declarations.len(), 2);
  match (&complex.declarations[0], &complex.declarations[1]) {
    (Declaration::InputDeclaration(i), Declaration::LocalDeclaration(l)) => {
      assert_eq!(i.start.0, 0);
      assert_eq!(l.start.0, 12);
      assert_eq!(&source[l.start.0 as usize..l.start.0 as usize + 6], ".local");
    }
    other => panic!("unexpected declarations {other:?}"),
  }
}

#[test]
fn first_local_declaration_is_read() {
  let (message, _, _) = parse(".local $y = {1} {{x}}");
  let Message::Complex(complex) = message else { panic!("expected complex") };
  match &complex.declarations[0] {
    Declaration::LocalDeclaration(d) => {
      assert_eq!(d.variable.name, "y");
      assert_eq!(d.variable.span.start.0, 7);
    }
    other => panic!("unexpected declaration {other:?}"),
  }
}

#[test]
fn unclosed_placeholder_is_reported_over_the_rest() {
  let (_, diagnostics, _) = parse("Hello {$name");
  let found = diagnostics.iter().any(|d| match d {
    Diagnostic::PlaceholderMissingClosingBrace { span } => span.start.0 == 6 && span.end.0 == 12,
    _ => false,
  });
  assert!(found, "{:?}", diagnostics);
}

#[test]
fn lone_backslash_is_the_last_diagnostic() {
  let (_, diagnostics, _) = parse("a {$x} b\\");
  assert!(matches!(diagnostics.last(), Some(Diagnostic::EscapeMissingCharacter { slash_loc }) if slash_loc.0 == 8));
}

#[test]
fn markup_kind_follows_the_slash() {
  for (source, standalone) in [("{#a/}", true), ("{#a  /  }", true), ("{#a}", false), ("{#a x=1 /}", true)] {
    let (message, _, _) = parse(source);
    let Message::Simple(pattern) = message else { panic!("expected simple") };
    match &pattern.parts[0] {
      PatternPart::Markup(m) => {
        assert_eq!(matches!(m.kind, mf2_tools::ast::MarkupKind::Standalone), standalone, "{source}");
      }
      other => panic!("unexpected part {other:?}"),
    }
  }
}

#[test]
fn placeholder_variable_span_is_fixed() {
  let (message, _, _) = parse("Hello, {$name}!");
  let Message::Simple(pattern) = message else { panic!("expected simple") };
  match &pattern.parts[1] {
    PatternPart::Expression(Expression::VariableExpression(x)) => {
      assert_eq!((x.variable.span.start.0, x.variable.span.end.0), (8, 13));
    }
    other => panic!("unexpected part {other:?}"),
  }
}

#[test]
fn function_options_are_read_in_order() {
  let (message, diagnostics, _) = parse("{$x :fn a=1  b = $y c=|q|}");
  assert!(diagnostics.is_empty(), "{:?}", diagnostics);
  let Message::Simple(pattern) = message else { panic!("expected simple") };
  let PatternPart::Expression(Expression::VariableExpression(x)) = &pattern.parts[0] else { panic!("expected variable") };
  let Some(mf2_tools::ast::Annotation::Function(f)) = &x.annotation else { panic!("expected a function") };
  let keys: Vec<&str> = f.options.iter().map(|o| o.key.name).collect();
  assert_eq!(keys, vec!["a", "b", "c"]);
  assert!(matches!(f.options[0].value, mf2_tools::ast::LiteralOrVariable::Literal(Literal::Number(_))));
  assert!(matches!(&f.options[1].value, mf2_tools::ast::LiteralOrVariable::Variable(v) if v.name == "y"));
  assert!(matches!(f.options[2].value, mf2_tools::ast::LiteralOrVariable::Literal(Literal::Quoted(_))));
}

#[test]
fn matcher_variants_follow_the_text() {
  let (message, _, _) = parse(".match $a $b\n1 2 {{x}}\n* * {{y}} 3");
  let Message::Complex(complex) = message else { panic!("expected complex") };
  let ComplexMessageBody::Matcher(matcher) = &complex.body else { panic!("expected matcher") };
  assert_eq!(matcher.variants.len(), 3);
  assert_eq!(matcher.variants[0].keys.len(), 2);
  assert!(matches!(matcher.variants[1].keys[0], Key::Star(_)));
  assert_eq!(matcher.variants[2].keys.len(), 1);
  assert_eq!(matcher.variants[2].pattern.span.start, matcher.variants[2].pattern.span.end);
}

#[test]
fn attributes_and_markup_options_are_read() {
  let (message, _, _) = parse("{$x @a=1 @b} {#t k=v @c=|z|/}");
  let Message::Simple(pattern) = message else { panic!("expected simple") };
  let PatternPart::Expression(Expression::VariableExpression(x)) = &pattern.parts[0] else { panic!("expected variable") };
  let names: Vec<&str> = x.attributes.iter().map(|a| a.key.name).collect();
  assert_eq!(names, vec!["a", "b"]);
  assert!(matches!(x.attributes[0].value, Some(Literal::Number(_))));
  assert!(x.attributes[1].value.is_none());
  let PatternPart::Markup(m) = &pattern.parts[2] else { panic!("expected markup") };
  assert!(matches!(m.kind, mf2_tools::ast::MarkupKind::Standalone));
  assert_eq!(m.options[0].key.name, "k");
  assert_eq!(m.attributes[0].key.name, "c");
  assert!(matches!(m.attributes[0].value, Some(Literal::Quoted(_))));
}

#[test]
fn stray_braces_and_nulls_are_reported_where_they_stand() {
  let (_, diagnostics, _) = parse("a}b\0c");
  assert!(diagnostics.iter().any(|d| matches!(d, Diagnostic::InvalidClosingBrace { brace_loc } if brace_loc.0 == 1)));
  assert!(diagnostics.iter().any(|d| matches!(d, Diagnostic::InvalidNullCharacter { char_loc } if char_loc.0 == 3)));
}

fn markup_of(source: &str) -> mf2_tools::ast::Markup<'_> {
  let (message, _, _) = parse(source);
  match message {
    Message::Simple(pattern) => match pattern.parts.into_iter().next() {
      Some(PatternPart::Markup(m)) => m,
      _ => panic!("expected markup"),
    },
    _ => panic!("expected a simple message"),
  }
}

#[test]
fn markup_keeps_every_option_and_attribute_after_its_identifier() {
  let m = markup_of("{#t k=v @c @d=e}");
  assert_eq!(m.options.len(), 1);
  assert_eq!(m.options[0].key.name, "k");
  assert_eq!(m.attributes.len(), 2);
  assert_eq!(m.attributes[0].key.name, "c");
  assert_eq!(m.attributes[1].key.name, "d");
}

#[test]
fn markup_keeps_an_option_that_follows_an_attribute() {
  let m = markup_of("{#t @a k=v /}");
  assert_eq!(m.options.len(), 1);
  assert_eq!(m.options[0].key.name, "k");
  assert_eq!(m.attributes.len(), 1);
  let diagnostics = diagnostics_of("{#t @a k=v /}");
  assert!(diagnostics.iter().any(|d| d.starts_with("MarkupOptionAfterAttribute")));
}

#[test]
fn expression_keeps_every_attribute() {
  let (message, diagnostics, _) = parse("{$x @a @b=c}");
  assert!(diagnostics.is_empty());
  match message {
    Message::Simple(pattern) => match &pattern.parts[0] {
      PatternPart::Expression(Expression::VariableExpression(v)) => {
        assert_eq!(v.attributes.len(), 2);
        assert_eq!(v.attributes[0].key.name, "a");
        assert_eq!(v.attributes[1].key.name, "b");
      }
      _ => panic!("expected a variable expression"),
    },
    _ => panic!("expected a simple message"),
  }
}

#[test]
fn markup_without_identifier_is_reported() {
  let (_, diagnostics, _) = parse("{#}");
  assert!(diagnostics.iter().any(|d| matches!(d, Diagnostic::MarkupMissingIdentifier { span } if span.start.0 == 0 && span.end.0 == 3)));
}

#[test]
fn attribute_and_option_without_key_are_reported() {
  let diagnostics = diagnostics_of("{#t =v @}");
  assert!(diagnostics.iter().any(|d| d.starts_with("AttributeMissingKey")));
  assert!(diagnostics.iter().any(|d| d.starts_with("OptionMissingKey")));
}

#[test]
fn function_without_identifier_is_reported() {
  let diagnostics = diagnostics_of("{: }");
  assert!(diagnostics.iter().any(|d| d.starts_with("FunctionMissingIdentifier")));
}

#[test]
fn stray_brace_in_a_quoted_body_is_reported_where_it_stands() {
  let (_, diagnostics, _) = parse("{{a}b}}");
  assert!(diagnostics.iter().any(|d| matches!(d, Diagnostic::InvalidClosingBrace { brace_loc } if brace_loc.0 == 3)));
}

#[test]
fn variable_without_name_is_reported() {
  let (_, diagnostics, _) = parse("{$}");
  assert!(diagnostics.iter().any(|d| matches!(d, Diagnostic::VariableMissingName { span } if span.start.0 == 1 && span.end.0 == 2)));
}

#[test]
fn matcher_without_fallback_is_reported() {
  let with_fallback = diagnostics_of(".input {$x :string}\n.match $x\na {{a}}\n* {{b}}");
  assert!(!with_fallback.iter().any(|d| d.starts_with("MatcherMissingFallback")));
  let without_fallback = diagnostics_of(".input {$x :string}\n.match $x\na {{a}}\nb {{b}}");
  assert!(without_fallback.iter().any(|d| d.starts_with("MatcherMissingFallback")));
}

#[test]
fn stray_brace_in_a_variant_is_reported_where_it_stands() {
  let (_, diagnostics, _) = parse(".input {$x :string}\n.match $x\n* {{a}b}}");
  assert!(diagnostics.iter().any(|d| matches!(d, Diagnostic::InvalidClosingBrace { brace_loc } if brace_loc.0 == 35)));
}

#[test]
fn declaration_expression_without_variable_name_is_reported() {
  let (_, diagnostics, _) = parse(".local $y = {$ :f}\n{{a}}");
  assert!(diagnostics.iter().any(|d| matches!(d, Diagnostic::VariableMissingName { span } if span.start.0 == 13 && span.end.0 == 14)));
}

#[test]
fn parsed_tree_lies_within_the_message() {
  let source = ".local $y = {1}\n.input {$x}\n{{a {$y} b}}";
  let (message, _, _) = parse(source);
  match message {
    Message::Complex(c) => {
      assert_eq!(c.declarations.len(), 2);
      for d in c.declarations.iter() {
        let span = d.span();
        assert!(span.start.0 <= span.end.0 && (span.end.0 as usize) <= source.len());
      }
      let body = c.body.span();
      assert_eq!(body.start.0 as usize, source.find("{{").unwrap());
      assert_eq!(body.end.0 as usize, source.len());
    }
    _ => panic!("expected a complex message"),
  }
}

#[test]
fn placeholder_without_body_is_reported() {
  let (_, diagnostics, _) = parse("a{}b");
  assert!(diagnostics.iter().any(|d| matches!(d, Diagnostic::PlaceholderMissingBody { span } if span.start.0 == 1 && span.end.0 == 3)));
}
