use mf2_tools::parse;
use mf2_tools::printer::print;
use mf2_tools::printer::Printer;

fn format(source: &str) -> String {
  let (ast, diagnostics, info) = parse(source);
  assert!(diagnostics.is_empty(), "{:?}", diagnostics);
  print(&ast, Some(&info))
}

fn format_without_info(source: &str) -> String {
  let (ast, _, _) = parse(source);
  print(&ast, None)
}

#[test]
fn prints_simple_message() {
  assert_eq!(format_without_info("Hello, {$name}!"), "Hello, {$name}!");
}

#[test]
fn normalizes_placeholder_spacing() {
  assert_eq!(format("{ $x   :fn   opt=1   @attr=a }"), "{$x :fn opt=1 @attr=a}");
  assert_eq!(format("{  :fn }"), "{:fn}");
  assert_eq!(format("{ |lit| }"), "{|lit|}");
  assert_eq!(format("{ 1.5e3 :number }"), "{1.5e3 :number}");
}

#[test]
fn prints_markup() {
  assert_eq!(format("{#b}bold{/b} {#img src=|a.png| /}"), "{#b}bold{/b} {#img src=|a.png| /}");
}

#[test]
fn keeps_escapes() {
  assert_eq!(format("a \\{ b {|x\\|y|}"), "a \\{ b {|x\\|y|}");
}

#[test]
fn keeps_one_empty_line_between_declarations_and_body() {
  let source = ".input {$x :number}\n.local $y = {$x}\n\n{{Hi {$y}}}";
  assert_eq!(format(source), ".input {$x :number}\n.local $y = {$x}\n\n{{Hi {$y}}}\n");
}

#[test]
fn without_source_an_empty_line_follows_the_last_declaration() {
  let source = ".input {$x :number}\n{{Hi}}";
  assert_eq!(format(source), ".input {$x :number}\n{{Hi}}\n");
  assert_eq!(format_without_info(source), ".input {$x :number}\n\n{{Hi}}\n");
}

#[test]
fn aligns_matcher_keys() {
  let source = ".input {$n :number}\n.match $n\n1 {{one}}\n* {{other}}";
  assert_eq!(format(source), ".input {$n :number}\n.match $n\n  1  {{one}}\n  *  {{other}}\n");
}

#[test]
fn aligns_matcher_keys_in_columns() {
  let source = ".input {$a :x}\n.input {$bb :x}\n.match $a $bb\nlong 1 {{x}}\n* * {{y}}";
  assert_eq!(
    format(source),
    ".input {$a :x}\n.input {$bb :x}\n.match\n  $a   $bb\n  long 1   {{x}}\n  *    *   {{y}}\n"
  );
}

#[test]
fn isolates_right_to_left_names() {
  assert_eq!(format("{$שם}"), "{$\u{2068}שם\u{2069}}");
}

#[test]
fn isolates_placeholder_after_right_to_left_text() {
  assert_eq!(format("שלום {$x}"), "שלום {\u{2066}$x\u{2069}}");
}

#[test]
fn formatting_is_stable() {
  for source in [
    "Hello, {$name}!",
    ".input {$x :number}\n.local $y = {$x}\n\n{{Hi {$y}}}",
    ".input {$n :number}\n.match $n\n1 {{one}}\n* {{other}}",
    "{ $x :fn opt=1 @attr }",
  ] {
    let once = format(source);
    let twice = format(&once);
    assert_eq!(once, twice);
  }
}

#[test]
fn printer_prints_the_whole_message() {
  let (ast, _, info) = parse("{$x}");
  let printer = Printer::new(&ast, Some(&info));
  assert_eq!(printer.print(), "{$x}");
}

#[test]
fn plain_text_formats_to_itself() {
  for source in ["just some text", "", "  spaced  out  ", "a.b@c|d"] {
    let (ast, diagnostics, info) = parse(source);
    assert!(diagnostics.is_empty());
    assert_eq!(print(&ast, Some(&info)), source);
    assert_eq!(print(&ast, None), source);
  }
}

#[test]
fn text_and_variables_format_to_themselves() {
  for source in ["Hello, {$name}!", "{$a}{$b}", "x {$first_name} y {$n2}", "{$x}", "a \\{ b \\} {$c}\\\\", "{$count :number} items", "{$d :datetime}{$e}"] {
    assert_eq!(format(source), source);
    assert_eq!(format_without_info(source), source);
  }
}

#[test]
fn formatting_text_and_variables_is_stable() {
  for source in ["Hi {$name :string}, \\{ok\\}!", "plain text only", "{$a}{$b}"] {
    let once = format(source);
    assert_eq!(once, source);
    let twice = format(&once);
    assert_eq!(twice, once);
  }
}
