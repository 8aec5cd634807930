use mf2_tools::resource::parse_resource;
use mf2_tools::resource::ResourceLine;

#[test]
fn detects_multiple_frontmatter_and_ordering() {
  let source = "a = hi\n---\n---\n";
  let (_doc, diagnostics, _info) = parse_resource(source);
  assert!(
    diagnostics.iter().any(|d| d.code == "frontmatter-order"),
    "missing frontmatter ordering diagnostic"
  );
  assert!(
    diagnostics.iter().any(|d| d.code == "multiple-frontmatter"),
    "missing multiple-frontmatter diagnostic"
  );
}

#[test]
fn reports_invalid_indented_line() {
  let source = "  orphan\n";
  let (_doc, diagnostics, _info) = parse_resource(source);
  assert!(diagnostics.iter().any(|d| d.code == "invalid-line-indented"));
}

#[test]
fn reports_dangling_metadata() {
  let source = "@locale en-US\n\nentry = hi\n";
  let (_doc, diagnostics, _info) = parse_resource(source);
  assert!(diagnostics.iter().any(|d| d.code == "dangling-metadata"));
}

#[test]
fn parses_multiline_entry_value_and_normalizes_crlf() {
  let source = "entry = one\r\n  two\r\n";
  let (doc, diagnostics, _info) = parse_resource(source);
  assert!(diagnostics.is_empty());
  assert_eq!(doc.entries.len(), 1);
  assert_eq!(doc.entries[0].value.text, "one\ntwo");
}

#[test]
fn parses_sections_and_entry_ids() {
  let source = "[main.section]\nkey-name = hello\n";
  let (doc, diagnostics, _info) = parse_resource(source);
  assert!(diagnostics.is_empty());
  assert_eq!(doc.sections.len(), 1);
  assert_eq!(doc.entries.len(), 1);
  assert_eq!(doc.entries[0].section_path, vec!["main", "section"]);
}

#[test]
fn value_bytes_map_back_to_the_source() {
  let source = "entry = héllo\r\n\t wörld\n";
  let (doc, diagnostics, _info) = parse_resource(source);
  assert!(diagnostics.is_empty());
  let value = &doc.entries[0].value;
  assert_eq!(value.text, "héllo\nwörld");
  assert_eq!(value.source_offsets.len(), value.text.len());
  let src = source.as_bytes();
  for (i, b) in value.text.as_bytes().iter().enumerate() {
    assert_eq!(src[value.source_offsets[i] as usize], *b);
  }
  assert_eq!(value.source_offsets[0], 8);
  assert_eq!(value.span.start.0, 8);
  assert_eq!(value.span.end.0, 24);
}

#[test]
fn attaches_metadata_and_comments_to_the_next_entry() {
  let source = "# about\n@note hi there\nkey = value\n";
  let (doc, diagnostics, _info) = parse_resource(source);
  assert!(diagnostics.is_empty());
  assert_eq!(doc.comments.len(), 1);
  assert_eq!(doc.metadata.len(), 1);
  assert_eq!(doc.metadata[0].name, "note");
  assert_eq!(doc.metadata[0].value.as_ref().unwrap().text, "hi there");
  assert_eq!(doc.entries[0].attached_metadata, vec![0]);
  assert_eq!(doc.entries[0].attached_comments, vec![0]);
  assert_eq!(doc.lines.len(), 4);
  assert!(matches!(doc.lines[3], ResourceLine::Empty { .. }));
}

#[test]
fn reports_invalid_ids_and_syntax() {
  let (doc, diagnostics, _info) = parse_resource("[a b]\n[x\nke!y = 1\n@ x\nnothing\n");
  let codes: Vec<&str> = diagnostics.iter().map(|d| d.code).collect();
  assert_eq!(
    codes,
    vec![
      "invalid-section-id",
      "invalid-section-syntax",
      "invalid-entry-id",
      "invalid-metadata-syntax",
      "invalid-line"
    ]
  );
  assert_eq!(doc.sections[0].id, "a b");
  assert_eq!(doc.sections[0].id_span.start.0, 1);
  assert_eq!(doc.sections[0].id_span.end.0, 4);
}

#[test]
fn accepts_unicode_letters_and_escapes_in_ids() {
  let (doc, diagnostics, _info) = parse_resource("ключ.a\\ b = x\n");
  assert!(diagnostics.is_empty(), "{:?}", diagnostics);
  assert_eq!(doc.entries[0].id, "ключ.a\\ b");
}

#[test]
fn frontmatter_is_recorded_once() {
  let (doc, diagnostics, _info) = parse_resource("---  \nk = v\n");
  assert!(diagnostics.is_empty());
  assert!(doc.frontmatter.is_some());
  assert!(matches!(doc.lines[0], ResourceLine::Frontmatter { .. }));
}

#[test]
fn section_id_span_is_its_first_occurrence_in_the_line() {
  let (doc, diags, _) = parse_resource("[[ ]\n");
  assert_eq!(doc.sections[0].id, "[");
  assert_eq!((doc.sections[0].id_span.start.0, doc.sections[0].id_span.end.0), (0, 1));
  let d = diags.iter().find(|d| d.code == "invalid-section-id").unwrap();
  assert_eq!((d.span.start.0, d.span.end.0), (0, 1));
}
