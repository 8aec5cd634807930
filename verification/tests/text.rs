use mf2_tools::text::LineColUtf16;
use mf2_tools::text::LineColUtf8;
use mf2_tools::text::Location;
use mf2_tools::text::SourceTextInfo;
use mf2_tools::text::SourceTextIterator;
use mf2_tools::text::Span;

const SOURCE: &str = "a\nbc\r\nf\r🍊😅🎃\r\nasd🍊a";

fn info_of(source: &str) -> SourceTextInfo<'_> {
  let mut source_text = SourceTextIterator::new(source);
  while source_text.next().is_some() {}
  source_text.into_info()
}

#[test]
fn source_text_line_col_from_loc() {
  let info = info_of(SOURCE);
  let utf8 = [
    (0, 0, 0),
    (1, 0, 1),
    (2, 1, 0),
    (3, 1, 1),
    (4, 1, 2),
    (5, 1, 3),
    (6, 2, 0),
    (7, 2, 1),
    (8, 3, 0),
    (12, 3, 4),
    (16, 3, 8),
    (20, 3, 12),
    (21, 3, 13),
    (22, 4, 0),
    (23, 4, 1),
    (24, 4, 2),
    (25, 4, 3),
    (29, 4, 7),
    (30, 4, 8),
  ];
  for (byte, line, col) in utf8 {
    assert_eq!(
      info.utf8_line_col(Location::new_for_test(byte)),
      LineColUtf8 { line, col },
      "byte {}",
      byte
    );
  }
  let utf16 = [
    (0, 0, 0),
    (1, 0, 1),
    (2, 1, 0),
    (3, 1, 1),
    (4, 1, 2),
    (5, 1, 3),
    (6, 2, 0),
    (7, 2, 1),
    (8, 3, 0),
    (12, 3, 2),
    (16, 3, 4),
    (20, 3, 6),
    (21, 3, 7),
    (22, 4, 0),
    (23, 4, 1),
    (24, 4, 2),
    (25, 4, 3),
    (29, 4, 5),
    (30, 4, 6),
  ];
  for (byte, line, col) in utf16 {
    assert_eq!(
      info.utf16_line_col(Location::new_for_test(byte)),
      LineColUtf16 { line, col },
      "byte {}",
      byte
    );
  }
}

#[test]
fn source_text_loc_from_line_col() {
  let info = info_of(SOURCE);
  let utf8 = [
    (0, 0, 0),
    (0, 1, 1),
    (1, 0, 2),
    (1, 1, 3),
    (1, 2, 4),
    (1, 3, 5),
    (2, 0, 6),
    (2, 1, 7),
    (3, 0, 8),
    (3, 1, 8),
    (3, 2, 8),
    (3, 3, 8),
    (3, 4, 12),
    (3, 5, 12),
    (3, 6, 12),
    (3, 7, 12),
    (3, 8, 16),
    (3, 9, 16),
    (3, 10, 16),
    (3, 11, 16),
    (3, 12, 20),
    (3, 13, 21),
    (4, 0, 22),
    (4, 1, 23),
    (4, 2, 24),
    (4, 3, 25),
    (4, 4, 25),
    (4, 5, 25),
    (4, 6, 25),
    (4, 7, 29),
    (4, 8, 30),
    // Out of bounds line index
    (5, 0, 30),
    // Out of bounds column index
    (0, 10, 2),
  ];
  for (line, col, byte) in utf8 {
    assert_eq!(
      info.utf8_loc(LineColUtf8 { line, col }),
      Location::new_for_test(byte),
      "loc {}:{}",
      line,
      col
    );
  }
  let utf16 = [
    (0, 0, 0),
    (0, 1, 1),
    (1, 0, 2),
    (1, 1, 3),
    (1, 2, 4),
    (1, 3, 5),
    (2, 0, 6),
    (2, 1, 7),
    (3, 0, 8),
    (3, 1, 8),
    (3, 2, 12),
    (3, 3, 12),
    (3, 4, 16),
    (3, 5, 16),
    (3, 6, 20),
    (3, 7, 21),
    (4, 0, 22),
    (4, 1, 23),
    (4, 2, 24),
    (4, 3, 25),
    (4, 4, 25),
    (4, 5, 29),
    (4, 6, 30),
    // Out of bounds line index
    (5, 0, 30),
    // Out of bounds column index
    (0, 10, 2),
  ];
  for (line, col, byte) in utf16 {
    assert_eq!(
      info.utf16_loc(LineColUtf16 { line, col }),
      Location::new_for_test(byte),
      "loc {}:{}",
      line,
      col
    );
  }
}

#[test]
fn source_text_line_col_reset() {
  let source = "a\rb";
  let mut source_text = SourceTextIterator::new(source);
  assert_eq!(source_text.next(), Some((Location::new_for_test(0), 'a')));
  assert_eq!(source_text.next(), Some((Location::new_for_test(1), '\r')));
  // doesn't change anything, but \r tracking must be set correctly now
  source_text.reset_to(Location::new_for_test(2));
  assert_eq!(source_text.next(), Some((Location::new_for_test(2), 'b')));
  assert_eq!(source_text.next(), None);
  let info = source_text.into_info();
  assert_eq!(*info.utf8_line_starts(), vec![0, 2]);
}

#[test]
fn source_text_span_len() {
  let source = "a\nbc\r\nf\r🍊😅🎃\r\nasd🍊a";
  let info = info_of(source);
  let span = |a: u32, b: u32| {
    Span::new(Location::new_for_test(a)..Location::new_for_test(b))
  };
  assert_eq!(info.utf8_len(span(0, 0)), 0);
  assert_eq!(info.utf8_len(span(0, 1)), 1);
  assert_eq!(info.utf8_len(span(0, 2)), 2);
  assert_eq!(info.utf8_len(span(8, 12)), 4);

  assert_eq!(info.utf16_len(span(0, 0)), 0);
  assert_eq!(info.utf16_len(span(0, 1)), 1);
  assert_eq!(info.utf16_len(span(0, 2)), 2);
  assert_eq!(info.utf16_len(span(8, 12)), 2);
}

#[test]
fn text_slices_by_location() {
  let info = info_of(SOURCE);
  assert_eq!(info.text(Span::new(Location::new_for_test(8)..Location::new_for_test(16))), "🍊😅");
  assert_eq!(*info.utf8_line_starts(), vec![0, 2, 6, 8, 22]);
}

#[test]
fn source_text_peeks_ahead() {
  let mut it = SourceTextIterator::new("x🍊y");
  assert_eq!(it.peek2(), Some((Location::new_for_test(1), '🍊')));
  assert_eq!(it.peek(), Some((Location::new_for_test(0), 'x')));
  assert_eq!(it.next(), Some((Location::new_for_test(0), 'x')));
  assert_eq!(it.current_location(), Location::new_for_test(1));
  assert_eq!(it.next(), Some((Location::new_for_test(1), '🍊')));
  assert_eq!(it.slice(Location::new_for_test(0)..Location::new_for_test(5)), "x🍊");
  assert_eq!(it.end_location(), Location::new_for_test(6));
}
