use mf2_tools::char_indices::ResettablePeekableCharIndices;

#[test]
fn walks_characters_with_byte_indices() {
  let mut it = ResettablePeekableCharIndices::new("aé😀b");
  assert_eq!(it.peek(), Some((0, 'a')));
  assert_eq!(it.next(), Some((0, 'a')));
  assert_eq!(it.next(), Some((1, 'é')));
  assert_eq!(it.current_byte_index(), 3);
  assert_eq!(it.peek(), Some((3, '😀')));
  assert_eq!(it.peek(), Some((3, '😀')));
  assert_eq!(it.next(), Some((3, '😀')));
  assert_eq!(it.next(), Some((7, 'b')));
  assert_eq!(it.peek(), None);
  assert_eq!(it.next(), None);
  assert_eq!(it.current_byte_index(), 8);
}

#[test]
fn resets_to_a_boundary() {
  let mut it = ResettablePeekableCharIndices::new("aé😀b");
  it.next();
  it.next();
  it.next();
  it.reset_to(1);
  assert_eq!(it.current_byte_index(), 1);
  assert_eq!(it.next(), Some((1, 'é')));
  it.reset_to(8);
  assert_eq!(it.next(), None);
}

#[test]
fn counts_what_is_left_but_a_peeked_character() {
  let mut it = ResettablePeekableCharIndices::new("abc");
  it.next();
  assert_eq!(ResettablePeekableCharIndices::new("abc").count(), 3);
  it.peek();
  assert_eq!(it.count(), 1);
}
