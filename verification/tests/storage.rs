use lib::units::storage::spread::{capacity, Spread};
use lib::units::storage::string::{Bytes, PageString, STRING_INLINE};

fn walk(total: usize, branching: usize) -> Vec<usize> {
    let mut spread = Spread::new(branching, total);
    let mut sizes = Vec::new();
    loop {
        let index = spread.advance();
        if index == usize::MAX {
            break;
        }
        if index == 0 {
            sizes.push(spread.items());
        }
    }
    sizes
}

#[test]
fn capacities() {
    assert_eq!(capacity(6), 11);
    assert_eq!(capacity(16), 31);
}

#[test]
fn spread_of_a_single_page() {
    let spread = Spread::new(6, 1);
    assert_eq!(spread.layer_size(), 1);
    assert_eq!(spread.total_items(), 1);
    assert_eq!(walk(1, 6), vec![1]);
}

#[test]
fn spread_of_twenty_items() {
    let spread = Spread::new(6, 20);
    assert_eq!(spread.layer_size(), 3);
    assert_eq!(spread.total_items(), 20);
    assert_eq!(walk(20, 6), vec![6, 7, 7]);
}

#[test]
fn spread_of_three_hundred_items() {
    assert_eq!(walk(300, 6), vec![6; 50]);
    let upper = walk(50, 6);
    assert_eq!(upper, vec![6, 6, 6, 6, 6, 6, 7, 7]);
    assert_eq!(walk(8, 6), vec![8]);
}

#[test]
fn spread_of_nothing() {
    let mut spread = Spread::new(16, 0);
    assert_eq!(spread.total_items(), 0);
    assert_eq!(spread.advance(), usize::MAX);
}

#[test]
fn bytes_write_replaces_range() {
    let mut bytes = Bytes::new();
    bytes.append(b"hello world");
    assert_eq!(bytes.write(6, 11, b"there"), 0);
    assert_eq!(bytes.slice(0, bytes.len()), b"hello there");
    assert_eq!(bytes.write(0, 5, b"hi"), -3);
    assert_eq!(bytes.slice(0, bytes.len()), b"hi there");
    assert_eq!(bytes.write(2, 2, b", you"), 5);
    assert_eq!(bytes.slice(0, bytes.len()), b"hi, you there");
}

#[test]
fn bytes_move_between_inline_and_heap() {
    let mut bytes = Bytes::new();
    let long = vec![b'x'; STRING_INLINE + 10];
    bytes.append(&long);
    assert_eq!(bytes.len(), STRING_INLINE + 10);
    assert_eq!(bytes.write(0, STRING_INLINE + 5, b"ab"), -((STRING_INLINE + 3) as isize));
    assert_eq!(bytes.slice(0, bytes.len()), b"abxxxxx");
}

fn page(tokens: &[&str]) -> (PageString, usize) {
    let mut string = PageString::new();
    let mut offset = 0;
    for (index, token) in tokens.iter().enumerate() {
        string.set_byte_index(index, offset);
        string.append(token);
        offset += token.len();
    }
    (string, tokens.len())
}

fn tokens(string: &PageString, occupied: usize) -> Vec<Vec<u8>> {
    (0..occupied).map(|index| string.byte_slice(occupied, index).to_vec()).collect()
}

#[test]
fn page_string_reads_tokens() {
    let (string, occupied) = page(&["let", " ", "x"]);
    assert_eq!(tokens(&string, occupied), vec![b"let".to_vec(), b" ".to_vec(), b"x".to_vec()]);
    assert_eq!(string.byte_slice_from(occupied, 1), b" x");
    assert_eq!(string.bytes(), b"let x");
    assert_eq!(string.get_byte_index(2), 4);
}

#[test]
fn page_string_rewrite_reads_back() {
    let (mut string, occupied) = page(&["let", " ", "x", ";"]);
    string.rewrite(occupied, 1, b"  yy", &[0, 2], 2);
    assert_eq!(tokens(&string, occupied), vec![b"let".to_vec(), b"  ".to_vec(), b"yy".to_vec(), b";".to_vec()]);
    string.rewrite(occupied, 2, b"z", &[0], 1);
    assert_eq!(tokens(&string, occupied), vec![b"let".to_vec(), b"  ".to_vec(), b"z".to_vec(), b";".to_vec()]);
}

#[test]
fn page_string_inflate_and_deflate() {
    let (mut string, occupied) = page(&["a", "bb", "ccc", "d"]);
    string.deflate(occupied, 1, 2);
    assert_eq!(tokens(&string, occupied - 2), vec![b"a".to_vec(), b"d".to_vec()]);
    let (mut string, occupied) = page(&["a", "bb", "ccc"]);
    string.deflate(occupied, 1, 2);
    assert_eq!(tokens(&string, 1), vec![b"a".to_vec()]);
    let (mut string, occupied) = page(&["a", "d"]);
    string.inflate(occupied, 1, 2);
    string.rewrite(occupied + 2, 1, b"bbccc", &[0, 2], 2);
    assert_eq!(tokens(&string, occupied + 2), vec![b"a".to_vec(), b"bb".to_vec(), b"ccc".to_vec(), b"d".to_vec()]);
    let (mut string, occupied) = page(&["a"]);
    string.inflate(occupied, 1, 1);
    assert_eq!(string.get_byte_index(1), 1);
}

#[test]
fn page_string_copy_between_pages() {
    let (source, source_occupied) = page(&["x", "yy", "zzz"]);
    let (mut target, target_occupied) = page(&["a", "b", "c"]);
    source.copy_to(source_occupied, &mut target, target_occupied, 1, 1, 2);
    assert_eq!(tokens(&target, target_occupied), vec![b"a".to_vec(), b"yy".to_vec(), b"zzz".to_vec()]);
}

#[test]
fn defaults_are_empty() {
    let bytes = Bytes::default();
    assert_eq!(bytes.len(), 0);
    let mut string = PageString::default();
    assert!(string.bytes().is_empty());
    string.append("ab");
    assert_eq!(string.bytes(), b"ab");
}

#[test]
fn spread_of_fifty_pages() {
    assert_eq!(walk(50, 6), vec![6, 6, 6, 6, 6, 6, 7, 7]);
}
