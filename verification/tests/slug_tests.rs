use mdrefcheck::slug::{slugify, usize_to_dec, SlugTable};

#[test]
fn slugify_lowercases_and_separates() {
    assert_eq!(slugify(b"Hello, World!"), b"hello-world".to_vec());
    assert_eq!(slugify(b"Setup Guide 2"), b"setup-guide-2".to_vec());
}

#[test]
fn slugify_trims_and_collapses() {
    assert_eq!(slugify(b""), Vec::<u8>::new());
    assert_eq!(slugify(b"  ---  "), Vec::<u8>::new());
    assert_eq!(slugify(b"A   --  B"), b"a-b".to_vec());
}

#[test]
fn decimal_digits() {
    assert_eq!(usize_to_dec(0), b"0".to_vec());
    assert_eq!(usize_to_dec(7), b"7".to_vec());
    assert_eq!(usize_to_dec(120), b"120".to_vec());
}

#[test]
fn slug_disambiguation() {
    let mut t = SlugTable::new();
    assert_eq!(t.assign(b"Setup"), b"setup".to_vec());
    assert_eq!(t.assign(b"Setup"), b"setup-1".to_vec());
    assert_eq!(t.assign(b"setup"), b"setup-2".to_vec());
}

#[test]
fn slug_disambiguation_empty_headings() {
    let mut t = SlugTable::new();
    assert_eq!(t.assign(b""), Vec::<u8>::new());
    assert_eq!(t.assign(b"!!"), b"-1".to_vec());
}
