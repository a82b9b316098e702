use fingertips::index::{InMemoryIndex, tokenize, REASONABLE_SIZE};
use fingertips::tmp::TmpDir;

fn hash_of(byte: u8) -> Vec<u8> {
    vec![byte; 32]
}

fn le32(x: u32) -> Vec<u8> {
    x.to_le_bytes().to_vec()
}

fn hit(hash: &[u8], offsets: &[u32]) -> Vec<u8> {
    let mut h = hash.to_vec();
    h.extend(le32(offsets.len() as u32));
    for o in offsets {
        h.extend(le32(*o));
    }
    h
}

fn find<'m>(index: &'m InMemoryIndex, term: &str) -> Option<&'m Vec<Vec<u8>>> {
    index.map.iter().find(|p| p.0 == term).map(|p| &p.1)
}

#[test]
fn tokenize_splits_on_non_alphanumeric() {
    let tokens = tokenize("Hello, World! 123");
    assert_eq!(tokens, vec!["Hello", "World", "123"]);
}

#[test]
fn tokenize_discards_empty_fragments() {
    assert_eq!(tokenize("  a--b  "), vec!["a", "b"]);
    assert_eq!(tokenize(""), Vec::<&str>::new());
    assert_eq!(tokenize("..!?"), Vec::<&str>::new());
}

#[test]
fn single_document_build() {
    let h = hash_of(7);
    let index = InMemoryIndex::from_single_document(&h, "cat dog cat".to_string());
    assert_eq!(index.word_count, 3);
    assert_eq!(index.map.len(), 2);
    let cat = find(&index, "cat").expect("cat indexed");
    assert_eq!(cat.len(), 1);
    assert_eq!(cat[0], hit(&h, &[0, 2]));
    let dog = find(&index, "dog").expect("dog indexed");
    assert_eq!(dog.len(), 1);
    assert_eq!(dog[0], hit(&h, &[1]));
}

#[test]
fn lowercasing_unifies_terms() {
    let h = hash_of(1);
    let index = InMemoryIndex::from_single_document(&h, "Cat cat CAT".to_string());
    assert_eq!(index.map.len(), 1);
    let cat = find(&index, "cat").expect("cat indexed");
    assert_eq!(cat[0], hit(&h, &[0, 1, 2]));
}

#[test]
fn empty_document_yields_empty_index() {
    let h = hash_of(2);
    let index = InMemoryIndex::from_single_document(&h, String::new());
    assert_eq!(index.word_count, 0);
    assert!(index.map.is_empty());
    assert!(index.is_empty());
}

#[test]
fn merge_concatenates_hits_and_adds_word_counts() {
    let h1 = hash_of(1);
    let h2 = hash_of(2);
    let mut a = InMemoryIndex::from_single_document(&h1, "ant bee".to_string());
    let b = InMemoryIndex::from_single_document(&h2, "bee cow".to_string());
    a.merge(b);
    assert_eq!(a.word_count, 4);
    assert_eq!(a.map.len(), 3);
    assert_eq!(find(&a, "ant").unwrap()[0], hit(&h1, &[0]));
    let bee = find(&a, "bee").unwrap();
    assert_eq!(bee.len(), 2);
    assert_eq!(bee[0], hit(&h1, &[1]));
    assert_eq!(bee[1], hit(&h2, &[0]));
    assert_eq!(find(&a, "cow").unwrap()[0], hit(&h2, &[1]));
}

#[test]
fn merge_keeps_terms_sorted() {
    let h1 = hash_of(1);
    let h2 = hash_of(2);
    let mut a = InMemoryIndex::from_single_document(&h1, "mango apple".to_string());
    a.merge(InMemoryIndex::from_single_document(&h2, "zebra banana".to_string()));
    let terms: Vec<&str> = a.map.iter().map(|p| p.0.as_str()).collect();
    assert_eq!(terms, vec!["apple", "banana", "mango", "zebra"]);
}

#[test]
fn is_large_boundary() {
    let at = InMemoryIndex { word_count: REASONABLE_SIZE, map: Vec::new() };
    assert!(!at.is_large());
    let past = InMemoryIndex { word_count: REASONABLE_SIZE + 1, map: Vec::new() };
    assert!(past.is_large());
}

#[test]
fn tmp_names_are_distinct_and_well_formed() {
    let mut tmp = TmpDir::new("anywhere".to_string());
    let mut names = Vec::new();
    for _ in 0..20 {
        names.push(tmp.next_name());
    }
    assert_eq!(names[0], "tmp00000001.dat");
    assert_eq!(names[15], "tmp00000010.dat");
    for i in 0..names.len() {
        for j in 0..i {
            assert_ne!(names[i], names[j]);
        }
    }
}
