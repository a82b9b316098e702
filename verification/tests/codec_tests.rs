use fingertips::index::{Doc, InMemoryIndex, ParsedIndex};
use fingertips::read::IndexFileReader;
use fingertips::write::{write_index_bytes, IndexFileWriter};
use fingertips::IndexError;

fn hash_of(byte: u8) -> Vec<u8> {
    vec![byte; 32]
}

fn offsets_of<'m>(index: &'m ParsedIndex, term: &str, hash: &[u8]) -> Option<&'m Vec<u32>> {
    let entry = index.map.iter().find(|p| p.0 == term)?;
    entry.1.iter().find(|d| d.0.hash == hash).map(|d| &d.1)
}

#[test]
fn write_then_decode_round_trip() {
    let h = hash_of(9);
    let index = InMemoryIndex::from_single_document(&h, "the cat saw the dog".to_string());
    let bytes = write_index_bytes(index).expect("serializes");
    let parsed = IndexFileReader::get_index_from_bytes(&bytes).expect("decodes");
    // one table-of-contents record per distinct term
    assert_eq!(parsed.word_count, 4);
    assert_eq!(parsed.map.len(), 4);
    assert_eq!(offsets_of(&parsed, "the", &h).unwrap(), &vec![0, 3]);
    assert_eq!(offsets_of(&parsed, "cat", &h).unwrap(), &vec![1]);
    assert_eq!(offsets_of(&parsed, "saw", &h).unwrap(), &vec![2]);
    assert_eq!(offsets_of(&parsed, "dog", &h).unwrap(), &vec![4]);
}

#[test]
fn empty_index_round_trips() {
    let index = InMemoryIndex::new();
    let bytes = write_index_bytes(index).expect("serializes");
    // just the header: the table of contents starts right after it
    assert_eq!(bytes, 8u64.to_le_bytes().to_vec());
    let parsed = IndexFileReader::get_index_from_bytes(&bytes).expect("decodes");
    assert_eq!(parsed.word_count, 0);
    assert!(parsed.map.is_empty());
}

#[test]
fn decode_of_truncated_image_fails() {
    let bytes = vec![1u8, 2, 3];
    let r = IndexFileReader::get_index_from_bytes(&bytes);
    assert_eq!(r.err(), Some(IndexError::UnexpectedEof));
}

#[test]
fn decode_of_image_cut_inside_a_record_fails() {
    let h = hash_of(3);
    let index = InMemoryIndex::from_single_document(&h, "solo".to_string());
    let mut bytes = write_index_bytes(index).expect("serializes");
    bytes.pop();
    let r = IndexFileReader::get_index_from_bytes(&bytes);
    assert_eq!(r.err(), Some(IndexError::UnexpectedEof));
}

#[test]
fn decode_of_non_utf8_term_fails() {
    // header, empty data region, one record whose single term byte is not UTF-8
    let mut bytes = 8u64.to_le_bytes().to_vec();
    bytes.extend(8u64.to_le_bytes()); // data offset
    bytes.extend(0u64.to_le_bytes()); // data length
    bytes.extend(0u32.to_le_bytes()); // document count
    bytes.extend(1u32.to_le_bytes()); // term byte length
    bytes.push(0xff);
    let r = IndexFileReader::get_index_from_bytes(&bytes);
    assert_eq!(r.err(), Some(IndexError::InvalidUtf8));
}

#[test]
fn reader_peeks_in_term_order() {
    let h = hash_of(4);
    let index = InMemoryIndex::from_single_document(&h, "pear apple quince".to_string());
    let bytes = write_index_bytes(index).expect("serializes");
    let reader = IndexFileReader::from_bytes(bytes).expect("opens");
    let first = reader.peek().expect("a pending entry");
    assert_eq!(first.term, "apple");
    assert_eq!(first.doc_count, 1);
    assert!(reader.is_at("apple"));
    assert!(!reader.is_at("pear"));
}

#[test]
fn streaming_copy_equals_decoded_original() {
    let h1 = hash_of(5);
    let h2 = hash_of(6);
    let mut index = InMemoryIndex::from_single_document(&h1, "red green blue".to_string());
    index.merge(InMemoryIndex::from_single_document(&h2, "green yellow".to_string()));
    let bytes = write_index_bytes(index).expect("serializes");
    let original = IndexFileReader::get_index_from_bytes(&bytes).expect("decodes");

    // copy every entry through the streaming path into a second image
    let mut reader = IndexFileReader::from_bytes(bytes).expect("opens");
    let mut out = IndexFileWriter::new();
    loop {
        let (term, doc_count, nbytes) = match reader.peek() {
            None => break,
            Some(e) => (e.term.clone(), e.doc_count, e.nbytes),
        };
        let start = out.offset as u64;
        reader.move_entry_to(&mut out).expect("moves");
        out.write_contents_entry(term, doc_count, start, nbytes);
    }
    let copy = out.finish();
    let copied = IndexFileReader::get_index_from_bytes(&copy).expect("decodes");

    assert_eq!(copied.word_count, original.word_count);
    assert_eq!(copied.map.len(), original.map.len());
    for (a, b) in copied.map.iter().zip(original.map.iter()) {
        assert_eq!(a.0, b.0);
        assert_eq!(a.1, b.1);
    }
}

#[test]
fn copy_index_preserves_decoded_form() {
    let h1 = hash_of(10);
    let h2 = hash_of(11);
    let mut index = InMemoryIndex::from_single_document(&h1, "one two three".to_string());
    index.merge(InMemoryIndex::from_single_document(&h2, "two four".to_string()));
    let bytes = write_index_bytes(index).expect("serializes");
    let original = IndexFileReader::get_index_from_bytes(&bytes).expect("decodes");
    let reader = IndexFileReader::from_bytes(bytes).expect("opens");
    let copy = reader.copy_index().expect("copies");
    let copied = IndexFileReader::get_index_from_bytes(&copy).expect("decodes");
    assert_eq!(copied.word_count, original.word_count);
    for (a, b) in copied.map.iter().zip(original.map.iter()) {
        assert_eq!(a.0, b.0);
        assert_eq!(a.1, b.1);
    }
}

#[test]
fn doc_wraps_its_hash() {
    let h = hash_of(8);
    let d = Doc::new(&h);
    assert_eq!(d.hash, h);
}
