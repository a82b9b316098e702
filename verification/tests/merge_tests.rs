use fingertips::index::{InMemoryIndex, ParsedIndex};
use fingertips::merge::{merge_all, merge_streams};
use fingertips::read::IndexFileReader;
use fingertips::write::write_index_bytes;

fn hash_of(byte: u8) -> Vec<u8> {
    vec![byte; 32]
}

fn image_of(hash_byte: u8, text: &str) -> Vec<u8> {
    let h = hash_of(hash_byte);
    let index = InMemoryIndex::from_single_document(&h, text.to_string());
    write_index_bytes(index).expect("serializes")
}

fn offsets_of<'m>(index: &'m ParsedIndex, term: &str, hash: &[u8]) -> Option<&'m Vec<u32>> {
    let entry = index.map.iter().find(|p| p.0 == term)?;
    entry.1.iter().find(|d| d.0.hash == hash).map(|d| &d.1)
}

fn readers_for(images: Vec<Vec<u8>>) -> Vec<IndexFileReader> {
    images
        .into_iter()
        .map(|b| IndexFileReader::from_bytes(b).expect("opens"))
        .collect()
}

#[test]
fn merge_combines_documents_of_one_term() {
    let a = image_of(1, "x");
    let b = image_of(2, "x x");
    let merged = merge_streams(readers_for(vec![a, b])).expect("merges");
    let parsed = IndexFileReader::get_index_from_bytes(&merged).expect("decodes");
    assert_eq!(parsed.map.len(), 1);
    // one aggregated record for the term, holding both documents
    assert_eq!(parsed.word_count, 1);
    assert_eq!(offsets_of(&parsed, "x", &hash_of(1)).unwrap(), &vec![0]);
    assert_eq!(offsets_of(&parsed, "x", &hash_of(2)).unwrap(), &vec![0, 1]);
}

#[test]
fn merged_output_is_term_sorted() {
    let a = image_of(1, "pear fig");
    let b = image_of(2, "apple zucchini fig");
    let c = image_of(3, "mango");
    let merged = merge_streams(readers_for(vec![a, b, c])).expect("merges");
    let parsed = IndexFileReader::get_index_from_bytes(&merged).expect("decodes");
    let terms: Vec<&str> = parsed.map.iter().map(|p| p.0.as_str()).collect();
    assert_eq!(terms, vec!["apple", "fig", "mango", "pear", "zucchini"]);
}

#[test]
fn merge_of_no_readers_gives_empty_index() {
    let merged = merge_streams(Vec::new()).expect("merges");
    let parsed = IndexFileReader::get_index_from_bytes(&merged).expect("decodes");
    assert_eq!(parsed.word_count, 0);
    assert!(parsed.map.is_empty());
}

#[test]
fn multi_pass_fan_in_covers_all_inputs() {
    // five inputs merged two at a time still reduce to one image holding
    // the full union
    let images = vec![
        image_of(1, "alpha beta"),
        image_of(2, "beta gamma"),
        image_of(3, "delta"),
        image_of(4, "alpha epsilon"),
        image_of(5, "zeta"),
    ];
    let merged = merge_all(images, 2).expect("merges");
    let parsed = IndexFileReader::get_index_from_bytes(&merged).expect("decodes");
    let terms: Vec<&str> = parsed.map.iter().map(|p| p.0.as_str()).collect();
    assert_eq!(terms, vec!["alpha", "beta", "delta", "epsilon", "gamma", "zeta"]);
    assert_eq!(offsets_of(&parsed, "alpha", &hash_of(1)).unwrap(), &vec![0]);
    assert_eq!(offsets_of(&parsed, "alpha", &hash_of(4)).unwrap(), &vec![0]);
    assert_eq!(offsets_of(&parsed, "beta", &hash_of(1)).unwrap(), &vec![1]);
    assert_eq!(offsets_of(&parsed, "beta", &hash_of(2)).unwrap(), &vec![0]);
    assert_eq!(offsets_of(&parsed, "zeta", &hash_of(5)).unwrap(), &vec![0]);
}

#[test]
fn merge_all_handles_more_files_than_one_group() {
    let mut images = Vec::new();
    for i in 0..9u8 {
        images.push(image_of(i + 1, &format!("common word{}", i)));
    }
    let merged = merge_all(images, 3).expect("merges");
    let parsed = IndexFileReader::get_index_from_bytes(&merged).expect("decodes");
    // the shared term aggregates every document
    let common = parsed.map.iter().find(|p| p.0 == "common").expect("common");
    assert_eq!(common.1.len(), 9);
    assert_eq!(parsed.map.len(), 10);
}

#[test]
fn merge_error_message_text() {
    assert_eq!(
        fingertips::IndexError::UnexpectedEof.message(),
        "unexpected end of index data"
    );
}
