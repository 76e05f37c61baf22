use ngram_index::add_document;
use ngram_index::database::Storage;
use ngram_index::error::IndexError;
use ngram_index::token::InvertedIndexHash;
use ngram_index::{INVERTED_INDEX_UPDATE_THRESHOLD, N_GRAM};

#[test]
fn constants() {
    assert_eq!(N_GRAM, 2);
    assert_eq!(INVERTED_INDEX_UPDATE_THRESHOLD, 1);
}

#[test]
fn documents_are_added_to_the_index() {
    let mut db = Storage::new();
    let mut index = InvertedIndexHash::new();
    assert_eq!(add_document("title1", "Apple pencil", &mut db, &mut index), Ok(true));
    assert_eq!(index.len(), 11);
    assert_eq!(add_document("title2", "Apple pencil next", &mut db, &mut index), Ok(true));
    assert_eq!(index.len(), 16);
    let first = db.get_document_id("title1");
    let second = db.get_document_id("title2");
    let ap = db.get_token_id("Ap").unwrap();
    let entry = &index[&ap];
    assert_eq!(entry.docs_count, 2);
    assert_eq!(entry.positions_count, 2);
    let (low, high) = if first < second { (first, second) } else { (second, first) };
    assert_eq!(entry.postings_list.document_id, low);
    assert_eq!(entry.postings_list.positions, vec![0]);
    let following = entry.postings_list.next.as_ref().unwrap();
    assert_eq!(following.document_id, high);
    assert_eq!(following.positions, vec![0]);
    assert!(following.next.is_none());
    let ex = db.get_token_id("ex").unwrap();
    assert_eq!(index[&ex].docs_count, 1);
    assert_eq!(index[&ex].postings_list.document_id, second);
    assert_eq!(index[&ex].postings_list.positions, vec![14]);
}

#[test]
fn a_small_index_is_below_the_threshold() {
    let mut db = Storage::new();
    let mut index = InvertedIndexHash::new();
    assert_eq!(add_document("empty", "", &mut db, &mut index), Ok(false));
    assert_eq!(add_document("one", "ab", &mut db, &mut index), Ok(false));
    assert_eq!(index.len(), 1);
    assert_eq!(add_document("two", "cd", &mut db, &mut index), Ok(true));
}

#[test]
fn a_document_added_twice_is_refused() {
    let mut db = Storage::new();
    let mut index = InvertedIndexHash::new();
    assert_eq!(add_document("title1", "Apple pencil", &mut db, &mut index), Ok(true));
    assert_eq!(
        add_document("title1", "Apple pencil", &mut db, &mut index),
        Err(IndexError::DuplicateDocumentInChain)
    );
    assert_eq!(index.len(), 11);
    let ap = db.get_token_id("Ap").unwrap();
    assert_eq!(index[&ap].docs_count, 1);
    assert!(index[&ap].postings_list.next.is_none());
}
