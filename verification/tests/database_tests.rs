use ngram_index::database::Storage;
use ngram_index::error::IndexError;

#[test]
fn identifiers_are_stable() {
    let mut db = Storage::new();
    let first = db.get_token_id("ab").unwrap();
    let second = db.get_token_id("ab").unwrap();
    let third = db.create_token_id("ab").unwrap();
    assert_eq!(first, second);
    assert_eq!(first, third);
    assert_eq!(db.get_document_id("title"), db.get_document_id("title"));
    assert_eq!(Storage::new().get_document_id("title"), db.get_document_id("title"));
}

#[test]
fn identifiers_depend_on_the_string() {
    let mut db = Storage::new();
    assert_ne!(db.get_document_id("title1"), db.get_document_id("title2"));
    let ab = db.get_token_id("ab").unwrap();
    let ba = db.get_token_id("ba").unwrap();
    assert_ne!(ab, ba);
    assert_eq!(db.get_document_id("ab"), ab);
}

#[test]
fn a_document_can_be_added_again_under_its_title() {
    let mut db = Storage::new();
    assert_eq!(db.add_document("title1", 6, "Apple pencil", 12), Ok(()));
    assert_eq!(db.add_document("title1", 6, "Apple pencil", 12), Ok(()));
    assert_eq!(db.add_document("title2", 6, "", 0), Ok(()));
}

#[test]
fn a_second_token_under_one_identifier_is_refused() {
    let mut db = Storage::new();
    assert_eq!(db.register_token(5, "ab"), Ok(5));
    assert_eq!(db.register_token(5, "ab"), Ok(5));
    assert_eq!(db.register_token(5, "cd"), Err(IndexError::IdentityCollision));
    assert_eq!(db.register_token(5, "ab"), Ok(5));
    assert_eq!(db.register_token(6, "cd"), Ok(6));
}

#[test]
fn a_second_title_under_one_identifier_is_refused() {
    let mut db = Storage::new();
    assert_eq!(db.register_document(1, "first"), Ok(()));
    assert_eq!(db.register_document(1, "second"), Err(IndexError::IdentityCollision));
    assert_eq!(db.register_document(1, "first"), Ok(()));
    assert_eq!(db.register_document(2, "second"), Ok(()));
}

#[test]
fn titles_and_tokens_are_recorded_apart() {
    let mut db = Storage::new();
    assert_eq!(db.register_document(1, "first"), Ok(()));
    assert_eq!(db.register_token(1, "fi"), Ok(1));
    let id = db.get_document_id("same");
    assert_eq!(db.add_document("same", 4, "", 0), Ok(()));
    assert_eq!(db.get_token_id("same"), Ok(id));
}
