//! An in-memory inverted index keyed by fixed-width character n-grams.
//!
//! A document is cut into overlapping n-grams, every n-gram is given a token
//! identifier, the occurrences are gathered into a single-document index, and
//! that index is folded into the global one by an ordered merge of postings
//! chains.

use crate::database::{collides, collides_at, collision_free, id_of, register_all, Storage};
use crate::error::IndexError;
use crate::ngram::{window_count, windows};
use crate::postings::{index_merge_fault, merge_index};
use crate::token::{
    entries, has_room, index_well_formed, local_index, text_to_postings_lists, token_ids,
    InvertedIndexHash,
};
use vstd::prelude::*;

pub mod database;
pub mod error;
pub mod laws;
pub mod ngram;
pub mod postings;
pub mod token;

verus! {

/// The width of the n-grams that documents are indexed by.
pub const N_GRAM: usize = 2;

/// The number of tokens above which the index is due to be written out.
pub const INVERTED_INDEX_UPDATE_THRESHOLD: usize = 1;

/// Adds a document to the registry and to the index.
///
/// The title is put on record, the body is indexed under the title's
/// identifier by n-grams of [`N_GRAM`] characters, and the result says whether
/// the index now holds more tokens than [`INVERTED_INDEX_UPDATE_THRESHOLD`].
/// A title whose identifier stands for another title is refused before
/// anything is changed; whatever is refused later leaves the index as it was.
pub fn add_document(
    title: &str,
    body: &str,
    db: &mut Storage,
    inverted_index_hash: &mut InvertedIndexHash,
) -> (outcome: Result<bool, IndexError>)
    requires
        has_room(entries(old(inverted_index_hash)@), window_count(body@.len(), N_GRAM as nat)),
    ensures
        collides(old(db).documents(), title@) ==> {
            &&& outcome == Err::<bool, IndexError>(IndexError::IdentityCollision)
            &&& final(db).documents() == old(db).documents()
            &&& final(db).tokens() == old(db).tokens()
            &&& final(inverted_index_hash)@ == old(inverted_index_hash)@
        },
        !collides(old(db).documents(), title@) ==> ({
            let grams = windows(body@, N_GRAM as nat);
            let local = local_index(id_of(title@), token_ids(grams));
            let held = entries(old(inverted_index_hash)@);
            &&& final(db).documents() == old(db).documents().insert(id_of(title@), title@)
            &&& if collision_free(old(db).tokens(), grams, grams.len() as int) {
                &&& final(db).tokens() == register_all(old(db).tokens(), grams)
                &&& match index_merge_fault(held, local) {
                    Some(fault) => {
                        &&& outcome == Err::<bool, IndexError>(fault)
                        &&& final(inverted_index_hash)@ == old(inverted_index_hash)@
                    },
                    None => {
                        &&& outcome == Ok::<bool, IndexError>(
                            final(inverted_index_hash)@.len() > INVERTED_INDEX_UPDATE_THRESHOLD,
                        )
                        &&& entries(final(inverted_index_hash)@) == merge_index(held, local)
                        &&& index_well_formed(held) ==> index_well_formed(
                            entries(final(inverted_index_hash)@),
                        )
                    },
                }
            } else {
                &&& outcome == Err::<bool, IndexError>(IndexError::IdentityCollision)
                &&& final(inverted_index_hash)@ == old(inverted_index_hash)@
                &&& exists|k: int|
                    {
                        &&& 0 <= k < grams.len()
                        &&& collision_free(old(db).tokens(), grams, k)
                        &&& #[trigger] collides_at(old(db).tokens(), grams, k)
                        &&& final(db).tokens() == register_all(old(db).tokens(), grams.take(k))
                    }
            }
        }),
{
    let title_size: usize = title.len();
    let body_size: usize = body.len();
    match db.add_document(title, title_size, body, body_size) {
        Err(fault) => {
            return Err(fault);
        },
        Ok(()) => {},
    }
    let document_id: usize = db.get_document_id(title);
    match text_to_postings_lists(document_id, body, body_size, N_GRAM, db, inverted_index_hash) {
        Err(fault) => {
            return Err(fault);
        },
        Ok(()) => {},
    }
    Ok(inverted_index_hash.len() > INVERTED_INDEX_UPDATE_THRESHOLD)
}

} // verus!
