//! The identity registry: identifiers for document titles and for tokens.
//!
//! An identifier is the hash of the string's bytes. Two strings may hash
//! alike; the registry remembers the string behind every identifier it has
//! handed out and refuses a second string under the same identifier.

use crate::error::IndexError;
use std::collections::hash_map::DefaultHasher;
use std::collections::HashMap;
use std::hash::Hasher;
use vstd::prelude::*;
use vstd::std_specs::hash::DefaultHasherAdditionalSpecFns;
use vstd::utf8::encode_utf8;

verus! {

/// The identifier of a string: the digest of its bytes, cut to a machine word.
pub open spec fn id_of(text: Seq<char>) -> usize {
    DefaultHasher::spec_finish(seq![encode_utf8(text)]) as usize
}

/// Whether `names` holds `id` for a string other than `text`.
pub open spec fn taken(names: Map<usize, Seq<char>>, id: usize, text: Seq<char>) -> bool {
    names.contains_key(id) && names[id] != text
}

/// Whether `names` already holds the identifier of `text` for another string.
pub open spec fn collides(names: Map<usize, Seq<char>>, text: Seq<char>) -> bool {
    taken(names, id_of(text), text)
}

/// The record `names` after the strings of `texts` have been entered, one
/// after the other.
pub open spec fn register_all(names: Map<usize, Seq<char>>, texts: Seq<Seq<char>>) -> Map<
    usize,
    Seq<char>,
>
    decreases texts.len(),
{
    if texts.len() == 0 {
        names
    } else {
        register_all(names, texts.drop_last()).insert(id_of(texts.last()), texts.last())
    }
}

/// Whether the string at place `k` of `texts` collides with the record as it
/// stands once the strings before it have been entered.
pub open spec fn collides_at(names: Map<usize, Seq<char>>, texts: Seq<Seq<char>>, k: int) -> bool {
    collides(register_all(names, texts.take(k)), texts[k])
}

/// Whether none of the first `upto` strings of `texts` collides when they are
/// entered in order.
pub open spec fn collision_free(
    names: Map<usize, Seq<char>>,
    texts: Seq<Seq<char>>,
    upto: int,
) -> bool {
    forall|k: int| 0 <= k < upto ==> !collides_at(names, texts, k)
}

/// A string that is on record under its identifier can be entered again: it
/// does not collide, and the record stays as it is.
pub proof fn lemma_entered_again(names: Map<usize, Seq<char>>, text: Seq<char>)
    ensures
        !collides(names.insert(id_of(text), text), text),
        names.insert(id_of(text), text).insert(id_of(text), text) == names.insert(
            id_of(text),
            text,
        ),
{
    assert(names.insert(id_of(text), text).insert(id_of(text), text) =~= names.insert(
        id_of(text),
        text,
    ));
}

/// The strings behind the identifiers handed out so far.
#[derive(Debug)]
pub struct Storage {
    documents: HashMap<usize, String>,
    tokens: HashMap<usize, String>,
}

impl Storage {
    /// The document titles on record, by identifier.
    pub closed spec fn documents(&self) -> Map<usize, Seq<char>> {
        Map::new(|id: usize| self.documents@.contains_key(id), |id: usize| self.documents@[id]@)
    }

    /// The tokens on record, by identifier.
    pub closed spec fn tokens(&self) -> Map<usize, Seq<char>> {
        Map::new(|id: usize| self.tokens@.contains_key(id), |id: usize| self.tokens@[id]@)
    }

    /// A registry with nothing on record.
    pub fn new() -> (db: Self)
        ensures
            db.documents() == Map::<usize, Seq<char>>::empty(),
            db.tokens() == Map::<usize, Seq<char>>::empty(),
    {
        let db = Self { documents: HashMap::new(), tokens: HashMap::new() };
        assert(db.documents() =~= Map::<usize, Seq<char>>::empty());
        assert(db.tokens() =~= Map::<usize, Seq<char>>::empty());
        db
    }

    /// The digest of the string's bytes, cut to a machine word.
    fn unique_id(&self, title: &str) -> (id: usize)
        ensures
            id == id_of(title@),
    {
        let mut hasher = DefaultHasher::new();
        hasher.write(title.as_bytes());
        assert(hasher@ =~= seq![encode_utf8(title@)]);
        #[verifier::truncate]
        (hasher.finish() as usize)
    }

    /// Puts `title` on record under `document_id`. Refused, with nothing
    /// changed, when the identifier stands for another title.
    pub fn register_document(&mut self, document_id: usize, title: &str) -> (outcome: Result<
        (),
        IndexError,
    >)
        ensures
            outcome is Ok <==> !taken(old(self).documents(), document_id, title@),
            outcome is Ok ==> final(self).documents() == old(self).documents().insert(
                document_id,
                title@,
            ),
            outcome matches Err(fault) ==> {
                &&& fault == IndexError::IdentityCollision
                &&& final(self).documents() == old(self).documents()
            },
            final(self).tokens() == old(self).tokens(),
    {
        let name = title.to_string();
        let free: bool = match self.documents.get(&document_id) {
            Some(known) => *known == name,
            None => true,
        };
        if !free {
            return Err(IndexError::IdentityCollision);
        }
        self.documents.insert(document_id, name);
        assert(self.documents() =~= old(self).documents().insert(document_id, title@));
        Ok(())
    }

    /// Puts `token` on record under `token_id` and returns the identifier.
    /// Refused, with nothing changed, when the identifier stands for another
    /// token.
    pub fn register_token(&mut self, token_id: usize, token: &str) -> (outcome: Result<
        usize,
        IndexError,
    >)
        ensures
            outcome is Ok <==> !taken(old(self).tokens(), token_id, token@),
            outcome matches Ok(id) ==> {
                &&& id == token_id
                &&& final(self).tokens() == old(self).tokens().insert(token_id, token@)
            },
            outcome matches Err(fault) ==> {
                &&& fault == IndexError::IdentityCollision
                &&& final(self).tokens() == old(self).tokens()
            },
            final(self).documents() == old(self).documents(),
    {
        let name = token.to_string();
        let free: bool = match self.tokens.get(&token_id) {
            Some(known) => *known == name,
            None => true,
        };
        if !free {
            return Err(IndexError::IdentityCollision);
        }
        self.tokens.insert(token_id, name);
        assert(self.tokens() =~= old(self).tokens().insert(token_id, token@));
        Ok(token_id)
    }

    /// Puts the document's title on record under its identifier. Refused,
    /// with nothing changed, when the identifier stands for another title.
    pub fn add_document(
        &mut self,
        title: &str,
        title_size: usize,
        body: &str,
        body_size: usize,
    ) -> (outcome: Result<(), IndexError>)
        ensures
            outcome is Ok <==> !collides(old(self).documents(), title@),
            outcome is Ok ==> final(self).documents() == old(self).documents().insert(
                id_of(title@),
                title@,
            ),
            outcome matches Err(fault) ==> {
                &&& fault == IndexError::IdentityCollision
                &&& final(self).documents() == old(self).documents()
            },
            final(self).tokens() == old(self).tokens(),
    {
        let document_id: usize = self.get_document_id(title);
        self.register_document(document_id, title)
    }

    /// The identifier of a document title. Nothing is put on record.
    pub fn get_document_id(&self, title: &str) -> (id: usize)
        ensures
            id == id_of(title@),
    {
        self.unique_id(title)
    }

    /// The identifier of a token, which is put on record.
    pub fn get_token_id(&mut self, token: &str) -> (outcome: Result<usize, IndexError>)
        ensures
            outcome is Ok <==> !collides(old(self).tokens(), token@),
            outcome matches Ok(id) ==> {
                &&& id == id_of(token@)
                &&& final(self).tokens() == old(self).tokens().insert(id, token@)
            },
            outcome matches Err(fault) ==> {
                &&& fault == IndexError::IdentityCollision
                &&& final(self).tokens() == old(self).tokens()
            },
            final(self).documents() == old(self).documents(),
    {
        self.create_token_id(token)
    }

    /// Puts the token on record under its identifier and returns the
    /// identifier. Refused, with nothing changed, when the identifier stands
    /// for another token.
    pub fn create_token_id(&mut self, token: &str) -> (outcome: Result<usize, IndexError>)
        ensures
            outcome is Ok <==> !collides(old(self).tokens(), token@),
            outcome matches Ok(id) ==> {
                &&& id == id_of(token@)
                &&& final(self).tokens() == old(self).tokens().insert(id, token@)
            },
            outcome matches Err(fault) ==> {
                &&& fault == IndexError::IdentityCollision
                &&& final(self).tokens() == old(self).tokens()
            },
            final(self).documents() == old(self).documents(),
    {
        let token_id: usize = self.unique_id(token);
        self.register_token(token_id, token)
    }
}

} // verus!
