//! Postings chains, index entries, and the builder of a single document's index.

use crate::database::{collides_at, collision_free, id_of, register_all, Storage};
use crate::error::IndexError;
use crate::laws::{lemma_local_index_well_formed, lemma_record_keeps_well_formed};
use crate::ngram::{token_text, window_count, windows, Ngram, TokinizedChars};
use crate::postings::{index_merge_fault, keys_of, merge_index, merge_inverted_index_hash};
use std::collections::HashMap;
use vstd::prelude::*;

verus! {

/// One node of a postings chain: the occurrences of a token in one document.
///
/// `positions` holds the zero-based ordinals of the n-grams of that document
/// that are this token, in the order in which they were met. A chain is named
/// by its first node, so there is no empty chain.
#[derive(Debug)]
pub struct PostingsList {
    pub document_id: usize,
    pub positions: Vec<usize>,
    pub positions_count: usize,
    pub next: Option<Box<PostingsList>>,
}

/// A token of the index: its postings chain and the two totals kept beside it.
#[derive(Debug)]
pub struct InvertedIndex {
    pub token_id: usize,
    pub postings_list: PostingsList,
    /// Number of documents that hold the token.
    pub docs_count: usize,
    /// Number of occurrences of the token over all documents.
    pub positions_count: usize,
}

/// An inverted index: from token identifier to the token's entry.
pub type InvertedIndexHash = HashMap<usize, InvertedIndex>;

/// The mathematical content of one chain node.
pub ghost struct Posting {
    pub document_id: usize,
    pub positions: Seq<usize>,
    pub positions_count: nat,
}

/// The mathematical content of one index entry.
pub ghost struct IndexEntry {
    pub token_id: usize,
    pub postings: Seq<Posting>,
    pub docs_count: nat,
    pub positions_count: nat,
}

/// The nodes of an optional chain, in chain order; empty for `None`.
pub open spec fn chain_of(link: Option<Box<PostingsList>>) -> Seq<Posting>
    decreases link,
{
    match link {
        None => Seq::empty(),
        Some(node) => node.chain(),
    }
}

/// The nodes from an optional borrowed node on; empty for `None`.
pub open spec fn chain_from(node: Option<&PostingsList>) -> Seq<Posting> {
    match node {
        None => Seq::empty(),
        Some(list) => list.chain(),
    }
}

impl PostingsList {
    /// The content of this node alone.
    pub open spec fn head(self) -> Posting {
        Posting {
            document_id: self.document_id,
            positions: self.positions@,
            positions_count: self.positions_count as nat,
        }
    }

    /// The nodes of the chain that starts here, in chain order.
    pub open spec fn chain(self) -> Seq<Posting>
        decreases self,
    {
        seq![self.head()] + chain_of(self.next)
    }
}

impl View for PostingsList {
    type V = Seq<Posting>;

    open spec fn view(&self) -> Seq<Posting> {
        self.chain()
    }
}

impl View for InvertedIndex {
    type V = IndexEntry;

    open spec fn view(&self) -> IndexEntry {
        IndexEntry {
            token_id: self.token_id,
            postings: self.postings_list@,
            docs_count: self.docs_count as nat,
            positions_count: self.positions_count as nat,
        }
    }
}

/// The content of an index: each stored entry replaced by its view.
pub open spec fn entries(index: Map<usize, InvertedIndex>) -> Map<usize, IndexEntry> {
    Map::new(|t: usize| index.contains_key(t), |t: usize| index[t]@)
}

impl Posting {
    /// The node that a first occurrence at `position` creates.
    pub open spec fn first(document_id: usize, position: usize) -> Posting {
        Posting { document_id, positions: seq![position], positions_count: 1 }
    }

    /// This node after one more occurrence at `position`.
    pub open spec fn with_position(self, position: usize) -> Posting {
        Posting {
            document_id: self.document_id,
            positions: self.positions.push(position),
            positions_count: self.positions_count + 1,
        }
    }
}

impl IndexEntry {
    /// The entry that a token's first occurrence in a document creates.
    pub open spec fn first(document_id: usize, token_id: usize, position: usize) -> IndexEntry {
        IndexEntry {
            token_id,
            postings: seq![Posting::first(document_id, position)],
            docs_count: 1,
            positions_count: 1,
        }
    }

    /// This entry after one more occurrence at `position`, recorded in the
    /// first node of its chain.
    pub open spec fn with_position(self, position: usize) -> IndexEntry {
        IndexEntry {
            token_id: self.token_id,
            postings: self.postings.update(0, self.postings[0].with_position(position)),
            docs_count: self.docs_count,
            positions_count: self.positions_count + 1,
        }
    }
}

/// The index `index` after one occurrence of `token_id` at `position` in
/// document `document_id` has been recorded.
pub open spec fn record_occurrence(
    index: Map<usize, IndexEntry>,
    document_id: usize,
    token_id: usize,
    position: usize,
) -> Map<usize, IndexEntry> {
    if index.contains_key(token_id) {
        index.insert(token_id, index[token_id].with_position(position))
    } else {
        index.insert(token_id, IndexEntry::first(document_id, token_id, position))
    }
}

/// Whether the totals that one more occurrence of `token_id` raises still fit.
pub open spec fn can_record(index: Map<usize, IndexEntry>, token_id: usize) -> bool {
    index.contains_key(token_id) ==> {
        &&& index[token_id].positions_count < usize::MAX
        &&& index[token_id].postings[0].positions_count < usize::MAX
    }
}

/// The sum of the position counts of the nodes of a chain.
pub open spec fn total_positions(chain: Seq<Posting>) -> nat
    decreases chain.len(),
{
    if chain.len() == 0 {
        0
    } else {
        chain[0].positions_count + total_positions(chain.drop_first())
    }
}

impl IndexEntry {
    /// The entry's chain has a node, is strictly ascending by document, every
    /// node counts its own positions, and the two totals are the number of
    /// nodes and the sum of their counts.
    pub open spec fn well_formed(self) -> bool {
        &&& self.postings.len() > 0
        &&& forall|i: int, j: int|
            0 <= i < j < self.postings.len() ==> self.postings[i].document_id
                < self.postings[j].document_id
        &&& forall|i: int|
            0 <= i < self.postings.len() ==> (#[trigger] self.postings[i]).positions_count
                == self.postings[i].positions.len()
        &&& self.docs_count == self.postings.len()
        &&& self.positions_count == total_positions(self.postings)
    }
}

/// Every entry of the index is well formed and stands under its own token.
pub open spec fn index_well_formed(index: Map<usize, IndexEntry>) -> bool {
    forall|t: usize| #[trigger]
        index.contains_key(t) ==> index[t].token_id == t && index[t].well_formed()
}

impl Clone for PostingsList {
    /// A copy of the whole chain: the same nodes in the same order.
    fn clone(&self) -> (copy: Self)
        ensures
            copy@ == self@,
    {
        let mut first: Option<Box<PostingsList>> = None;
        let mut tail = &mut first;
        let mut current: Option<&PostingsList> = Some(self);
        let ghost mut done: Seq<Posting> = Seq::empty();
        loop
            invariant
                *tail == None::<Box<PostingsList>>,
                chain_of(after_borrow(first)) == done + chain_of(*final(tail)),
                done + chain_from(current) == self@,
                done.len() > 0 || current is Some,
            ensures
                current is None,
            decreases chain_from(current).len(),
        {
            let node: &PostingsList = match current {
                Some(node) => node,
                None => {
                    break ;
                },
            };
            proof {
                lemma_chain_starts_with_head(*node);
            }
            let positions = node.positions.clone();
            assert(positions@ =~= node.positions@);
            let copied = Box::new(
                PostingsList {
                    document_id: node.document_id,
                    positions,
                    positions_count: node.positions_count,
                    next: None,
                },
            );
            proof {
                assert(copied@ =~= seq![node.head()]);
                assert(done.push(node.head()) + chain_of(node.next) =~= self@);
                done = done.push(node.head());
            }
            current = match &node.next {
                Some(following) => Some(&**following),
                None => None,
            };
            *tail = Some(copied);
            match tail {
                Some(placed) => {
                    tail = &mut placed.next;
                },
                None => {},
            }
        }
        assert(chain_of(first) =~= self@);
        *first.unwrap()
    }
}

/// A chain has at least one node, and its first node is the node it starts at.
pub proof fn lemma_chain_starts_with_head(list: PostingsList)
    ensures
        list@.len() >= 1,
        list@[0] == list.head(),
        list@.drop_first() == chain_of(list.next),
{
    assert(list@.drop_first() =~= chain_of(list.next));
}

impl InvertedIndex {
    /// An entry for `token_id` over `postings_list`, with both totals at one.
    pub fn new(token_id: usize, postings_list: PostingsList) -> (entry: Self)
        ensures
            entry.token_id == token_id,
            entry.postings_list == postings_list,
            entry.docs_count == 1,
            entry.positions_count == 1,
    {
        Self { token_id, postings_list, docs_count: 1, positions_count: 1 }
    }
}

/// Records one occurrence of `token_id` at `position` in `inverted_index_hash`.
///
/// A token met for the first time gets an entry of one node for
/// `document_id`; a token already present gets the position appended to the
/// first node of its chain, and both that node's count and the entry's total
/// go up by one.
pub fn token_to_postings_list(
    document_id: usize,
    token_id: usize,
    position: usize,
    inverted_index_hash: &mut InvertedIndexHash,
)
    requires
        can_record(entries(old(inverted_index_hash)@), token_id),
    ensures
        entries(final(inverted_index_hash)@) == record_occurrence(
            entries(old(inverted_index_hash)@),
            document_id,
            token_id,
            position,
        ),
        index_well_formed(entries(old(inverted_index_hash)@)) ==> index_well_formed(
            entries(final(inverted_index_hash)@),
        ),
{
    let ghost before = entries(inverted_index_hash@);
    proof {
        if index_well_formed(before) {
            lemma_record_keeps_well_formed(before, document_id, token_id, position);
        }
    }
    match inverted_index_hash.remove(&token_id) {
        Some(mut postings) => {
            proof {
                lemma_chain_starts_with_head(postings.postings_list);
            }
            let ghost found = postings@;
            postings.positions_count += 1;
            postings.postings_list.positions.push(position);
            postings.postings_list.positions_count += 1;
            proof {
                lemma_chain_starts_with_head(postings.postings_list);
                assert(postings@.postings =~= found.with_position(position).postings);
            }
            inverted_index_hash.insert(token_id, postings);
        },
        None => {
            let mut positions: Vec<usize> = Vec::new();
            positions.push(position);
            let inverted_index = InvertedIndex::new(
                token_id,
                PostingsList { document_id, positions, positions_count: 1, next: None },
            );
            proof {
                assert(inverted_index@.postings =~= IndexEntry::first(
                    document_id,
                    token_id,
                    position,
                ).postings);
                assert(inverted_index@.postings[0].positions =~= seq![position]);
            }
            inverted_index_hash.insert(token_id, inverted_index);
        },
    }
    assert(entries(inverted_index_hash@) =~= record_occurrence(
        before,
        document_id,
        token_id,
        position,
    ));
}

/// The places of `ids` that hold `token_id`, in ascending order.
pub open spec fn occurrences(ids: Seq<usize>, token_id: usize) -> Seq<usize>
    decreases ids.len(),
{
    if ids.len() == 0 {
        Seq::empty()
    } else if ids.last() == token_id {
        occurrences(ids.drop_last(), token_id).push((ids.len() - 1) as usize)
    } else {
        occurrences(ids.drop_last(), token_id)
    }
}

/// The index of a single document whose n-grams have the identifiers `ids`,
/// in order: every token that occurs has one node, for this document, with
/// the places at which it occurs.
pub open spec fn local_index(document_id: usize, ids: Seq<usize>) -> Map<usize, IndexEntry> {
    Map::new(
        |t: usize| ids.contains(t),
        |t: usize|
            IndexEntry {
                token_id: t,
                postings: seq![
                    Posting {
                        document_id,
                        positions: occurrences(ids, t),
                        positions_count: occurrences(ids, t).len(),
                    },
                ],
                docs_count: 1,
                positions_count: occurrences(ids, t).len(),
            },
    )
}

/// The identifiers of the n-grams `grams`, in order.
pub open spec fn token_ids(grams: Seq<Seq<char>>) -> Seq<usize> {
    Seq::new(grams.len(), |i: int| id_of(grams[i]))
}

/// A token occurs at most once per place, and at no place when it is absent.
pub proof fn lemma_occurrences_bounded(ids: Seq<usize>, token_id: usize)
    ensures
        occurrences(ids, token_id).len() <= ids.len(),
        !ids.contains(token_id) ==> occurrences(ids, token_id).len() == 0,
        ids.contains(token_id) ==> occurrences(ids, token_id).len() > 0,
    decreases ids.len(),
{
    if ids.len() > 0 {
        let front = ids.drop_last();
        lemma_occurrences_bounded(front, token_id);
        if ids.last() != token_id {
            if ids.contains(token_id) {
                let at = choose|i: int| 0 <= i < ids.len() && ids[i] == token_id;
                assert(front[at] == token_id);
            }
        } else {
            assert(ids[ids.len() - 1] == token_id);
        }
        if front.contains(token_id) {
            let at = choose|i: int| 0 <= i < front.len() && front[i] == token_id;
            assert(ids[at] == token_id);
        }
    }
}

/// Recording the next n-gram of a document gives the index of the document
/// with that n-gram added at the end.
pub proof fn lemma_record_extends_local_index(document_id: usize, ids: Seq<usize>, token_id: usize)
    requires
        ids.len() < usize::MAX,
    ensures
        record_occurrence(local_index(document_id, ids), document_id, token_id, ids.len() as usize)
            == local_index(document_id, ids.push(token_id)),
{
    let longer = ids.push(token_id);
    let before = local_index(document_id, ids);
    let after = local_index(document_id, longer);
    let recorded = record_occurrence(before, document_id, token_id, ids.len() as usize);
    assert(longer.drop_last() =~= ids);
    lemma_occurrences_bounded(ids, token_id);
    assert forall|t: usize| recorded.contains_key(t) == after.contains_key(t) by {
        if ids.contains(t) {
            let at = choose|i: int| 0 <= i < ids.len() && ids[i] == t;
            assert(longer[at] == t);
        }
        if t == token_id {
            assert(longer[ids.len() as int] == t);
        }
        if longer.contains(t) && t != token_id {
            let at = choose|i: int| 0 <= i < longer.len() && longer[i] == t;
            assert(ids[at] == t);
        }
    }
    assert forall|t: usize| recorded.contains_key(t) implies recorded[t] == after[t] by {
        if t == token_id {
            if ids.contains(t) {
                assert(recorded[t].postings =~= after[t].postings);
            } else {
                assert(occurrences(longer, t) =~= seq![ids.len() as usize]);
                assert(recorded[t].postings =~= after[t].postings);
            }
        }
    }
    assert(recorded =~= after);
}

/// Whether every total of `index` can still grow by one document and by
/// `occurrences` occurrences within a machine word. Nothing is asked where no
/// occurrence is to come.
pub open spec fn has_room(index: Map<usize, IndexEntry>, occurrences: nat) -> bool {
    occurrences > 0 ==> forall|t: usize| #[trigger]
        index.contains_key(t) ==> {
            &&& index[t].docs_count + 1 <= usize::MAX
            &&& index[t].positions_count + occurrences <= usize::MAX
        }
}

/// Whether `index` has room for one more document with `occurrences`
/// n-grams.
pub fn index_has_room(index: &InvertedIndexHash, occurrences: usize) -> (ok: bool)
    ensures
        ok == has_room(entries(index@), occurrences as nat),
{
    if occurrences == 0 {
        return true;
    }
    let keys = keys_of(index);
    let mut i: usize = 0;
    while i < keys.len()
        invariant
            0 <= i <= keys.len(),
            occurrences > 0,
            keys@.to_set() == index@.dom(),
            forall|j: int|
                0 <= j < i ==> {
                    &&& entries(index@)[#[trigger] keys@[j]].docs_count + 1 <= usize::MAX
                    &&& entries(index@)[keys@[j]].positions_count + occurrences <= usize::MAX
                },
        decreases keys.len() - i,
    {
        let t: usize = keys[i];
        assert(keys@.to_set().contains(t));
        match index.get(&t) {
            Some(entry) => {
                if entry.docs_count == usize::MAX || entry.positions_count > usize::MAX
                    - occurrences {
                    assert(entries(index@).contains_key(t));
                    return false;
                }
            },
            None => {},
        }
        i += 1;
    }
    proof {
        assert forall|t: usize| #[trigger] entries(index@).contains_key(t) implies entries(
            index@,
        )[t].docs_count + 1 <= usize::MAX && entries(index@)[t].positions_count + occurrences
            <= usize::MAX by {
            assert(keys@.to_set().contains(t));
            let j = choose|j: int| 0 <= j < keys@.len() && keys@[j] == t;
            assert(entries(index@)[keys@[j]].docs_count + 1 <= usize::MAX);
        }
    }
    true
}

/// Builds the index of a single document.
///
/// The text is cut into its windows of `n` characters. Each window gets its
/// identifier from `db`, which puts it on record, and is recorded at its
/// ordinal place. A width of zero is refused before anything is read; an
/// identifier that stands for two different windows is refused at the first
/// window that shows it, with the windows before it left on record.
pub fn build_local_index(
    document_id: usize,
    text: &str,
    n: usize,
    db: &mut Storage,
) -> (outcome: Result<InvertedIndexHash, IndexError>)
    ensures
        final(db).documents() == old(db).documents(),
        outcome is Ok <==> n > 0 && collision_free(
            old(db).tokens(),
            windows(text@, n as nat),
            windows(text@, n as nat).len() as int,
        ),
        n == 0 ==> outcome == Err::<InvertedIndexHash, IndexError>(IndexError::InvalidWindowWidth)
            && final(db).tokens() == old(db).tokens(),
        n > 0 ==> ({
            let grams = windows(text@, n as nat);
            match outcome {
                Ok(local) => {
                    &&& collision_free(old(db).tokens(), grams, grams.len() as int)
                    &&& final(db).tokens() == register_all(old(db).tokens(), grams)
                    &&& entries(local@) == local_index(document_id, token_ids(grams))
                    &&& index_well_formed(entries(local@))
                },
                Err(fault) => {
                    &&& fault == IndexError::IdentityCollision
                    &&& exists|k: int|
                        {
                            &&& 0 <= k < grams.len()
                            &&& collision_free(old(db).tokens(), grams, k)
                            &&& #[trigger] collides_at(old(db).tokens(), grams, k)
                            &&& final(db).tokens() == register_all(old(db).tokens(), grams.take(k))
                        }
                },
            }
        }),
{
    let chars = TokinizedChars::from(text);
    let mut source = match chars.ngrams(n) {
        Err(fault) => {
            return Err(fault);
        },
        Ok(source) => source,
    };
    let ghost grams = windows(text@, n as nat);
    let ghost ids = token_ids(grams);
    let ghost names = db.tokens();
    let mut buffer = InvertedIndexHash::new();
    let mut position: usize = 0;
    proof {
        assert(grams.take(0) =~= Seq::<Seq<char>>::empty());
        assert(ids.take(0) =~= Seq::<usize>::empty());
        assert(entries(buffer@) =~= local_index(document_id, ids.take(0)));
    }
    loop
        invariant
            grams == windows(text@, n as nat),
            ids == token_ids(grams),
            names == old(db).tokens(),
            grams.len() <= usize::MAX,
            position + source@.len() == grams.len(),
            forall|i: int| 0 <= i < source@.len() ==> source@[i] == grams[position + i],
            collision_free(names, grams, position as int),
            db.tokens() == register_all(names, grams.take(position as int)),
            db.documents() == old(db).documents(),
            entries(buffer@) == local_index(document_id, ids.take(position as int)),
        ensures
            position == grams.len(),
            collision_free(names, grams, position as int),
            db.tokens() == register_all(names, grams.take(position as int)),
            db.documents() == old(db).documents(),
            entries(buffer@) == local_index(document_id, ids.take(position as int)),
        decreases source@.len(),
    {
        let ngram = match source.next() {
            Some(ngram) => ngram,
            None => {
                break ;
            },
        };
        let token = token_text(&ngram);
        proof {
            assert(token@ == grams[position as int]);
            assert(grams.take(position + 1).drop_last() =~= grams.take(position as int));
            assert(ids.take(position + 1) =~= ids.take(position as int).push(
                id_of(grams[position as int]),
            ));
            lemma_occurrences_bounded(ids.take(position as int), id_of(token@));
            lemma_record_extends_local_index(
                document_id,
                ids.take(position as int),
                id_of(token@),
            );
        }
        let token_id: usize = match db.get_token_id(token.as_str()) {
            Ok(token_id) => token_id,
            Err(fault) => {
                assert(collides_at(names, grams, position as int));
                return Err(fault);
            },
        };
        token_to_postings_list(document_id, token_id, position, &mut buffer);
        position += 1;
    }
    proof {
        assert(grams.take(grams.len() as int) =~= grams);
        assert(ids.take(ids.len() as int) =~= ids);
        lemma_local_index_well_formed(document_id, ids);
    }
    Ok(buffer)
}

/// Indexes one document and folds its index into `inverted_index_hash`.
///
/// The document's own index is built as [`build_local_index`] says and merged
/// as [`merge_inverted_index_hash`] says. Whatever is refused on the way, the
/// index is left exactly as it was.
pub fn text_to_postings_lists(
    document_id: usize,
    text: &str,
    text_size: usize,
    n: usize,
    db: &mut Storage,
    inverted_index_hash: &mut InvertedIndexHash,
) -> (outcome: Result<(), IndexError>)
    requires
        has_room(entries(old(inverted_index_hash)@), window_count(text@.len(), n as nat)),
    ensures
        final(db).documents() == old(db).documents(),
        n == 0 ==> {
            &&& outcome == Err::<(), IndexError>(IndexError::InvalidWindowWidth)
            &&& final(db).tokens() == old(db).tokens()
            &&& final(inverted_index_hash)@ == old(inverted_index_hash)@
        },
        n > 0 ==> ({
            let grams = windows(text@, n as nat);
            let local = local_index(document_id, token_ids(grams));
            let held = entries(old(inverted_index_hash)@);
            if collision_free(old(db).tokens(), grams, grams.len() as int) {
                &&& final(db).tokens() == register_all(old(db).tokens(), grams)
                &&& match index_merge_fault(held, local) {
                    Some(fault) => {
                        &&& outcome == Err::<(), IndexError>(fault)
                        &&& final(inverted_index_hash)@ == old(inverted_index_hash)@
                    },
                    None => {
                        &&& outcome is Ok
                        &&& entries(final(inverted_index_hash)@) == merge_index(held, local)
                        &&& index_well_formed(held) ==> index_well_formed(
                            entries(final(inverted_index_hash)@),
                        )
                    },
                }
            } else {
                &&& outcome == Err::<(), IndexError>(IndexError::IdentityCollision)
                &&& final(inverted_index_hash)@ == old(inverted_index_hash)@
                &&& exists|k: int|
                    {
                        &&& 0 <= k < grams.len()
                        &&& collision_free(old(db).tokens(), grams, k)
                        &&& #[trigger] collides_at(old(db).tokens(), grams, k)
                        &&& final(db).tokens() == register_all(old(db).tokens(), grams.take(k))
                    }
            }
        }),
{
    let buffer = match build_local_index(document_id, text, n, db) {
        Err(fault) => {
            return Err(fault);
        },
        Ok(buffer) => buffer,
    };
    proof {
        let ghost ids = token_ids(windows(text@, n as nat));
        let ghost held = entries(inverted_index_hash@);
        let ghost local = entries(buffer@);
        assert forall|t: usize| #[trigger]
            held.contains_key(t) && local.contains_key(t) implies held[t].docs_count
            + local[t].docs_count <= usize::MAX && held[t].positions_count
            + local[t].positions_count <= usize::MAX by {
            lemma_occurrences_bounded(ids, t);
        }
    }
    merge_inverted_index_hash(inverted_index_hash, buffer)
}

} // verus!
