//! The merge engine: the ordered merge of two postings chains, and the fold of
//! a single-document index into the global index.

use crate::error::IndexError;
use crate::laws::{
    lemma_merge_index_well_formed, lemma_merge_takes_left, lemma_merge_takes_right,
};
use crate::token::{
    chain_from, chain_of, entries, index_well_formed, lemma_chain_starts_with_head, IndexEntry,
    InvertedIndex, InvertedIndexHash, Posting, PostingsList,
};
use vstd::prelude::*;

verus! {

/// The two-pointer merge of two chains: the node with the smaller document
/// comes first, and on a tie the node of `a` does. Nodes are carried over
/// unchanged.
pub open spec fn merge_chains(a: Seq<Posting>, b: Seq<Posting>) -> Seq<Posting>
    decreases a.len() + b.len(),
{
    if a.len() == 0 {
        b
    } else if b.len() == 0 {
        a
    } else if a[0].document_id <= b[0].document_id {
        seq![a[0]] + merge_chains(a.drop_first(), b)
    } else {
        seq![b[0]] + merge_chains(a, b.drop_first())
    }
}

/// No node of the chain has a smaller document than a node before it.
pub open spec fn ascending(chain: Seq<Posting>) -> bool {
    forall|i: int, j: int|
        0 <= i < j < chain.len() ==> chain[i].document_id <= chain[j].document_id
}

/// Every node of the chain has a larger document than all nodes before it.
pub open spec fn strictly_ascending(chain: Seq<Posting>) -> bool {
    forall|i: int, j: int|
        0 <= i < j < chain.len() ==> chain[i].document_id < chain[j].document_id
}

/// The fault, if any, that merging chain `b` into chain `a` meets.
pub open spec fn merge_fault(a: Seq<Posting>, b: Seq<Posting>) -> Option<IndexError> {
    if !ascending(a) || !ascending(b) {
        Some(IndexError::UnsortedChainPrecondition)
    } else if !strictly_ascending(merge_chains(a, b)) {
        Some(IndexError::DuplicateDocumentInChain)
    } else {
        None
    }
}

/// Whether the chain is ascending by document.
pub fn is_ascending(list: &PostingsList) -> (ok: bool)
    ensures
        ok == ascending(list@),
{
    let mut current: &PostingsList = list;
    let ghost mut seen: Seq<Posting> = Seq::empty();
    loop
        invariant
            list@ == seen + current@,
            ascending(seen.push(current.head())),
        decreases current@.len(),
    {
        proof {
            lemma_chain_starts_with_head(*current);
        }
        match &current.next {
            None => {
                assert(list@ =~= seen.push(current.head()));
                return true;
            },
            Some(following) => {
                proof {
                    lemma_chain_starts_with_head(**following);
                    assert(list@[seen.len() as int] == current.head());
                    assert(list@[seen.len() as int + 1] == following.head());
                }
                if following.document_id < current.document_id {
                    return false;
                }
                proof {
                    let ghost grown = seen.push(current.head());
                    assert forall|i: int, j: int|
                        0 <= i < j < grown.len() + 1 implies grown.push(
                        following.head(),
                    )[i].document_id <= grown.push(following.head())[j].document_id by {
                        if j == grown.len() {
                            assert(grown[i].document_id <= grown[grown.len() - 1].document_id);
                        }
                    }
                    assert(list@ =~= grown + following@);
                    seen = grown;
                }
                current = &**following;
            },
        }
    }
}

/// Whether the merge of the two chains is strictly ascending by document.
pub fn merge_is_strict(a: &PostingsList, b: &PostingsList) -> (ok: bool)
    ensures
        ok == strictly_ascending(merge_chains(a@, b@)),
{
    let mut left: Option<&PostingsList> = Some(a);
    let mut right: Option<&PostingsList> = Some(b);
    let mut last: Option<usize> = None;
    let ghost merged = merge_chains(a@, b@);
    let ghost mut done: Seq<Posting> = Seq::empty();
    loop
        invariant
            merged == merge_chains(a@, b@),
            done + merge_chains(chain_from(left), chain_from(right)) == merged,
            strictly_ascending(done),
            last == if done.len() == 0 {
                None
            } else {
                Some(done.last().document_id)
            },
        decreases chain_from(left).len() + chain_from(right).len(),
    {
        let take_left: bool = match (left, right) {
            (Some(x), Some(y)) => x.document_id <= y.document_id,
            (Some(_), None) => true,
            (None, Some(_)) => false,
            (None, None) => {
                assert(done =~= merged);
                return true;
            },
        };
        let node: &PostingsList = if take_left {
            left.unwrap()
        } else {
            right.unwrap()
        };
        let rest: Option<&PostingsList> = match &node.next {
            Some(following) => Some(&**following),
            None => None,
        };
        proof {
            lemma_chain_starts_with_head(*node);
            if left is Some {
                lemma_chain_starts_with_head(*left.unwrap());
            }
            if right is Some {
                lemma_chain_starts_with_head(*right.unwrap());
            }
            if take_left {
                lemma_merge_takes_left(chain_from(left), chain_from(right));
                assert(done.push(node.head()) + merge_chains(chain_from(rest), chain_from(right))
                    =~= merged);
            } else {
                lemma_merge_takes_right(chain_from(left), chain_from(right));
                assert(done.push(node.head()) + merge_chains(chain_from(left), chain_from(rest))
                    =~= merged);
            }
            assert(merged[done.len() as int] == node.head());
        }
        match last {
            Some(previous) => {
                if node.document_id <= previous {
                    assert(merged[done.len() - 1] == done.last());
                    return false;
                }
            },
            None => {},
        }
        if take_left {
            left = rest;
        } else {
            right = rest;
        }
        last = Some(node.document_id);
        proof {
            let ghost grown = done.push(node.head());
            assert forall|i: int, j: int| 0 <= i < j < grown.len() implies grown[i].document_id
                < grown[j].document_id by {
                if j == done.len() && i < done.len() - 1 {
                    assert(done[i].document_id < done[done.len() - 1].document_id);
                }
            }
            done = grown;
        }
    }
}

/// The fault that merging `b` into `a` would meet, found without touching
/// either chain.
pub fn check_chains(a: &PostingsList, b: &PostingsList) -> (outcome: Result<(), IndexError>)
    ensures
        outcome is Ok <==> merge_fault(a@, b@) is None,
        outcome matches Err(fault) ==> merge_fault(a@, b@) == Some(fault),
{
    if !is_ascending(a) || !is_ascending(b) {
        Err(IndexError::UnsortedChainPrecondition)
    } else if !merge_is_strict(a, b) {
        Err(IndexError::DuplicateDocumentInChain)
    } else {
        Ok(())
    }
}

/// Links the nodes of both chains into one chain in merge order. The nodes
/// are moved, never copied.
fn merge_nodes(a: PostingsList, b: PostingsList) -> (merged: PostingsList)
    ensures
        merged@ == merge_chains(a@, b@),
{
    let mut first: Option<Box<PostingsList>> = None;
    let mut tail = &mut first;
    let mut left = Some(Box::new(a));
    let mut right = Some(Box::new(b));
    let ghost mut done: Seq<Posting> = Seq::empty();
    proof {
        lemma_chain_starts_with_head(a);
    }
    loop
        invariant
            *tail == None::<Box<PostingsList>>,
            chain_of(after_borrow(first)) == done + chain_of(*final(tail)),
            done + merge_chains(chain_of(left), chain_of(right)) == merge_chains(a@, b@),
            done.len() > 0 || left is Some,
        ensures
            left is None,
            right is None,
        decreases chain_of(left).len() + chain_of(right).len(),
    {
        let take_left: bool = match (&left, &right) {
            (Some(x), Some(y)) => x.document_id <= y.document_id,
            (Some(_), None) => true,
            (None, Some(_)) => false,
            (None, None) => {
                break ;
            },
        };
        proof {
            if left is Some {
                lemma_chain_starts_with_head(*left.unwrap());
            }
            if right is Some {
                lemma_chain_starts_with_head(*right.unwrap());
            }
            if take_left {
                lemma_merge_takes_left(chain_of(left), chain_of(right));
            } else {
                lemma_merge_takes_right(chain_of(left), chain_of(right));
            }
        }
        let ghost others = if take_left {
            chain_of(right)
        } else {
            chain_of(left)
        };
        let mut node = if take_left {
            left.take().unwrap()
        } else {
            right.take().unwrap()
        };
        let rest = node.next.take();
        proof {
            assert(node@ =~= seq![node.head()]);
            if take_left {
                assert(done.push(node.head()) + merge_chains(chain_of(rest), others)
                    =~= merge_chains(a@, b@));
            } else {
                assert(done.push(node.head()) + merge_chains(others, chain_of(rest))
                    =~= merge_chains(a@, b@));
            }
            done = done.push(node.head());
        }
        if take_left {
            left = rest;
        } else {
            right = rest;
        }
        *tail = Some(node);
        match tail {
            Some(placed) => {
                tail = &mut placed.next;
            },
            None => {},
        }
    }
    assert(chain_of(first) =~= merge_chains(a@, b@));
    *first.unwrap()
}

/// Merges two postings chains into one that is ascending by document.
///
/// Both chains must be ascending, and no document may occur twice in the
/// result; otherwise the merge is refused. On success the result holds every
/// node of both chains, unchanged, in ascending order of document.
pub fn merged_postings(base: PostingsList, to_be_added: PostingsList) -> (outcome: Result<
    PostingsList,
    IndexError,
>)
    ensures
        outcome is Ok <==> merge_fault(base@, to_be_added@) is None,
        outcome matches Ok(merged) ==> {
            &&& merged@ == merge_chains(base@, to_be_added@)
            &&& strictly_ascending(merged@)
        },
        outcome matches Err(fault) ==> merge_fault(base@, to_be_added@) == Some(fault),
{
    match check_chains(&base, &to_be_added) {
        Err(fault) => Err(fault),
        Ok(()) => Ok(merge_nodes(base, to_be_added)),
    }
}

/// The token identifiers of an index, each once, in no particular order.
pub fn keys_of(index: &InvertedIndexHash) -> (ids: Vec<usize>)
    ensures
        ids@.no_duplicates(),
        ids@.to_set() == index@.dom(),
{
    let mut ids: Vec<usize> = Vec::new();
    proof {
        if index@.dom().len() == 0 {
            index@.dom().lemma_len0_is_empty();
            assert(ids@.to_set() =~= index@.dom());
        }
    }
    for key in walk: index.keys()
        invariant
            ids@ == walk.seq().take(walk.index()).unref(),
            walk.seq().unref().no_duplicates(),
            walk.seq().unref().to_set() == index@.dom(),
            walk.seq().len() == index@.dom().len(),
            ids@.len() == index@.dom().len() ==> ids@ == walk.seq().unref(),
    {
        ids.push(*key);
        assert(ids@.len() == walk.seq().len() ==> ids@ =~= walk.seq().unref());
    }
    ids
}

/// The entry that holds everything of `a` and of `b`: the chains merged, the
/// totals added up. The token identifier is the one of `a`.
pub open spec fn merge_entries(a: IndexEntry, b: IndexEntry) -> IndexEntry {
    IndexEntry {
        token_id: a.token_id,
        postings: merge_chains(a.postings, b.postings),
        docs_count: a.docs_count + b.docs_count,
        positions_count: a.positions_count + b.positions_count,
    }
}

/// The index that holds everything of `base` and of `added`: a token of one
/// index alone keeps its entry, a token of both gets the merged entry.
pub open spec fn merge_index(base: Map<usize, IndexEntry>, added: Map<usize, IndexEntry>) -> Map<
    usize,
    IndexEntry,
> {
    Map::new(
        |t: usize| base.contains_key(t) || added.contains_key(t),
        |t: usize|
            if base.contains_key(t) && added.contains_key(t) {
                merge_entries(base[t], added[t])
            } else if base.contains_key(t) {
                base[t]
            } else {
                added[t]
            },
    )
}

/// The fault, if any, that token `t` brings to the merge of `added` into
/// `base`. Only a token of both indices has its chains merged.
pub open spec fn token_fault(
    base: Map<usize, IndexEntry>,
    added: Map<usize, IndexEntry>,
    t: usize,
) -> Option<IndexError> {
    if base.contains_key(t) && added.contains_key(t) {
        merge_fault(base[t].postings, added[t].postings)
    } else {
        None
    }
}

/// The fault, if any, that merging `added` into `base` meets: an unsorted
/// chain under any token comes before a duplicate document under any token.
pub open spec fn index_merge_fault(
    base: Map<usize, IndexEntry>,
    added: Map<usize, IndexEntry>,
) -> Option<IndexError> {
    if exists|t: usize|
        token_fault(base, added, t) == Some(IndexError::UnsortedChainPrecondition) {
        Some(IndexError::UnsortedChainPrecondition)
    } else if exists|t: usize|
        token_fault(base, added, t) == Some(IndexError::DuplicateDocumentInChain) {
        Some(IndexError::DuplicateDocumentInChain)
    } else {
        None
    }
}

/// Whether the totals of every token of both indices can be added up in a
/// machine word.
pub open spec fn totals_fit(base: Map<usize, IndexEntry>, added: Map<usize, IndexEntry>) -> bool {
    forall|t: usize| #[trigger]
        base.contains_key(t) && added.contains_key(t) ==> {
            &&& base[t].docs_count + added[t].docs_count <= usize::MAX
            &&& base[t].positions_count + added[t].positions_count <= usize::MAX
        }
}

/// Whether one of the first `upto` tokens of `keys` brings `fault`.
spec fn fault_among(
    base: Map<usize, IndexEntry>,
    added: Map<usize, IndexEntry>,
    keys: Seq<usize>,
    upto: int,
    fault: IndexError,
) -> bool {
    exists|j: int| 0 <= j < upto && token_fault(base, added, #[trigger] keys[j]) == Some(fault)
}

/// The first `upto` tokens of `keys`, as a set.
spec fn key_prefix(keys: Seq<usize>, upto: int) -> Set<usize> {
    Set::new(|t: usize| exists|j: int| 0 <= j < upto && #[trigger] keys[j] == t)
}

/// The fault that merging `to_be_added` into `base` would meet, found without
/// touching either index.
fn check_indexes(
    base: &InvertedIndexHash,
    to_be_added: &InvertedIndexHash,
    keys: &Vec<usize>,
) -> (outcome: Result<(), IndexError>)
    requires
        keys@.to_set() == to_be_added@.dom(),
    ensures
        outcome is Ok <==> index_merge_fault(entries(base@), entries(to_be_added@)) is None,
        outcome matches Err(fault) ==> index_merge_fault(entries(base@), entries(to_be_added@))
            == Some(fault),
{
    let ghost held = entries(base@);
    let ghost coming = entries(to_be_added@);
    let mut unsorted: bool = false;
    let mut duplicate: bool = false;
    let mut i: usize = 0;
    while i < keys.len()
        invariant
            0 <= i <= keys.len(),
            held == entries(base@),
            coming == entries(to_be_added@),
            unsorted == fault_among(
                held,
                coming,
                keys@,
                i as int,
                IndexError::UnsortedChainPrecondition,
            ),
            duplicate == fault_among(
                held,
                coming,
                keys@,
                i as int,
                IndexError::DuplicateDocumentInChain,
            ),
        decreases keys.len() - i,
    {
        let t: usize = keys[i];
        let ghost before_unsorted = unsorted;
        let ghost before_duplicate = duplicate;
        match (base.get(&t), to_be_added.get(&t)) {
            (Some(ours), Some(theirs)) => {
                match check_chains(&ours.postings_list, &theirs.postings_list) {
                    Err(IndexError::UnsortedChainPrecondition) => {
                        unsorted = true;
                    },
                    Err(_) => {
                        duplicate = true;
                    },
                    Ok(()) => {},
                }
            },
            _ => {},
        }
        proof {
            let ghost here = token_fault(held, coming, t);
            assert(unsorted == (before_unsorted || here == Some(
                IndexError::UnsortedChainPrecondition,
            )));
            assert(duplicate == (before_duplicate || here == Some(
                IndexError::DuplicateDocumentInChain,
            )));
            assert(keys@[i as int] == t);
        }
        i += 1;
    }
    proof {
        assert forall|t: usize| token_fault(held, coming, t) is Some implies exists|j: int|
            0 <= j < keys@.len() && #[trigger] keys@[j] == t by {
            assert(keys@.to_set().contains(t));
        }
    }
    if unsorted {
        Err(IndexError::UnsortedChainPrecondition)
    } else if duplicate {
        Err(IndexError::DuplicateDocumentInChain)
    } else {
        Ok(())
    }
}

/// Folds the index `to_be_added` into `base`.
///
/// A token that `base` lacks is taken over with its entry as it is. A token of
/// both has its two chains merged and its totals added up. The merge is
/// refused as a whole, and `base` left as it was, when under some token a
/// chain is not ascending or a document would occur twice.
pub fn merge_inverted_index_hash(
    base: &mut InvertedIndexHash,
    to_be_added: InvertedIndexHash,
) -> (outcome: Result<(), IndexError>)
    requires
        index_merge_fault(entries(old(base)@), entries(to_be_added@)) is None ==> totals_fit(
            entries(old(base)@),
            entries(to_be_added@),
        ),
    ensures
        outcome is Ok <==> index_merge_fault(entries(old(base)@), entries(to_be_added@)) is None,
        outcome is Ok ==> entries(final(base)@) == merge_index(
            entries(old(base)@),
            entries(to_be_added@),
        ),
        outcome is Ok && index_well_formed(entries(old(base)@)) && index_well_formed(
            entries(to_be_added@),
        ) ==> index_well_formed(entries(final(base)@)),
        outcome matches Err(fault) ==> {
            &&& index_merge_fault(entries(old(base)@), entries(to_be_added@)) == Some(fault)
            &&& final(base)@ == old(base)@
        },
{
    let keys = keys_of(&to_be_added);
    match check_indexes(base, &to_be_added, &keys) {
        Err(fault) => {
            return Err(fault);
        },
        Ok(()) => {},
    }
    let ghost held = entries(base@);
    let ghost coming = entries(to_be_added@);
    let ghost all = to_be_added@;
    let mut rest = to_be_added;
    let mut i: usize = 0;
    while i < keys.len()
        invariant
            0 <= i <= keys.len(),
            keys@.no_duplicates(),
            keys@.to_set() == all.dom(),
            coming == entries(all),
            totals_fit(held, coming),
            forall|t: usize| token_fault(held, coming, t) is None,
            rest@ == all.remove_keys(key_prefix(keys@, i as int)),
            entries(base@) == merge_index(held, coming.restrict(key_prefix(keys@, i as int))),
        decreases keys.len() - i,
    {
        let t: usize = keys[i];
        let ghost done = key_prefix(keys@, i as int);
        proof {
            assert(keys@.to_set().contains(t));
            assert(!done.contains(t));
            assert(key_prefix(keys@, i + 1) =~= done.insert(t));
            assert(token_fault(held, coming, t) is None);
            assert(!coming.restrict(done).contains_key(t));
            assert(entries(base@).contains_key(t) == base@.contains_key(t));
            assert(held.contains_key(t) == base@.contains_key(t));
            if base@.contains_key(t) {
                assert(entries(base@)[t] == base@[t]@);
                assert(held[t] == base@[t]@);
            }
            assert(rest@.contains_key(t));
            assert(coming[t] == all[t]@);
        }
        let ghost base_before = base@;
        match rest.remove(&t) {
            Some(theirs) => {
                match base.remove(&t) {
                    Some(ours) => {
                        assert(ours@ == held[t]);
                        assert(theirs@ == coming[t]);
                        let InvertedIndex {
                            token_id,
                            postings_list: our_list,
                            docs_count: our_docs,
                            positions_count: our_positions,
                        } = ours;
                        let InvertedIndex {
                            token_id: _,
                            postings_list: their_list,
                            docs_count: their_docs,
                            positions_count: their_positions,
                        } = theirs;
                        let merged = InvertedIndex {
                            token_id,
                            postings_list: merge_nodes(our_list, their_list),
                            docs_count: our_docs + their_docs,
                            positions_count: our_positions + their_positions,
                        };
                        assert(merged@ == merge_entries(held[t], coming[t]));
                        base.insert(t, merged);
                    },
                    None => {
                        base.insert(t, theirs);
                    },
                }
            },
            None => {},
        }
        proof {
            let ghost target = merge_index(held, coming.restrict(done.insert(t)));
            assert forall|k: usize| entries(base@).contains_key(k) == target.contains_key(
                k,
            ) by {
                assert(entries(base_before).contains_key(k) == base_before.contains_key(k));
            }
            assert forall|k: usize| entries(base@).contains_key(k) implies entries(base@)[k]
                == target[k] by {
                if k != t {
                    assert(entries(base_before).contains_key(k));
                    assert(entries(base_before)[k] == base_before[k]@);
                }
            }
            assert(entries(base@) =~= target);
            assert(rest@ =~= all.remove_keys(done.insert(t)));
        }
        i += 1;
    }
    proof {
        if index_well_formed(held) && index_well_formed(coming) {
            lemma_merge_index_well_formed(held, coming);
        }
        assert(coming.restrict(key_prefix(keys@, keys@.len() as int)) =~= coming) by {
            assert forall|t: usize| coming.contains_key(t) implies key_prefix(
                keys@,
                keys@.len() as int,
            ).contains(t) by {
                assert(keys@.to_set().contains(t));
            }
        }
    }
    Ok(())
}

} // verus!
