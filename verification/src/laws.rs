//! What holds of the index, whatever its content: the laws of the merge of
//! postings chains and of whole indexes, and the shape of the index of a
//! single document.

use crate::error::IndexError;
use crate::postings::{
    ascending, index_merge_fault, merge_chains, merge_entries, merge_fault, merge_index,
    strictly_ascending, token_fault,
};
use crate::token::{
    index_well_formed, local_index, occurrences, record_occurrence, total_positions, IndexEntry,
    Posting,
};
use vstd::prelude::*;

verus! {

/// No document has a node in both chains.
pub open spec fn documents_disjoint(a: Seq<Posting>, b: Seq<Posting>) -> bool {
    forall|i: int, j: int|
        0 <= i < a.len() && 0 <= j < b.len() ==> a[i].document_id != b[j].document_id
}

/// How many nodes of the chain belong to `document_id`.
pub open spec fn nodes_of(chain: Seq<Posting>, document_id: usize) -> nat
    decreases chain.len(),
{
    if chain.len() == 0 {
        0
    } else if chain[0].document_id == document_id {
        1 + nodes_of(chain.drop_first(), document_id)
    } else {
        nodes_of(chain.drop_first(), document_id)
    }
}

/// Every node of the chain has a document of at least `floor`.
pub open spec fn documents_from(chain: Seq<Posting>, floor: usize) -> bool {
    forall|i: int| 0 <= i < chain.len() ==> chain[i].document_id >= floor
}

/// When `a` holds the smaller first document, or `b` is empty, the merge starts
/// with the first node of `a`.
pub proof fn lemma_merge_takes_left(a: Seq<Posting>, b: Seq<Posting>)
    requires
        a.len() > 0,
        b.len() == 0 || a[0].document_id <= b[0].document_id,
    ensures
        merge_chains(a, b) == seq![a[0]] + merge_chains(a.drop_first(), b),
{
    if b.len() == 0 {
        assert(merge_chains(a.drop_first(), b) == a.drop_first());
        assert(a =~= seq![a[0]] + a.drop_first());
    }
}

/// When `b` holds the smaller first document, or `a` is empty, the merge starts
/// with the first node of `b`.
pub proof fn lemma_merge_takes_right(a: Seq<Posting>, b: Seq<Posting>)
    requires
        b.len() > 0,
        a.len() == 0 || a[0].document_id > b[0].document_id,
    ensures
        merge_chains(a, b) == seq![b[0]] + merge_chains(a, b.drop_first()),
{
    if a.len() == 0 {
        assert(merge_chains(a, b.drop_first()) == b.drop_first());
        assert(b =~= seq![b[0]] + b.drop_first());
    }
}

/// The merge holds as many nodes as the two chains together.
pub proof fn lemma_merge_length(a: Seq<Posting>, b: Seq<Posting>)
    ensures
        merge_chains(a, b).len() == a.len() + b.len(),
    decreases a.len() + b.len(),
{
    if a.len() == 0 || b.len() == 0 {
    } else if a[0].document_id <= b[0].document_id {
        lemma_merge_length(a.drop_first(), b);
    } else {
        lemma_merge_length(a, b.drop_first());
    }
}

/// The merge holds exactly the nodes of the two chains, each as often as the
/// chains hold it and none changed.
pub proof fn lemma_merge_keeps_nodes(a: Seq<Posting>, b: Seq<Posting>)
    ensures
        merge_chains(a, b).to_multiset() == a.to_multiset().add(b.to_multiset()),
    decreases a.len() + b.len(),
{
    broadcast use vstd::seq_lib::group_to_multiset_ensures;

    if a.len() == 0 {
        assert(a.to_multiset().add(b.to_multiset()) =~= b.to_multiset());
    } else if b.len() == 0 {
        assert(a.to_multiset().add(b.to_multiset()) =~= a.to_multiset());
    } else if a[0].document_id <= b[0].document_id {
        let rest = a.drop_first();
        lemma_merge_keeps_nodes(rest, b);
        vstd::seq_lib::lemma_multiset_commutative(seq![a[0]], merge_chains(rest, b));
        vstd::seq_lib::lemma_multiset_commutative(seq![a[0]], rest);
        assert(a =~= seq![a[0]] + rest);
        assert(merge_chains(a, b).to_multiset() =~= a.to_multiset().add(b.to_multiset()));
    } else {
        let rest = b.drop_first();
        lemma_merge_keeps_nodes(a, rest);
        vstd::seq_lib::lemma_multiset_commutative(seq![b[0]], merge_chains(a, rest));
        vstd::seq_lib::lemma_multiset_commutative(seq![b[0]], rest);
        assert(b =~= seq![b[0]] + rest);
        assert(merge_chains(a, b).to_multiset() =~= a.to_multiset().add(b.to_multiset()));
    }
}

/// A document has as many nodes in the merge as in the two chains together.
pub proof fn lemma_merge_nodes_of(a: Seq<Posting>, b: Seq<Posting>, document_id: usize)
    ensures
        nodes_of(merge_chains(a, b), document_id) == nodes_of(a, document_id) + nodes_of(
            b,
            document_id,
        ),
    decreases a.len() + b.len(),
{
    if a.len() == 0 || b.len() == 0 {
    } else if a[0].document_id <= b[0].document_id {
        lemma_merge_nodes_of(a.drop_first(), b, document_id);
        assert(merge_chains(a, b).drop_first() =~= merge_chains(a.drop_first(), b));
    } else {
        lemma_merge_nodes_of(a, b.drop_first(), document_id);
        assert(merge_chains(a, b).drop_first() =~= merge_chains(a, b.drop_first()));
    }
}

/// A lower bound on the documents of both chains is one on their merge.
pub proof fn lemma_merge_documents_from(a: Seq<Posting>, b: Seq<Posting>, floor: usize)
    requires
        documents_from(a, floor),
        documents_from(b, floor),
    ensures
        documents_from(merge_chains(a, b), floor),
    decreases a.len() + b.len(),
{
    if a.len() == 0 || b.len() == 0 {
    } else if a[0].document_id <= b[0].document_id {
        let rest = a.drop_first();
        assert forall|i: int| 0 <= i < rest.len() implies rest[i].document_id >= floor by {
            assert(rest[i] == a[i + 1]);
        }
        lemma_merge_documents_from(rest, b, floor);
    } else {
        let rest = b.drop_first();
        assert forall|i: int| 0 <= i < rest.len() implies rest[i].document_id >= floor by {
            assert(rest[i] == b[i + 1]);
        }
        lemma_merge_documents_from(a, rest, floor);
    }
}

/// The merge of two ascending chains is ascending.
pub proof fn lemma_merge_ascending(a: Seq<Posting>, b: Seq<Posting>)
    requires
        ascending(a),
        ascending(b),
    ensures
        ascending(merge_chains(a, b)),
    decreases a.len() + b.len(),
{
    if a.len() == 0 || b.len() == 0 {
    } else {
        let merged = merge_chains(a, b);
        let take_left = a[0].document_id <= b[0].document_id;
        let first = if take_left {
            a[0]
        } else {
            b[0]
        };
        let left = if take_left {
            a.drop_first()
        } else {
            a
        };
        let right = if take_left {
            b
        } else {
            b.drop_first()
        };
        let rest = merge_chains(left, right);
        assert(merged == seq![first] + rest);
        assert forall|i: int| 0 <= i < left.len() implies left[i].document_id
            >= first.document_id by {
            if take_left {
                assert(left[i] == a[i + 1]);
            } else {
                assert(a[0].document_id <= a[i].document_id);
            }
        }
        assert forall|i: int| 0 <= i < right.len() implies right[i].document_id
            >= first.document_id by {
            if take_left {
                assert(b[0].document_id <= b[i].document_id);
            } else {
                assert(right[i] == b[i + 1]);
            }
        }
        assert(ascending(left)) by {
            if take_left {
                assert forall|i: int, j: int| 0 <= i < j < left.len() implies left[i].document_id
                    <= left[j].document_id by {
                    assert(left[i] == a[i + 1] && left[j] == a[j + 1]);
                }
            }
        }
        assert(ascending(right)) by {
            if !take_left {
                assert forall|i: int, j: int|
                    0 <= i < j < right.len() implies right[i].document_id
                    <= right[j].document_id by {
                    assert(right[i] == b[i + 1] && right[j] == b[j + 1]);
                }
            }
        }
        lemma_merge_ascending(left, right);
        lemma_merge_documents_from(left, right, first.document_id);
        assert forall|i: int, j: int| 0 <= i < j < merged.len() implies merged[i].document_id
            <= merged[j].document_id by {
            assert(merged[j] == rest[j - 1]);
            if i > 0 {
                assert(merged[i] == rest[i - 1]);
            }
        }
    }
}

/// A document that no node of the chain belongs to counts no node there.
pub proof fn lemma_nodes_of_absent(chain: Seq<Posting>, document_id: usize)
    requires
        forall|i: int| 0 <= i < chain.len() ==> chain[i].document_id != document_id,
    ensures
        nodes_of(chain, document_id) == 0,
    decreases chain.len(),
{
    if chain.len() > 0 {
        let rest = chain.drop_first();
        assert forall|i: int| 0 <= i < rest.len() implies rest[i].document_id != document_id by {
            assert(rest[i] == chain[i + 1]);
        }
        lemma_nodes_of_absent(rest, document_id);
    }
}

/// A node of the chain counts towards its document.
pub proof fn lemma_nodes_of_present(chain: Seq<Posting>, at: int)
    requires
        0 <= at < chain.len(),
    ensures
        nodes_of(chain, chain[at].document_id) >= 1,
    decreases chain.len(),
{
    if at > 0 {
        let rest = chain.drop_first();
        assert(rest[at - 1] == chain[at]);
        lemma_nodes_of_present(rest, at - 1);
    }
}

/// Two nodes of the chain with one document both count towards it.
pub proof fn lemma_nodes_of_pair(chain: Seq<Posting>, i: int, j: int)
    requires
        0 <= i < j < chain.len(),
        chain[i].document_id == chain[j].document_id,
    ensures
        nodes_of(chain, chain[i].document_id) >= 2,
    decreases chain.len(),
{
    let rest = chain.drop_first();
    assert(rest[j - 1] == chain[j]);
    if i == 0 {
        lemma_nodes_of_present(rest, j - 1);
    } else {
        assert(rest[i - 1] == chain[i]);
        lemma_nodes_of_pair(rest, i - 1, j - 1);
    }
}

/// An ascending chain is strictly ascending exactly when no document has two
/// nodes in it.
pub proof fn lemma_strict_means_single_nodes(chain: Seq<Posting>)
    requires
        ascending(chain),
    ensures
        strictly_ascending(chain) <==> forall|d: usize| nodes_of(chain, d) <= 1,
    decreases chain.len(),
{
    if strictly_ascending(chain) {
        assert forall|d: usize| nodes_of(chain, d) <= 1 by {
            if chain.len() > 0 {
                let rest = chain.drop_first();
                assert forall|i: int, j: int| 0 <= i < j < rest.len() implies rest[i].document_id
                    < rest[j].document_id by {
                    assert(rest[i] == chain[i + 1] && rest[j] == chain[j + 1]);
                }
                assert(strictly_ascending(rest));
                assert(ascending(rest));
                lemma_strict_means_single_nodes(rest);
                assert(nodes_of(rest, d) <= 1);
                if chain[0].document_id == d {
                    assert forall|i: int| 0 <= i < rest.len() implies rest[i].document_id
                        != d by {
                        assert(rest[i] == chain[i + 1]);
                    }
                    lemma_nodes_of_absent(rest, d);
                }
            }
        }
    }
    if forall|d: usize| nodes_of(chain, d) <= 1 {
        assert forall|i: int, j: int| 0 <= i < j < chain.len() implies chain[i].document_id
            < chain[j].document_id by {
            if chain[i].document_id == chain[j].document_id {
                lemma_nodes_of_pair(chain, i, j);
            }
        }
    }
}

/// The merge of two ascending chains is strictly ascending, and so free of
/// duplicate documents, exactly when each chain is strictly ascending and no
/// document has a node in both.
pub proof fn lemma_merge_strict(a: Seq<Posting>, b: Seq<Posting>)
    requires
        ascending(a),
        ascending(b),
    ensures
        strictly_ascending(merge_chains(a, b)) <==> strictly_ascending(a) && strictly_ascending(b)
            && documents_disjoint(a, b),
{
    let merged = merge_chains(a, b);
    lemma_merge_ascending(a, b);
    lemma_strict_means_single_nodes(a);
    lemma_strict_means_single_nodes(b);
    lemma_strict_means_single_nodes(merged);
    assert forall|d: usize| nodes_of(merged, d) == nodes_of(a, d) + nodes_of(b, d) by {
        lemma_merge_nodes_of(a, b, d);
    }
    if strictly_ascending(merged) {
        assert forall|d: usize| nodes_of(a, d) <= 1 && nodes_of(b, d) <= 1 by {
            assert(nodes_of(merged, d) <= 1);
        }
        assert forall|i: int, j: int| 0 <= i < a.len() && 0 <= j < b.len() implies a[i].document_id
            != b[j].document_id by {
            if a[i].document_id == b[j].document_id {
                lemma_nodes_of_present(a, i);
                lemma_nodes_of_present(b, j);
                assert(nodes_of(merged, a[i].document_id) >= 2);
            }
        }
    }
    if strictly_ascending(a) && strictly_ascending(b) && documents_disjoint(a, b) {
        assert forall|d: usize| nodes_of(merged, d) <= 1 by {
            assert(nodes_of(merged, d) == nodes_of(a, d) + nodes_of(b, d));
            assert(nodes_of(a, d) <= 1);
            assert(nodes_of(b, d) <= 1);
            if nodes_of(a, d) >= 1 && nodes_of(b, d) >= 1 {
                lemma_nodes_of_witness(a, d);
                lemma_nodes_of_witness(b, d);
                let i = choose|i: int| 0 <= i < a.len() && a[i].document_id == d;
                let j = choose|j: int| 0 <= j < b.len() && b[j].document_id == d;
                assert(a[i].document_id == b[j].document_id);
            }
        }
    }
}

/// A document that counts in the chain has a node there.
pub proof fn lemma_nodes_of_witness(chain: Seq<Posting>, document_id: usize)
    requires
        nodes_of(chain, document_id) >= 1,
    ensures
        exists|i: int| 0 <= i < chain.len() && chain[i].document_id == document_id,
{
    if forall|i: int| 0 <= i < chain.len() ==> chain[i].document_id != document_id {
        lemma_nodes_of_absent(chain, document_id);
    }
}

/// Merging `b` into `a` is refused for a duplicate document exactly when both
/// chains are ascending and some document has two nodes in one of them or a
/// node in each.
pub proof fn lemma_duplicate_fault(a: Seq<Posting>, b: Seq<Posting>)
    ensures
        merge_fault(a, b) == Some(IndexError::DuplicateDocumentInChain) <==> ascending(a)
            && ascending(b) && !(strictly_ascending(a) && strictly_ascending(b)
            && documents_disjoint(a, b)),
        merge_fault(a, b) is None <==> strictly_ascending(a) && strictly_ascending(b)
            && documents_disjoint(a, b),
{
    if ascending(a) && ascending(b) {
        lemma_merge_strict(a, b);
    }
}

/// Merge is commutative where no document has a node in both chains.
pub proof fn lemma_merge_commutative(a: Seq<Posting>, b: Seq<Posting>)
    requires
        documents_disjoint(a, b),
    ensures
        merge_chains(a, b) == merge_chains(b, a),
    decreases a.len() + b.len(),
{
    if a.len() == 0 || b.len() == 0 {
    } else if a[0].document_id <= b[0].document_id {
        let rest = a.drop_first();
        assert forall|i: int, j: int| 0 <= i < rest.len() && 0 <= j < b.len() implies rest[i].document_id
            != b[j].document_id by {
            assert(rest[i] == a[i + 1]);
        }
        lemma_merge_commutative(rest, b);
        assert(a[0].document_id != b[0].document_id);
    } else {
        let rest = b.drop_first();
        assert forall|i: int, j: int| 0 <= i < a.len() && 0 <= j < rest.len() implies a[i].document_id
            != rest[j].document_id by {
            assert(rest[j] == b[j + 1]);
        }
        lemma_merge_commutative(a, rest);
    }
}

/// Merge is associative.
pub proof fn lemma_merge_associative(a: Seq<Posting>, b: Seq<Posting>, c: Seq<Posting>)
    ensures
        merge_chains(merge_chains(a, b), c) == merge_chains(a, merge_chains(b, c)),
    decreases a.len() + b.len() + c.len(),
{
    if a.len() == 0 || b.len() == 0 || c.len() == 0 {
        if a.len() > 0 && c.len() > 0 {
            assert(merge_chains(a, b) == a);
            assert(merge_chains(b, c) == c);
        }
        if b.len() > 0 && c.len() > 0 {
            assert(merge_chains(a, b) == b);
        }
        if a.len() > 0 && b.len() > 0 {
            assert(merge_chains(b, c) == b);
            lemma_merge_length(a, b);
        }
    } else {
        let ab = merge_chains(a, b);
        let bc = merge_chains(b, c);
        lemma_merge_length(a, b);
        lemma_merge_length(b, c);
        if a[0].document_id <= b[0].document_id && a[0].document_id <= c[0].document_id {
            let rest = a.drop_first();
            lemma_merge_associative(rest, b, c);
            assert(ab == seq![a[0]] + merge_chains(rest, b));
            assert(ab[0] == a[0]);
            assert(ab.drop_first() =~= merge_chains(rest, b));
            assert(bc[0].document_id >= a[0].document_id);
            lemma_merge_takes_left(ab, c);
            lemma_merge_takes_left(a, bc);
        } else if a[0].document_id > b[0].document_id && b[0].document_id <= c[0].document_id {
            let rest = b.drop_first();
            lemma_merge_associative(a, rest, c);
            assert(ab == seq![b[0]] + merge_chains(a, rest));
            assert(ab[0] == b[0]);
            assert(ab.drop_first() =~= merge_chains(a, rest));
            assert(bc == seq![b[0]] + merge_chains(rest, c));
            assert(bc[0] == b[0]);
            assert(bc.drop_first() =~= merge_chains(rest, c));
            lemma_merge_takes_left(ab, c);
            lemma_merge_takes_right(a, bc);
        } else {
            let rest = c.drop_first();
            lemma_merge_associative(a, b, rest);
            assert(ab[0].document_id > c[0].document_id);
            assert(bc == seq![c[0]] + merge_chains(b, rest));
            assert(bc[0] == c[0]);
            assert(bc.drop_first() =~= merge_chains(b, rest));
            lemma_merge_takes_right(ab, c);
            lemma_merge_takes_right(a, bc);
        }
    }
}

/// A chain that was merged in cannot be merged in again: the second merge is
/// refused for a duplicate document.
pub proof fn lemma_second_merge_refused(a: Seq<Posting>, b: Seq<Posting>)
    requires
        ascending(a),
        ascending(b),
        b.len() > 0,
    ensures
        merge_fault(merge_chains(a, b), b) == Some(IndexError::DuplicateDocumentInChain),
        merge_fault(b, b) == Some(IndexError::DuplicateDocumentInChain),
{
    let once = merge_chains(a, b);
    lemma_merge_ascending(a, b);
    lemma_merge_nodes_of(a, b, b[0].document_id);
    lemma_nodes_of_present(b, 0);
    lemma_nodes_of_witness(once, b[0].document_id);
    lemma_merge_strict(once, b);
    lemma_merge_strict(b, b);
}

/// Every node of the merge is a node of one of the two chains.
pub proof fn lemma_merge_node_origin(a: Seq<Posting>, b: Seq<Posting>, at: int)
    requires
        0 <= at < merge_chains(a, b).len(),
    ensures
        a.contains(merge_chains(a, b)[at]) || b.contains(merge_chains(a, b)[at]),
{
    broadcast use vstd::seq_lib::group_to_multiset_ensures;

    let merged = merge_chains(a, b);
    lemma_merge_keeps_nodes(a, b);
    assert(merged.contains(merged[at]));
    assert(merged.to_multiset().count(merged[at]) > 0);
}

/// The position counts of the merge add up to those of the two chains.
pub proof fn lemma_merge_total_positions(a: Seq<Posting>, b: Seq<Posting>)
    ensures
        total_positions(merge_chains(a, b)) == total_positions(a) + total_positions(b),
    decreases a.len() + b.len(),
{
    if a.len() == 0 || b.len() == 0 {
    } else if a[0].document_id <= b[0].document_id {
        lemma_merge_total_positions(a.drop_first(), b);
        assert(merge_chains(a, b).drop_first() =~= merge_chains(a.drop_first(), b));
    } else {
        lemma_merge_total_positions(a, b.drop_first());
        assert(merge_chains(a, b).drop_first() =~= merge_chains(a, b.drop_first()));
    }
}

/// Merging two well-formed entries without a fault gives a well-formed
/// entry: the totals still are the number of nodes and the sum of their
/// position counts.
pub proof fn lemma_merge_entries_well_formed(a: IndexEntry, b: IndexEntry)
    requires
        a.well_formed(),
        b.well_formed(),
        merge_fault(a.postings, b.postings) is None,
    ensures
        merge_entries(a, b).well_formed(),
        merge_entries(a, b).docs_count == a.docs_count + b.docs_count,
        merge_entries(a, b).positions_count == a.positions_count + b.positions_count,
{
    let merged = merge_chains(a.postings, b.postings);
    lemma_merge_length(a.postings, b.postings);
    lemma_merge_total_positions(a.postings, b.postings);
    assert forall|i: int| 0 <= i < merged.len() implies (#[trigger] merged[i]).positions_count
        == merged[i].positions.len() by {
        lemma_merge_node_origin(a.postings, b.postings, i);
        if a.postings.contains(merged[i]) {
            let at = choose|k: int| 0 <= k < a.postings.len() && a.postings[k] == merged[i];
            assert(a.postings[at].positions_count == a.postings[at].positions.len());
        } else {
            let at = choose|k: int| 0 <= k < b.postings.len() && b.postings[k] == merged[i];
            assert(b.postings[at].positions_count == b.postings[at].positions.len());
        }
    }
}

/// The places recorded for a token are exactly the places of the document
/// that hold it, each once and in ascending order.
pub proof fn lemma_occurrences_are_the_places(ids: Seq<usize>, token_id: usize)
    requires
        ids.len() <= usize::MAX,
    ensures
        forall|p: usize| #[trigger]
            occurrences(ids, token_id).contains(p) <==> p < ids.len() && ids[p as int] == token_id,
        forall|i: int, j: int|
            0 <= i < j < occurrences(ids, token_id).len() ==> occurrences(ids, token_id)[i]
                < occurrences(ids, token_id)[j],
    decreases ids.len(),
{
    let found = occurrences(ids, token_id);
    if ids.len() == 0 {
    } else {
        let front = ids.drop_last();
        let before = occurrences(front, token_id);
        let last = (ids.len() - 1) as usize;
        lemma_occurrences_are_the_places(front, token_id);
        assert forall|i: int| 0 <= i < before.len() implies #[trigger] before[i] < last by {
            let p = before[i];
            assert(before.contains(p));
            assert(occurrences(front, token_id).contains(p));
            assert(p < front.len());
        }
        assert forall|p: usize| #[trigger]
            found.contains(p) <==> p < ids.len() && ids[p as int] == token_id by {
            if found.contains(p) {
                let at = choose|i: int| 0 <= i < found.len() && found[i] == p;
                if at < before.len() {
                    assert(before[at] == p);
                    assert(before.contains(p));
                    assert(front[p as int] == ids[p as int]);
                }
            }
            if p < ids.len() && ids[p as int] == token_id {
                if p == last {
                    assert(found[found.len() - 1] == p);
                } else {
                    assert(front[p as int] == ids[p as int]);
                    assert(before.contains(p));
                    let at = choose|i: int| 0 <= i < before.len() && before[i] == p;
                    assert(found[at] == p);
                }
            }
        }
    }
}

/// The index built from a single document is well formed, and every entry
/// has one node whose count is the number of places recorded.
pub proof fn lemma_local_index_well_formed(document_id: usize, ids: Seq<usize>)
    ensures
        index_well_formed(local_index(document_id, ids)),
        forall|t: usize| #[trigger]
            local_index(document_id, ids).contains_key(t) ==> {
                &&& local_index(document_id, ids)[t].postings.len() == 1
                &&& local_index(document_id, ids)[t].postings[0].document_id == document_id
                &&& local_index(document_id, ids)[t].postings[0].positions == occurrences(ids, t)
                &&& local_index(document_id, ids)[t].positions_count == occurrences(ids, t).len()
            },
{
    let local = local_index(document_id, ids);
    assert forall|t: usize| #[trigger] local.contains_key(t) implies local[t].token_id == t
        && local[t].well_formed() by {
        let chain = local[t].postings;
        assert(chain.drop_first() =~= Seq::<Posting>::empty());
        assert(total_positions(chain.drop_first()) == 0);
        assert(total_positions(chain) == chain[0].positions_count);
    }
}

/// Merging into an empty index takes the added index over as it is.
pub proof fn lemma_merge_into_empty(added: Map<usize, IndexEntry>)
    ensures
        index_merge_fault(Map::<usize, IndexEntry>::empty(), added) is None,
        merge_index(Map::<usize, IndexEntry>::empty(), added) == added,
{
    let none = Map::<usize, IndexEntry>::empty();
    assert forall|t: usize| token_fault(none, added, t) is None by {}
    assert(merge_index(none, added) =~= added);
}

/// A merge that meets no fault keeps the index well formed.
pub proof fn lemma_merge_index_well_formed(
    base: Map<usize, IndexEntry>,
    added: Map<usize, IndexEntry>,
)
    requires
        index_well_formed(base),
        index_well_formed(added),
        index_merge_fault(base, added) is None,
    ensures
        index_well_formed(merge_index(base, added)),
{
    let merged = merge_index(base, added);
    assert forall|t: usize| #[trigger] merged.contains_key(t) implies merged[t].token_id == t
        && merged[t].well_formed() by {
        if base.contains_key(t) && added.contains_key(t) {
            assert(token_fault(base, added, t) is None);
            lemma_merge_entries_well_formed(base[t], added[t]);
        }
    }
}

/// Two indexes can be merged into a third in either order: the result is the
/// same, provided that under no token a document has a node in both and that
/// a token of both stands under one identifier in both.
pub proof fn lemma_merge_index_order(
    base: Map<usize, IndexEntry>,
    first: Map<usize, IndexEntry>,
    second: Map<usize, IndexEntry>,
)
    requires
        forall|t: usize| #[trigger]
            first.contains_key(t) && second.contains_key(t) ==> {
                &&& first[t].token_id == second[t].token_id
                &&& documents_disjoint(first[t].postings, second[t].postings)
            },
    ensures
        merge_index(merge_index(base, first), second) == merge_index(
            merge_index(base, second),
            first,
        ),
{
    let one = merge_index(merge_index(base, first), second);
    let other = merge_index(merge_index(base, second), first);
    assert forall|t: usize| one.contains_key(t) implies one[t] == other[t] by {
        if first.contains_key(t) && second.contains_key(t) {
            let p = first[t].postings;
            let q = second[t].postings;
            lemma_merge_commutative(p, q);
            if base.contains_key(t) {
                let g = base[t].postings;
                lemma_merge_associative(g, p, q);
                lemma_merge_associative(g, q, p);
            }
        }
    }
    assert(one =~= other);
}

/// An index that was merged in cannot be merged in again: the second merge
/// is refused for a duplicate document.
pub proof fn lemma_second_index_merge_refused(
    base: Map<usize, IndexEntry>,
    added: Map<usize, IndexEntry>,
)
    requires
        index_merge_fault(base, added) is None,
        exists|t: usize| added.contains_key(t),
        forall|t: usize| #[trigger]
            added.contains_key(t) ==> ascending(added[t].postings) && added[t].postings.len() > 0,
    ensures
        index_merge_fault(merge_index(base, added), added) == Some(
            IndexError::DuplicateDocumentInChain,
        ),
{
    let once = merge_index(base, added);
    assert forall|t: usize| added.contains_key(t) implies token_fault(once, added, t) == Some(
        IndexError::DuplicateDocumentInChain,
    ) by {
        assert(once.contains_key(t));
        if base.contains_key(t) {
            assert(token_fault(base, added, t) is None);
            lemma_second_merge_refused(base[t].postings, added[t].postings);
        } else {
            lemma_second_merge_refused(added[t].postings, added[t].postings);
        }
    }
    let witness = choose|t: usize| added.contains_key(t);
    assert(token_fault(once, added, witness) == Some(IndexError::DuplicateDocumentInChain));
}

/// Recording one more occurrence keeps the index well formed.
pub proof fn lemma_record_keeps_well_formed(
    index: Map<usize, IndexEntry>,
    document_id: usize,
    token_id: usize,
    position: usize,
)
    requires
        index_well_formed(index),
    ensures
        index_well_formed(record_occurrence(index, document_id, token_id, position)),
{
    let after = record_occurrence(index, document_id, token_id, position);
    assert forall|t: usize| #[trigger] after.contains_key(t) implies after[t].token_id == t
        && after[t].well_formed() by {
        if t == token_id {
            let chain = after[t].postings;
            if index.contains_key(t) {
                let before = index[t].postings;
                assert(chain.drop_first() =~= before.drop_first());
                assert forall|i: int| 0 <= i < chain.len() implies (#[trigger] chain[i]).positions_count
                    == chain[i].positions.len() by {
                    if i > 0 {
                        assert(chain[i] == before[i]);
                    } else {
                        assert(before[0].positions_count == before[0].positions.len());
                    }
                }
                assert forall|i: int, j: int| 0 <= i < j < chain.len() implies chain[i].document_id
                    < chain[j].document_id by {
                    assert(chain[i].document_id == before[i].document_id);
                    assert(chain[j].document_id == before[j].document_id);
                }
            } else {
                assert(chain.drop_first() =~= Seq::<Posting>::empty());
                assert(total_positions(chain.drop_first()) == 0);
            }
        } else {
            assert(index.contains_key(t));
        }
    }
}

} // verus!
