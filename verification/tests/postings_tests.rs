use ngram_index::error::IndexError;
use ngram_index::postings::{
    check_chains, is_ascending, merge_inverted_index_hash, merge_is_strict, merged_postings,
};
use ngram_index::token::{InvertedIndex, InvertedIndexHash, PostingsList};

fn node(document_id: usize, positions: Vec<usize>, next: Option<PostingsList>) -> PostingsList {
    let positions_count = positions.len();
    PostingsList { document_id, positions, positions_count, next: next.map(Box::new) }
}

fn chain(documents: &[usize]) -> PostingsList {
    let mut list: Option<PostingsList> = None;
    for document_id in documents.iter().rev() {
        list = Some(node(*document_id, vec![*document_id * 10], list));
    }
    list.unwrap()
}

fn documents(list: &PostingsList) -> Vec<usize> {
    let mut found = vec![list.document_id];
    let mut current = &list.next;
    while let Some(following) = current {
        found.push(following.document_id);
        current = &following.next;
    }
    found
}

fn rendered(index: &InvertedIndexHash) -> Vec<(usize, usize, Vec<(usize, Vec<usize>)>, usize, usize)> {
    let mut rows = Vec::new();
    for (key, entry) in index.iter() {
        let mut nodes = vec![(entry.postings_list.document_id, entry.postings_list.positions.clone())];
        let mut current = &entry.postings_list.next;
        while let Some(following) = current {
            nodes.push((following.document_id, following.positions.clone()));
            current = &following.next;
        }
        rows.push((*key, entry.token_id, nodes, entry.docs_count, entry.positions_count));
    }
    rows.sort();
    rows
}

fn single(token_id: usize, document_id: usize, positions: Vec<usize>) -> InvertedIndexHash {
    let mut index = InvertedIndexHash::new();
    let positions_count = positions.len();
    index.insert(
        token_id,
        InvertedIndex {
            token_id,
            postings_list: node(document_id, positions, None),
            docs_count: 1,
            positions_count,
        },
    );
    index
}

#[test]
fn test_merged_inverted_index_hash() {
    let mut base = InvertedIndexHash::new();
    base.insert(
        1,
        InvertedIndex {
            token_id: 1,
            postings_list: PostingsList {
                document_id: 1,
                positions: vec![1, 2, 3],
                positions_count: 3,
                next: None,
            },
            docs_count: 1,
            positions_count: 3,
        },
    );
    let mut to_be_added = InvertedIndexHash::new();
    to_be_added.insert(
        2,
        InvertedIndex {
            token_id: 1,
            postings_list: PostingsList {
                document_id: 1,
                positions: vec![10, 20, 30],
                positions_count: 3,
                next: None,
            },
            docs_count: 1,
            positions_count: 3,
        },
    );
    to_be_added.insert(
        2,
        InvertedIndex {
            token_id: 2,
            postings_list: PostingsList {
                document_id: 2,
                positions: vec![100, 200, 300],
                positions_count: 3,
                next: None,
            },
            docs_count: 1,
            positions_count: 3,
        },
    );
    merge_inverted_index_hash(&mut base, to_be_added).unwrap();
    println!("{:?}", base);
    assert_eq!(base.len(), 2);
}

#[test]
fn test_merge_postings() {
    let base = PostingsList {
        document_id: 1,
        positions: vec![1, 2, 3],
        positions_count: 3,
        next: Some(Box::new(PostingsList {
            document_id: 2,
            positions: vec![4],
            positions_count: 1,
            next: None,
        })),
    };
    let to_be_added = PostingsList {
        document_id: 10,
        positions: vec![10, 11, 12, 13],
        positions_count: 4,
        next: None,
    };
    let merged = merged_postings(base, to_be_added).unwrap();
    assert_eq!(merged.document_id, 1);
    assert_eq!(merged.positions, vec![1, 2, 3]);
    assert_eq!(merged.positions_count, 3);
    let next = merged.next.unwrap();
    assert_eq!(next.document_id, 2);
    assert_eq!(next.positions, vec![4]);
    assert_eq!(next.positions_count, 1);
    let next = next.next.unwrap();
    assert_eq!(next.document_id, 10);
    assert_eq!(next.positions, vec![10, 11, 12, 13]);
    assert_eq!(next.positions_count, 4);
    assert!(next.next.is_none());
}

#[test]
fn merge_interleaves_by_document() {
    let merged = merged_postings(chain(&[1, 4, 9]), chain(&[2, 3, 10, 11])).unwrap();
    assert_eq!(documents(&merged), vec![1, 2, 3, 4, 9, 10, 11]);
    let merged = merged_postings(chain(&[5]), chain(&[1])).unwrap();
    assert_eq!(documents(&merged), vec![1, 5]);
    assert_eq!(merged.positions, vec![10]);
    assert_eq!(merged.next.unwrap().positions, vec![50]);
}

#[test]
fn merge_is_the_same_in_either_order() {
    let one = merged_postings(chain(&[1, 7]), chain(&[3, 8])).unwrap();
    let other = merged_postings(chain(&[3, 8]), chain(&[1, 7])).unwrap();
    assert_eq!(documents(&one), vec![1, 3, 7, 8]);
    assert_eq!(documents(&one), documents(&other));
}

#[test]
fn merge_is_the_same_however_grouped() {
    let left = merged_postings(merged_postings(chain(&[1, 9]), chain(&[4])).unwrap(), chain(&[2, 6]))
        .unwrap();
    let right = merged_postings(chain(&[1, 9]), merged_postings(chain(&[4]), chain(&[2, 6])).unwrap())
        .unwrap();
    assert_eq!(documents(&left), vec![1, 2, 4, 6, 9]);
    assert_eq!(documents(&left), documents(&right));
}

#[test]
fn merge_refuses_a_shared_document() {
    assert!(matches!(
        merged_postings(chain(&[1, 2]), chain(&[2, 3])),
        Err(IndexError::DuplicateDocumentInChain)
    ));
    assert!(matches!(
        merged_postings(chain(&[1]), chain(&[1])),
        Err(IndexError::DuplicateDocumentInChain)
    ));
}

#[test]
fn merge_refuses_a_document_twice_in_one_chain() {
    assert!(matches!(
        merged_postings(chain(&[1, 1]), chain(&[2])),
        Err(IndexError::DuplicateDocumentInChain)
    ));
}

#[test]
fn merge_refuses_an_unsorted_chain() {
    assert!(matches!(
        merged_postings(chain(&[2, 1]), chain(&[3])),
        Err(IndexError::UnsortedChainPrecondition)
    ));
    assert!(matches!(
        merged_postings(chain(&[3]), chain(&[1, 5, 4])),
        Err(IndexError::UnsortedChainPrecondition)
    ));
}

#[test]
fn an_unsorted_chain_comes_before_a_duplicate() {
    assert!(matches!(
        merged_postings(chain(&[1, 1]), chain(&[3, 2])),
        Err(IndexError::UnsortedChainPrecondition)
    ));
}

#[test]
fn chain_checks_read_without_changing() {
    let a = chain(&[1, 3]);
    let b = chain(&[2, 3]);
    assert!(is_ascending(&a));
    assert!(is_ascending(&chain(&[1, 1, 2])));
    assert!(!is_ascending(&chain(&[1, 3, 2])));
    assert!(!merge_is_strict(&a, &b));
    assert!(merge_is_strict(&a, &chain(&[2, 4])));
    assert_eq!(check_chains(&a, &b), Err(IndexError::DuplicateDocumentInChain));
    assert_eq!(check_chains(&a, &chain(&[2])), Ok(()));
    assert_eq!(check_chains(&chain(&[2, 1]), &b), Err(IndexError::UnsortedChainPrecondition));
    assert_eq!(documents(&a), vec![1, 3]);
}

#[test]
fn merge_into_an_empty_index_takes_the_entry_over() {
    let mut global = InvertedIndexHash::new();
    merge_inverted_index_hash(&mut global, single(7, 42, vec![1, 2, 3])).unwrap();
    assert_eq!(rendered(&global), vec![(7, 7, vec![(42, vec![1, 2, 3])], 1, 3)]);
}

#[test]
fn merge_of_two_documents_under_one_token() {
    let mut global = InvertedIndexHash::new();
    merge_inverted_index_hash(&mut global, single(7, 9, vec![0, 4])).unwrap();
    merge_inverted_index_hash(&mut global, single(7, 3, vec![1, 2, 5])).unwrap();
    assert_eq!(
        rendered(&global),
        vec![(7, 7, vec![(3, vec![1, 2, 5]), (9, vec![0, 4])], 2, 5)]
    );
}

#[test]
fn merge_keeps_tokens_of_one_index_alone() {
    let mut global = single(1, 10, vec![0]);
    merge_inverted_index_hash(&mut global, single(2, 11, vec![3, 4])).unwrap();
    assert_eq!(
        rendered(&global),
        vec![(1, 1, vec![(10, vec![0])], 1, 1), (2, 2, vec![(11, vec![3, 4])], 1, 2)]
    );
}

#[test]
fn merging_the_same_index_twice_is_refused() {
    let mut global = InvertedIndexHash::new();
    merge_inverted_index_hash(&mut global, single(7, 42, vec![1, 2, 3])).unwrap();
    let before = rendered(&global);
    assert_eq!(
        merge_inverted_index_hash(&mut global, single(7, 42, vec![1, 2, 3])),
        Err(IndexError::DuplicateDocumentInChain)
    );
    assert_eq!(rendered(&global), before);
    assert_eq!(before, vec![(7, 7, vec![(42, vec![1, 2, 3])], 1, 3)]);
}

#[test]
fn a_refused_merge_changes_no_token() {
    let mut global = single(1, 10, vec![0]);
    merge_inverted_index_hash(&mut global, single(2, 10, vec![1])).unwrap();
    let before = rendered(&global);
    let mut added = single(1, 11, vec![5]);
    added.extend(single(2, 10, vec![6]));
    added.extend(single(3, 11, vec![7]));
    assert_eq!(
        merge_inverted_index_hash(&mut global, added),
        Err(IndexError::DuplicateDocumentInChain)
    );
    assert_eq!(rendered(&global), before);
}

#[test]
fn index_merge_refuses_an_unsorted_chain_first() {
    let mut global = InvertedIndexHash::new();
    global.insert(
        1,
        InvertedIndex { token_id: 1, postings_list: chain(&[5, 2]), docs_count: 2, positions_count: 2 },
    );
    global.extend(single(2, 8, vec![0]));
    let before = rendered(&global);
    let mut added = single(1, 9, vec![1]);
    added.extend(single(2, 8, vec![1]));
    assert_eq!(
        merge_inverted_index_hash(&mut global, added),
        Err(IndexError::UnsortedChainPrecondition)
    );
    assert_eq!(rendered(&global), before);
}

#[test]
fn index_merge_is_the_same_in_either_order() {
    let mut one = single(1, 5, vec![0]);
    merge_inverted_index_hash(&mut one, single(1, 2, vec![1, 2])).unwrap();
    merge_inverted_index_hash(&mut one, single(1, 9, vec![3])).unwrap();
    let mut other = single(1, 5, vec![0]);
    merge_inverted_index_hash(&mut other, single(1, 9, vec![3])).unwrap();
    merge_inverted_index_hash(&mut other, single(1, 2, vec![1, 2])).unwrap();
    assert_eq!(rendered(&one), rendered(&other));
    assert_eq!(
        rendered(&one),
        vec![(1, 1, vec![(2, vec![1, 2]), (5, vec![0]), (9, vec![3])], 3, 4)]
    );
}

#[test]
fn a_cloned_chain_has_the_same_nodes() {
    let list = chain(&[1, 4, 9]);
    let copy = list.clone();
    assert_eq!(documents(&copy), vec![1, 4, 9]);
    assert_eq!(copy.positions, vec![10]);
    assert_eq!(copy.positions_count, 1);
    assert_eq!(copy.next.as_ref().unwrap().positions, vec![40]);
    assert_eq!(documents(&list), vec![1, 4, 9]);
}
