use mnemos::fusion::fusion_ranks;

fn ranks_of(groups: &[(u128, Vec<usize>)], id: u128) -> Option<Vec<usize>> {
    groups.iter().find(|(g, _)| *g == id).map(|(_, r)| r.clone())
}

#[test]
fn shared_document_collects_ranks_from_both_lists() {
    let shared = 1u128;
    let lexical_only = 2u128;
    let vector_only = 3u128;
    let groups = fusion_ranks(&vec![vec![shared, vector_only], vec![lexical_only, shared]]);
    assert_eq!(groups.len(), 3);
    assert_eq!(ranks_of(&groups, shared), Some(vec![1, 2]));
    assert_eq!(ranks_of(&groups, vector_only), Some(vec![2]));
    assert_eq!(ranks_of(&groups, lexical_only), Some(vec![1]));
    assert_eq!(ranks_of(&groups, 99), None);
}

#[test]
fn groups_follow_first_appearance_and_repeat_ranks() {
    let groups = fusion_ranks(&vec![vec![5, 6, 5], vec![], vec![6]]);
    assert_eq!(groups, vec![(5, vec![1, 3]), (6, vec![2, 1])]);
    assert!(fusion_ranks(&vec![]).is_empty());
}

#[test]
fn later_rankings_append_their_new_documents_in_order() {
    let groups = fusion_ranks(&vec![vec![3], vec![1, 3, 2], vec![2, 4]]);
    let ids: Vec<u128> = groups.iter().map(|(id, _)| *id).collect();
    assert_eq!(ids, vec![3, 1, 2, 4]);
    assert_eq!(ranks_of(&groups, 3), Some(vec![1, 2]));
    assert_eq!(ranks_of(&groups, 2), Some(vec![3, 1]));
}
