use lib::ranking::{rank_order, ScoredCandidate};

fn scored(candidate_id: &str, score_key: u64) -> ScoredCandidate<'_> {
    ScoredCandidate { candidate_id, score_key }
}

#[test]
fn ranking_is_stable_with_id_tiebreak() {
    let candidates = [scored("z_candidate", 10), scored("a_candidate", 10), scored("middle", 5)];
    assert_eq!(rank_order(&candidates, 3), vec![1, 0, 2]);
}

#[test]
fn ranking_prefers_higher_scores() {
    let candidates = [scored("a", 1), scored("b", 3), scored("c", 2), scored("d", u64::MAX)];
    assert_eq!(rank_order(&candidates, 10), vec![3, 1, 2, 0]);
}

#[test]
fn ranking_truncates_to_limit_and_cap() {
    let candidates = [scored("a", 1), scored("b", 3), scored("c", 2)];
    assert_eq!(rank_order(&candidates, 2), vec![1, 2]);
    assert_eq!(rank_order(&candidates, 0), Vec::<usize>::new());
    assert_eq!(rank_order(&[], 5), Vec::<usize>::new());
    let ids: Vec<String> = (0..150).map(|i| format!("c{i:03}")).collect();
    let many: Vec<ScoredCandidate<'_>> = ids.iter().map(|id| scored(id, 7)).collect();
    let order = rank_order(&many, usize::MAX);
    assert_eq!(order.len(), 100);
    assert_eq!(order, (0..100).collect::<Vec<usize>>());
}

#[test]
fn identical_entries_keep_their_order() {
    let candidates = [scored("same", 4), scored("same", 4), scored("prefix", 4), scored("sam", 4)];
    // "prefix" < "sam" < "same" bytewise; the two "same" keep their positions.
    assert_eq!(rank_order(&candidates, 4), vec![2, 3, 0, 1]);
}

#[test]
fn ranking_is_deterministic() {
    let candidates = [scored("b", 2), scored("a", 2), scored("c", 9), scored("a", 2)];
    let first = rank_order(&candidates, 3);
    let second = rank_order(&candidates, 3);
    assert_eq!(first, second);
    assert_eq!(first, vec![2, 1, 3]);
}

#[test]
fn ranking_ignores_input_order() {
    let candidates = [
        scored("b", 2), scored("a", 2), scored("c", 9), scored("a", 2), scored("d", 1),
    ];
    let permuted = [
        candidates[4], candidates[3], candidates[2], candidates[1], candidates[0],
    ];
    for limit in 0..7 {
        let first: Vec<(&str, u64)> = rank_order(&candidates, limit)
            .into_iter()
            .map(|i| (candidates[i].candidate_id, candidates[i].score_key))
            .collect();
        let second: Vec<(&str, u64)> = rank_order(&permuted, limit)
            .into_iter()
            .map(|i| (permuted[i].candidate_id, permuted[i].score_key))
            .collect();
        assert_eq!(first, second);
    }
    assert_eq!(rank_order(&permuted, 5), vec![2, 1, 3, 4, 0]);
}
