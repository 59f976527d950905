use naming_game::adjacency::LookupTable;
use naming_game::builder::build_adjacency;
use naming_game::builder::relation_of;
use naming_game::matching::ForcedWinner;
use naming_game::matching::compute_outcome;
use naming_game::matching::maximum_matching;
use naming_game::matching::perfect_match;
use naming_game::pools::Pool;
use naming_game::recommend::maximum_score;
use naming_game::recommend::opening_move;
use naming_game::recommend::our_next_move;

fn pool(names: &[&str], offset: usize) -> Pool {
    let v: Vec<String> = names.iter().map(|s| s.to_string()).collect();
    Pool::new(v, offset)
}

fn events(evs: &[&[&str]]) -> Vec<Vec<String>> {
    evs.iter().map(|ev| ev.iter().map(|s| s.to_string()).collect()).collect()
}

fn weight_of(t: &LookupTable, u: usize, p: usize) -> u64 {
    if u >= t.table.len() {
        return 0;
    }
    for v in &t.table[u] {
        if v.partner == p {
            return v.weight;
        }
    }
    0
}

#[test]
fn one_event_full_cross() {
    // Pool A = {x1, x2}, Pool B = {y1, y2}, one event casting all four:
    // four edges, maximum matching 2, a perfect match.
    let pa = pool(&["x1", "x2"], 0);
    let pb = pool(&["y1", "y2"], 2);
    let evs = events(&[&["x1", "y1", "x2", "y2"]]);
    let t = build_adjacency(&evs, &pa, &pb);
    let rel = relation_of(&t, 2, 2);
    let mut edge_count = 0;
    for row in &rel {
        edge_count += row.len();
    }
    assert_eq!(edge_count, 4);
    assert_eq!(maximum_matching(&rel, 2), 2);
    assert!(perfect_match(&rel, 2));
}

#[test]
fn one_event_unbalanced() {
    // Pool A = {x1, x2}, Pool B = {y1}, one event casting all three:
    // maximum matching 1, which cannot saturate Pool A.
    let pa = pool(&["x1", "x2"], 0);
    let pb = pool(&["y1"], 2);
    let evs = events(&[&["x1", "x2", "y1"]]);
    let t = build_adjacency(&evs, &pa, &pb);
    let rel = relation_of(&t, 2, 1);
    let size = maximum_matching(&rel, 1);
    assert_eq!(size, 1);
    assert!(size < 2);
}

#[test]
fn no_events_at_all() {
    // No events: matching size 0, no perfect match with both pools occupied.
    let pa = pool(&["x1", "x2"], 0);
    let pb = pool(&["y1", "y2"], 2);
    let evs = events(&[]);
    let t = build_adjacency(&evs, &pa, &pb);
    let rel = relation_of(&t, 2, 2);
    assert_eq!(maximum_matching(&rel, 2), 0);
    assert!(!perfect_match(&rel, 2));
}

#[test]
fn recommend_picks_heaviest() {
    // x1-y1 weight 3, x1-y2 weight 1, nothing used, opponent says x1:
    // the engine answers y1 (global index 2) with weight 3.
    let pa = pool(&["x1", "x2"], 0);
    let pb = pool(&["y1", "y2"], 2);
    let evs = events(&[&["x1", "y1"], &["x1", "y1"], &["x1", "y1"], &["x1", "y2"]]);
    let t = build_adjacency(&evs, &pa, &pb);
    assert_eq!(weight_of(&t, 0, 2), 3);
    assert_eq!(weight_of(&t, 0, 3), 1);
    let used: Vec<usize> = vec![];
    let r = our_next_move(&t, &used, &pa, &"x1".to_string());
    assert_eq!(r, Some((2, 3)));
}

#[test]
fn recommend_skips_used() {
    // As above but y1 was already named: the engine answers y2, weight 1.
    let pa = pool(&["x1", "x2"], 0);
    let pb = pool(&["y1", "y2"], 2);
    let evs = events(&[&["x1", "y1"], &["x1", "y1"], &["x1", "y1"], &["x1", "y2"]]);
    let t = build_adjacency(&evs, &pa, &pb);
    let used: Vec<usize> = vec![2];
    let r = our_next_move(&t, &used, &pa, &"x1".to_string());
    assert_eq!(r, Some((3, 1)));
}

#[test]
fn recommend_when_everything_used() {
    // Every partner of x1 already named: no recommendation.
    let pa = pool(&["x1", "x2"], 0);
    let pb = pool(&["y1", "y2"], 2);
    let evs = events(&[&["x1", "y1"], &["x1", "y2"]]);
    let t = build_adjacency(&evs, &pa, &pb);
    let used: Vec<usize> = vec![2, 3];
    let r = our_next_move(&t, &used, &pa, &"x1".to_string());
    assert_eq!(r, None);
}

#[test]
fn recommend_unknown_move_concedes() {
    // A name in neither pool cannot be answered.
    let pa = pool(&["x1"], 0);
    let pb = pool(&["y1"], 1);
    let evs = events(&[&["x1", "y1"]]);
    let t = build_adjacency(&evs, &pa, &pb);
    let used: Vec<usize> = vec![];
    let r = our_next_move(&t, &used, &pa, &"zz".to_string());
    assert_eq!(r, None);
}

#[test]
fn recommend_is_deterministic() {
    let pa = pool(&["x1", "x2"], 0);
    let pb = pool(&["y1", "y2"], 2);
    let evs = events(&[&["x1", "y1", "y2"], &["x1", "y2"], &["x2", "y1"]]);
    let t = build_adjacency(&evs, &pa, &pb);
    let used: Vec<usize> = vec![3];
    let r1 = our_next_move(&t, &used, &pa, &"x1".to_string());
    let r2 = our_next_move(&t, &used, &pa, &"x1".to_string());
    assert_eq!(r1, r2);
    assert_eq!(r1, Some((2, 1)));
}

#[test]
fn weights_are_symmetric() {
    // Round trip: weight(a, b) equals weight(b, a) for every cross pair.
    let pa = pool(&["x1", "x2", "x3"], 0);
    let pb = pool(&["y1", "y2"], 3);
    let evs = events(&[
        &["x1", "y1", "x2"],
        &["x2", "y2", "y1"],
        &["x3", "y2", "x1", "y1"],
        &["x1", "y1"],
    ]);
    let t = build_adjacency(&evs, &pa, &pb);
    for a in 0..3usize {
        for b in 3..5usize {
            assert_eq!(weight_of(&t, a, b), weight_of(&t, b, a));
        }
    }
    assert_eq!(weight_of(&t, 0, 3), 3);
}

#[test]
fn strangers_are_ignored() {
    // Event members in neither pool are unrelated third parties.
    let pa = pool(&["x1"], 0);
    let pb = pool(&["y1"], 1);
    let evs = events(&[&["x1", "nobody", "y1", "guest"]]);
    let t = build_adjacency(&evs, &pa, &pb);
    assert_eq!(weight_of(&t, 0, 1), 1);
    let rel = relation_of(&t, 1, 1);
    assert_eq!(rel[0].len(), 1);
}

#[test]
fn duplicate_cast_counts_once() {
    // A name listed twice in one event still counts one co-occurrence.
    let pa = pool(&["x1"], 0);
    let pb = pool(&["y1"], 1);
    let evs = events(&[&["x1", "y1", "x1", "y1"]]);
    let t = build_adjacency(&evs, &pa, &pb);
    assert_eq!(weight_of(&t, 0, 1), 1);
}

#[test]
fn maximum_score_is_heaviest_edge() {
    let pa = pool(&["x1", "x2"], 0);
    let pb = pool(&["y1", "y2"], 2);
    let evs = events(&[&["x1", "y1"], &["x1", "y1"], &["x2", "y2"]]);
    let t = build_adjacency(&evs, &pa, &pb);
    assert_eq!(maximum_score(&t), 2);
}

#[test]
fn maximum_score_empty_table() {
    let t = LookupTable::new();
    assert_eq!(maximum_score(&t), 0);
}

#[test]
fn opening_move_takes_lightest_edge() {
    // The opening convention names the owner of the globally lowest-weight
    // edge among our rows.
    let pa = pool(&["x1", "x2"], 0);
    let pb = pool(&["y1", "y2"], 2);
    let evs = events(&[&["x1", "y1"], &["x1", "y1"], &["x2", "y2"]]);
    let t = build_adjacency(&evs, &pa, &pb);
    let r = opening_move(&t, 0, 2);
    assert_eq!(r, Some((1, 1)));
}

#[test]
fn opening_move_without_edges() {
    let t = LookupTable::new();
    assert_eq!(opening_move(&t, 0, 5), None);
}

#[test]
fn outcome_from_matching_size() {
    assert!(matches!(compute_outcome(2, 2, 3), ForcedWinner::PoolB));
    assert!(matches!(compute_outcome(1, 2, 3), ForcedWinner::PoolA));
    assert!(matches!(compute_outcome(0, 0, 4), ForcedWinner::PoolB));
}

#[test]
fn pool_lookup_and_names() {
    let pb = pool(&["y1", "y2"], 7);
    assert_eq!(pb.index_of(&"y1".to_string()), Some(7));
    assert_eq!(pb.index_of(&"y2".to_string()), Some(8));
    assert_eq!(pb.index_of(&"x1".to_string()), None);
    assert_eq!(pb.name_of(8), "y2");
}
