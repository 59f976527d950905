use naming_game::builder::build_adjacency;
use naming_game::builder::relation_of;
use naming_game::matching::maximum_matching;
use naming_game::matching::perfect_match;
use naming_game::pools::Pool;
use naming_game::recommend::maximum_score;
use naming_game::session::EngineAction;
use naming_game::session::parse_event;
use naming_game::session::OpponentEvent;
use naming_game::session::SessionState;
use naming_game::session::SessionStatus;

fn brute_go(adj: &Vec<Vec<usize>>, a: usize, used: &mut Vec<bool>) -> usize {
    if a == adj.len() {
        return 0;
    }
    let mut best = brute_go(adj, a + 1, used);
    for k in 0..adj[a].len() {
        let b = adj[a][k];
        if !used[b] {
            used[b] = true;
            let r = 1 + brute_go(adj, a + 1, used);
            used[b] = false;
            if r > best {
                best = r;
            }
        }
    }
    best
}

/// Exhaustive maximum-matching search for small fixtures.
fn brute_matching(adj: &Vec<Vec<usize>>, nr: usize) -> usize {
    let mut used = vec![false; nr];
    brute_go(adj, 0, &mut used)
}

#[test]
fn matches_brute_force_on_fixtures() {
    let fixtures: Vec<(Vec<Vec<usize>>, usize)> = vec![
        (vec![], 0),
        (vec![vec![]], 1),
        (vec![vec![0]], 1),
        (vec![vec![0, 1], vec![0]], 2),
        (vec![vec![0], vec![0]], 2),
        (vec![vec![0, 1], vec![1, 2], vec![2, 0]], 3),
        (vec![vec![1], vec![1], vec![1]], 3),
        (vec![vec![0, 1, 2], vec![0], vec![0]], 3),
    ];
    for (adj, nr) in &fixtures {
        assert_eq!(maximum_matching(adj, *nr), brute_matching(adj, *nr));
    }
}

#[test]
fn matches_brute_force_on_generated_graphs() {
    // A fixed linear congruential generator keeps the fixtures reproducible.
    let mut state: u64 = 12345;
    let mut next = move || {
        state = state.wrapping_mul(6364136223846793005).wrapping_add(1442695040888963407);
        (state >> 33) as usize
    };
    for _round in 0..60 {
        let nl = next() % 6;
        let nr = next() % 6;
        let mut adj: Vec<Vec<usize>> = Vec::new();
        for _a in 0..nl {
            let mut row = Vec::new();
            for b in 0..nr {
                if next() % 3 == 0 {
                    row.push(b);
                }
            }
            adj.push(row);
        }
        let fast = maximum_matching(&adj, nr);
        let slow = brute_matching(&adj, nr);
        assert_eq!(fast, slow);
        let small = if nl <= nr { nl } else { nr };
        assert!(fast <= small);
        assert_eq!(perfect_match(&adj, nr), fast == small);
    }
}

fn pool(names: &[&str], offset: usize) -> Pool {
    let v: Vec<String> = names.iter().map(|s| s.to_string()).collect();
    Pool::new(v, offset)
}

fn events(evs: &[&[&str]]) -> Vec<Vec<String>> {
    evs.iter().map(|ev| ev.iter().map(|s| s.to_string()).collect()).collect()
}

#[test]
fn session_scores_and_grows_used_set() {
    let pa = pool(&["x1", "x2"], 0);
    let pb = pool(&["y1", "y2"], 2);
    let evs = events(&[&["x1", "y1"], &["x1", "y1"], &["x1", "y1"], &["x2", "y2"]]);
    let t = build_adjacency(&evs, &pa, &pb);
    let mut s = SessionState::new();
    s.start();
    let used_before = s.used.clone();
    let act = s.step(&t, &pa, &OpponentEvent::Move("x1".to_string()));
    assert!(matches!(act, EngineAction::Say(2)));
    assert_eq!(s.score, 3);
    assert_eq!(s.turns, 1);
    // the used-set only grew
    assert!(s.used.len() > used_before.len());
    assert_eq!(&s.used[..used_before.len()], &used_before[..]);
    let used_mid = s.used.clone();
    let act2 = s.step(&t, &pa, &OpponentEvent::Move("x2".to_string()));
    assert!(matches!(act2, EngineAction::Say(3)));
    assert_eq!(s.score, 4);
    assert_eq!(s.turns, 2);
    assert!(s.used.len() > used_mid.len());
    assert_eq!(&s.used[..used_mid.len()], &used_mid[..]);
    let act3 = s.step(&t, &pa, &OpponentEvent::Concede);
    assert!(matches!(act3, EngineAction::Finished));
    assert!(matches!(s.status, SessionStatus::ConcededByOpponent));
    // average of 4 over 2 turns
    assert_eq!(s.final_score(&t), 2);
}

#[test]
fn session_concedes_without_answer() {
    // Every partner of x1 is used up: the engine gives up and reports 0.
    let pa = pool(&["x1"], 0);
    let pb = pool(&["y1", "y2"], 1);
    let evs = events(&[&["x1", "y1"], &["x1", "y2"]]);
    let t = build_adjacency(&evs, &pa, &pb);
    let mut s = SessionState::new();
    s.start();
    s.record_opening(1);
    s.record_opening(2);
    let act = s.step(&t, &pa, &OpponentEvent::Move("x1".to_string()));
    assert!(matches!(act, EngineAction::GiveUp));
    assert!(matches!(s.status, SessionStatus::ConcededBySelf));
    assert_eq!(s.final_score(&t), 0);
}

#[test]
fn session_zero_turns_reports_best_edge() {
    // A session the opponent concedes before any scored turn reports the
    // heaviest single edge of the table.
    let pa = pool(&["x1"], 0);
    let pb = pool(&["y1"], 1);
    let evs = events(&[&["x1", "y1"], &["x1", "y1"]]);
    let t = build_adjacency(&evs, &pa, &pb);
    assert_eq!(maximum_score(&t), 2);
    let mut s = SessionState::new();
    s.start();
    let act = s.step(&t, &pa, &OpponentEvent::Concede);
    assert!(matches!(act, EngineAction::Finished));
    assert_eq!(s.final_score(&t), 2);
}

#[test]
fn session_exhaustion_on_empty_pool() {
    let t = build_adjacency(&events(&[]), &pool(&["x1"], 0), &pool(&[], 1));
    let mut s = SessionState::new();
    s.start();
    s.resolve_exhausted();
    assert!(matches!(s.status, SessionStatus::WonByExhaustion));
    assert_eq!(s.final_score(&t), 0);
}

#[test]
fn concession_token_is_recognised() {
    assert!(matches!(parse_event("IGiveUp".to_string()), OpponentEvent::Concede));
    match parse_event("bob".to_string()) {
        OpponentEvent::Move(n) => assert_eq!(n, "bob"),
        OpponentEvent::Concede => panic!("a name is not a concession"),
    }
}
