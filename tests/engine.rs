use eigenrank::{
    build_matrix, build_seed_vector, id_le, propagate, sort_rankings, uniform_seed,
    EigenrankContract, EngineError, Interaction, LocalTrustMatrix, LocalTrustStrategy,
    Ranking, SeedStrategy, SeedVector, StrategyConfig, Termination, DEFAULT_DAMPING, SCALE,
};

fn inter(f: &str, t: &str, m: u32, r: u32, p: u32) -> Interaction {
    Interaction::new(f.to_string(), t.to_string(), m, r, p)
}

fn setup_mock_data() -> Vec<Interaction> {
    vec![
        inter("user1.near", "user2.near", 1, 1, 1),
        inter("user2.near", "user1.near", 2, 2, 2),
    ]
}

fn names(v: &[&str]) -> Vec<String> {
    v.iter().map(|s| s.to_string()).collect()
}

fn score_of(p: &eigenrank::Propagation, name: &str) -> u64 {
    p.rankings.iter().find(|r| r.user_id == name).map(|r| r.score).unwrap()
}

fn edge_between(m: &LocalTrustMatrix, f: &str, t: &str) -> Option<(u64, u64)> {
    m.edges
        .iter()
        .find(|e| m.accounts[e.from] == f && m.accounts[e.to] == t)
        .map(|e| (e.weight, e.total))
}

#[test]
fn test_local_trust_calculation() {
    let interactions = setup_mock_data();
    let contract = EigenrankContract::new("social.near".to_string());
    let seed_accounts = vec!["trusted_user.near".to_string()];

    let rankings = contract
        .calculate_eigenrank(
            &interactions,
            &seed_accounts,
            &vec![],
            SeedStrategy::Basic,
            LocalTrustStrategy::ExistingConnections,
        )
        .unwrap()
        .rankings;

    assert!(!rankings.is_empty());
    // The two interacting accounts, and the seed account, which keeps its anchor.
    assert_eq!(rankings.len(), 3);
    assert!(rankings.iter().any(|r| r.user_id == "trusted_user.near" && r.score > 0));
    // No interaction links the seed to user1.near, so no trust reaches it.
    assert!(rankings.iter().any(|r| r.user_id == "user1.near" && r.score == 0));
}

#[test]
fn two_cycle_scenario() {
    let interactions = vec![inter("A", "B", 1, 1, 1), inter("B", "A", 2, 2, 2)];
    let m = build_matrix(&interactions, StrategyConfig::default()).unwrap();
    assert_eq!(edge_between(&m, "A", "B"), Some((4, 4)));
    assert_eq!(edge_between(&m, "B", "A"), Some((7, 7)));
    let seed = build_seed_vector(&names(&["A"]), &vec![], SeedStrategy::Basic).unwrap();
    let p = propagate(&m, &seed, SCALE / 10, 10, 1).unwrap();
    assert_eq!(p.rankings.len(), 2);
    let a = score_of(&p, "A");
    let b = score_of(&p, "B");
    assert!(a > 0 && b > 0);
    // After one iteration A holds the anchor only, B what A handed on.
    let one_step = propagate(&m, &seed, SCALE / 10, 1, 0).unwrap();
    assert_eq!(score_of(&one_step, "A"), 100_000_000);
    assert_eq!(score_of(&one_step, "B"), 900_000_000);
    // Later the two scores approach each other.
    let diff = if a > b { a - b } else { b - a };
    assert!(diff < 800_000_000);
}

#[test]
fn empty_interactions_and_seeds_fail() {
    let contract = EigenrankContract::new("social.near".to_string());
    let r = contract.calculate_eigenrank(
        &vec![],
        &vec![],
        &vec![],
        SeedStrategy::Basic,
        LocalTrustStrategy::ExistingConnections,
    );
    assert_eq!(r.err(), Some(EngineError::EmptyMatrix));
}

#[test]
fn seed_outside_interactions_keeps_anchor() {
    let interactions = setup_mock_data();
    let m = build_matrix(&interactions, StrategyConfig::default()).unwrap();
    let seed = build_seed_vector(&names(&["outsider.near"]), &vec![], SeedStrategy::Basic).unwrap();
    let p = propagate(&m, &seed, DEFAULT_DAMPING, 10, 0).unwrap();
    let s = score_of(&p, "outsider.near");
    assert!(s > 0);
    // damping times a seed weight of one
    assert!(s >= DEFAULT_DAMPING);
    assert_eq!(s, 100_000_000);
}

#[test]
fn rows_sum_to_their_totals() {
    let interactions = vec![
        inter("a", "b", 1, 0, 0),
        inter("a", "c", 0, 2, 1),
        inter("a", "b", 0, 0, 0),
        inter("c", "a", 5, 5, 5),
    ];
    let m = build_matrix(&interactions, StrategyConfig::default()).unwrap();
    for e in m.edges.iter() {
        let row: u64 = m.edges.iter().filter(|d| d.from == e.from).map(|d| d.weight).sum();
        assert_eq!(row, e.total);
        let f: f64 = m.edges.iter().filter(|d| d.from == e.from).map(|d| d.weight as f64 / d.total as f64).sum();
        assert!((f - 1.0).abs() < 1e-9);
    }
    assert_eq!(edge_between(&m, "a", "b"), Some((3, 7)));
    assert_eq!(edge_between(&m, "a", "c"), Some((4, 7)));
    assert_eq!(edge_between(&m, "c", "a"), Some((16, 16)));
}

#[test]
fn mass_stays_near_one() {
    let interactions = vec![
        inter("a", "b", 1, 0, 0),
        inter("b", "c", 0, 2, 1),
        inter("c", "a", 3, 0, 0),
        inter("c", "b", 0, 0, 1),
    ];
    let m = build_matrix(&interactions, StrategyConfig::default()).unwrap();
    let seed = uniform_seed(&m);
    for k in 0..12u64 {
        let p = propagate(&m, &seed, DEFAULT_DAMPING, k, 0).unwrap();
        let mass: u64 = p.scores.iter().sum();
        let drift = (mass as i64 - SCALE as i64).abs();
        assert!(drift < 1_000, "mass {} after {} iterations", mass, k);
    }
}

#[test]
fn order_of_interactions_does_not_matter() {
    let a = vec![
        inter("x", "y", 1, 2, 3),
        inter("y", "z", 0, 0, 0),
        inter("x", "z", 4, 0, 1),
        inter("x", "y", 0, 1, 0),
    ];
    let b = vec![
        inter("x", "y", 0, 1, 0),
        inter("x", "z", 4, 0, 1),
        inter("y", "z", 0, 0, 0),
        inter("x", "y", 1, 2, 3),
    ];
    let ma = build_matrix(&a, StrategyConfig::default()).unwrap();
    let mb = build_matrix(&b, StrategyConfig::default()).unwrap();
    for (f, t) in [("x", "y"), ("y", "z"), ("x", "z")] {
        assert_eq!(edge_between(&ma, f, t), edge_between(&mb, f, t));
    }
    assert_eq!(edge_between(&ma, "x", "y"), Some((9, 15)));
}

#[test]
fn converged_iteration_is_stable() {
    let interactions = setup_mock_data();
    let m = build_matrix(&interactions, StrategyConfig::default()).unwrap();
    let seed = build_seed_vector(&names(&["user1.near"]), &vec![], SeedStrategy::Basic).unwrap();
    let tol = 1_000u64;
    let mut k = 1u64;
    while propagate(&m, &seed, DEFAULT_DAMPING, k, tol).unwrap().termination != Termination::Converged {
        k += 1;
        assert!(k < 1_000);
    }
    let at = propagate(&m, &seed, DEFAULT_DAMPING, k, tol).unwrap();
    let same = propagate(&m, &seed, DEFAULT_DAMPING, k, 0).unwrap();
    assert_eq!(at.scores, same.scores);
    let after = propagate(&m, &seed, DEFAULT_DAMPING, k + 1, 0).unwrap();
    for (x, y) in at.scores.iter().zip(after.scores.iter()) {
        let d = if x > y { x - y } else { y - x };
        assert!(d < tol);
    }
}

#[test]
fn rankings_are_ordered() {
    let items = vec![
        Ranking { user_id: "b".to_string(), score: 5 },
        Ranking { user_id: "a".to_string(), score: 5 },
        Ranking { user_id: "c".to_string(), score: 9 },
        Ranking { user_id: "ab".to_string(), score: 5 },
        Ranking { user_id: "d".to_string(), score: 1 },
    ];
    let r = sort_rankings(items);
    let ids: Vec<&str> = r.iter().map(|x| x.user_id.as_str()).collect();
    assert_eq!(ids, vec!["c", "a", "ab", "b", "d"]);
    for w in r.windows(2) {
        assert!(w[0].score > w[1].score || (w[0].score == w[1].score && w[0].user_id <= w[1].user_id));
    }
}

#[test]
fn identifiers_compare_lexicographically() {
    let s = |x: &str| x.to_string();
    assert!(id_le(&s("a"), &s("b")));
    assert!(!id_le(&s("b"), &s("a")));
    assert!(id_le(&s("ab"), &s("ab")));
    assert!(id_le(&s(""), &s("a")));
    assert!(!id_le(&s("ab"), &s("a")));
    assert!(id_le(&s("Z"), &s("a")));
    assert!(id_le(&s("é"), &s("ü")));
}

#[test]
fn self_loop_is_rejected() {
    let interactions = vec![inter("a", "b", 1, 1, 1), inter("c", "c", 0, 0, 0)];
    assert!(matches!(
        build_matrix(&interactions, StrategyConfig::default()),
        Err(EngineError::InvalidInteraction)
    ));
}

#[test]
fn seed_errors() {
    assert!(matches!(
        build_seed_vector(&vec![], &vec![], SeedStrategy::Basic),
        Err(EngineError::EmptySeedSet)
    ));
    assert!(matches!(
        build_seed_vector(&names(&["a", "b"]), &vec![3, 0], SeedStrategy::Enhanced),
        Err(EngineError::NonPositiveWeight)
    ));
    assert!(matches!(
        build_seed_vector(&names(&["a", "b"]), &vec![u64::MAX, 1], SeedStrategy::Enhanced),
        Err(EngineError::WeightOverflow)
    ));
}

#[test]
fn seed_weights() {
    let v = build_seed_vector(&names(&["a", "b", "a"]), &vec![], SeedStrategy::Basic).unwrap();
    assert_eq!(v.accounts, names(&["a", "b"]));
    assert_eq!(v.weights, vec![2, 1]);
    assert_eq!(v.total, 3);
    let e = build_seed_vector(&names(&["a", "b"]), &vec![3, 1], SeedStrategy::Enhanced).unwrap();
    assert_eq!(e.weights, vec![3, 1]);
    assert_eq!(e.total, 4);
}

#[test]
fn uniform_fallback_without_seeds() {
    let contract = EigenrankContract::new("social.near".to_string());
    let p = contract
        .calculate_eigenrank(
            &setup_mock_data(),
            &vec![],
            &vec![],
            SeedStrategy::Basic,
            LocalTrustStrategy::ExistingConnections,
        )
        .unwrap();
    assert_eq!(p.accounts, names(&["user1.near", "user2.near"]));
    assert_eq!(p.termination, Termination::MaxIterationsReached);
    let m = build_matrix(&setup_mock_data(), StrategyConfig::default()).unwrap();
    let u = uniform_seed(&m);
    assert_eq!(u.weights, vec![1, 1]);
    assert_eq!(u.total, 2);
}

#[test]
fn strategy_weights() {
    let x = inter("a", "b", 1, 2, 3);
    assert_eq!(x.weight(StrategyConfig::default()), 7);
    assert_eq!(x.weight(LocalTrustStrategy::ExistingConnections.config()), 7);
    assert_eq!(x.weight(LocalTrustStrategy::L1Rep1Rec1M1Enhanced.config()), 8);
    assert_eq!(x.weight(LocalTrustStrategy::L1Rep6Rec3M12Enhanced.config()), 1 + 12 + 12 + 9 + 1);
    let z = inter("a", "b", 0, 0, 0);
    assert_eq!(z.weight(StrategyConfig::default()), 1);
}

#[test]
fn contract_keeps_its_store() {
    let c = EigenrankContract::new("social.near".to_string());
    assert_eq!(c.social_db_contract_id, "social.near");
}

#[test]
fn rankings_file_is_named_by_digest() {
    let f = eigenrank::rankings_file("user1.near".to_string(), "abc".to_string());
    assert_eq!(f.user_id, "user1.near");
    assert_eq!(f.data, "abc");
    assert_eq!(f.file_name, "ba7816bf8f01cfea414140de5dae2223b00361a396177a9cb410ff61f20015ad");
    let e = eigenrank::rankings_file("u".to_string(), String::new());
    assert_eq!(e.file_name, "e3b0c44298fc1c149afbf4c8996fb92427ae41e4649b934ca495991b7852b855");
}

#[test]
fn seeds_without_interactions_keep_exact_anchor() {
    let m = build_matrix(&vec![], StrategyConfig::default()).unwrap();
    let seed = build_seed_vector(&names(&["a", "b", "c"]), &vec![], SeedStrategy::Basic).unwrap();
    let p = propagate(&m, &seed, DEFAULT_DAMPING, 10, 0).unwrap();
    for r in p.rankings.iter() {
        // score >= damping * 1/3, both in units of 1 / SCALE
        assert!(r.score * 3 >= DEFAULT_DAMPING);
        assert_eq!(r.score, 33_333_334);
    }
}

#[test]
fn empty_seed_falls_back_to_uniform() {
    let m = build_matrix(&setup_mock_data(), StrategyConfig::default()).unwrap();
    let empty = SeedVector { accounts: vec![], weights: vec![], total: 0 };
    let p = propagate(&m, &empty, DEFAULT_DAMPING, 3, 0).unwrap();
    assert_eq!(p.accounts, names(&["user1.near", "user2.near"]));
    assert!(p.scores.iter().all(|s| *s > 0));
    let none = build_matrix(&vec![], StrategyConfig::default()).unwrap();
    let empty2 = SeedVector { accounts: vec![], weights: vec![], total: 0 };
    assert!(matches!(
        propagate(&none, &empty2, DEFAULT_DAMPING, 3, 0),
        Err(EngineError::EmptyMatrix)
    ));
}

#[test]
fn default_contract_store() {
    let c = EigenrankContract::default();
    assert_eq!(c.social_db_contract_id, "example.testnet");
}

#[test]
fn repeated_rankings_keep_their_counts() {
    let items = vec![
        Ranking { user_id: "x".to_string(), score: 2 },
        Ranking { user_id: "x".to_string(), score: 2 },
        Ranking { user_id: "y".to_string(), score: 2 },
    ];
    let r = sort_rankings(items);
    let ids: Vec<&str> = r.iter().map(|x| x.user_id.as_str()).collect();
    assert_eq!(ids, vec!["x", "x", "y"]);
}
