use psets::election::{Ballot, Candidates, Election};
use psets::graph::{Edge, Graph, Vertex};

fn election_of(candidates_test: &[&str], ballots_test: &[Vec<&str>]) -> Election {
    let mut candidates: Candidates = Vec::new();
    for candidate in candidates_test {
        candidates.push(candidate.to_string());
    }
    let ballots: Vec<Ballot> = ballots_test
        .iter()
        .map(|ballot| {
            ballot
                .iter()
                .map(|s| {
                    candidates
                        .iter()
                        .position(|s2| s == s2)
                        .expect("test case vote names should be valid")
                })
                .collect()
        })
        .collect();
    Election {
        candidates,
        ballots,
    }
}

#[test]
fn test_tideman() {
    let mut test_cases = [
        (
            vec!["alice", "bob", "charlie"],
            vec![
                vec!["alice", "bob", "charlie"],
                vec!["alice", "charlie", "bob"],
                vec!["bob", "charlie", "alice"],
                vec!["bob", "alice", "charlie"],
                vec!["charlie", "bob", "alice"],
            ],
            "bob",
        ),
        (
            vec!["alice", "bob", "charlie"],
            vec![
                vec!["alice", "bob", "charlie"],
                vec!["alice", "bob", "charlie"],
                vec!["bob", "alice", "charlie"],
                vec!["bob", "alice", "charlie"],
                vec!["bob", "alice", "charlie"],
                vec!["charlie", "alice", "bob"],
                vec!["charlie", "alice", "bob"],
                vec!["charlie", "alice", "bob"],
                vec!["charlie", "bob", "alice"],
            ],
            "alice",
        ),
        (vec!["bilbo", "oboe"], vec![vec!["oboe", "bilbo"]], "oboe"),
        (
            vec!["alice", "bob", "charlie"],
            vec![
                vec!["alice", "bob", "charlie"],
                vec!["alice", "bob", "charlie"],
                vec!["alice", "bob", "charlie"],
                vec!["bob", "charlie", "alice"],
                vec!["bob", "charlie", "alice"],
                vec!["charlie", "alice", "bob"],
                vec!["charlie", "alice", "bob"],
                vec!["charlie", "alice", "bob"],
                vec!["charlie", "alice", "bob"],
            ],
            "charlie",
        ),
    ];

    for (candidates_test, ballots_test, expected) in test_cases.iter_mut() {
        let mut candidates: Candidates = Vec::new();
        for candidate in candidates_test {
            candidates.push(candidate.to_string());
        }

        let ballots: Vec<Ballot> = ballots_test
            .iter()
            .map(|ballot| {
                ballot
                    .iter()
                    .map(|s| {
                        candidates
                            .iter()
                            .position(|s2| s == s2)
                            .expect("test case vote names should be valid")
                    })
                    .collect()
            })
            .collect();

        let expected: String = expected.to_string();

        let election = Election {
            candidates,
            ballots,
        };
        match election.tideman() {
            Some(winner) => assert_eq!(winner, expected),
            None => assert_eq!(expected, "No winner."),
        }
    }
}

#[test]
fn single_candidate_always_wins() {
    let e = election_of(&["zed"], &[vec!["zed"], vec!["zed"]]);
    assert_eq!(e.tideman(), Some("zed".to_string()));
    let e = election_of(&["zed"], &[]);
    assert_eq!(e.tideman(), Some("zed".to_string()));
}

#[test]
fn first_on_every_ballot_wins() {
    let e = election_of(
        &["ann", "ben", "cat", "dan"],
        &[
            vec!["cat", "ann", "ben", "dan"],
            vec!["cat", "dan", "ben", "ann"],
            vec!["cat", "ben", "ann", "dan"],
        ],
    );
    assert_eq!(e.tideman(), Some("cat".to_string()));
}

#[test]
fn resolving_twice_gives_the_same_winner() {
    let e = election_of(
        &["alice", "bob", "charlie"],
        &[
            vec!["alice", "bob", "charlie"],
            vec!["bob", "charlie", "alice"],
            vec!["charlie", "alice", "bob"],
        ],
    );
    assert_eq!(e.tideman(), e.tideman());
}

#[test]
fn edge_count_is_pairs() {
    for n in 0..6usize {
        let names: Vec<String> = (0..n).map(|i| format!("c{}", i)).collect();
        let ballot: Vec<usize> = (0..n).collect();
        let e = Election {
            candidates: names,
            ballots: vec![ballot.clone(), ballot],
        };
        assert_eq!(e.get_edges().len(), n * n.saturating_sub(1) / 2);
    }
}

#[test]
fn edges_come_by_decreasing_margin() {
    let e = election_of(
        &["alice", "bob", "charlie"],
        &[
            vec!["alice", "bob", "charlie"],
            vec!["alice", "bob", "charlie"],
            vec!["alice", "bob", "charlie"],
            vec!["bob", "charlie", "alice"],
            vec!["bob", "charlie", "alice"],
            vec!["charlie", "alice", "bob"],
            vec!["charlie", "alice", "bob"],
            vec!["charlie", "alice", "bob"],
            vec!["charlie", "alice", "bob"],
        ],
    );
    let edges = e.get_edges();
    assert_eq!(
        edges,
        vec![
            Edge(Vertex(0), Vertex(1), 5),
            Edge(Vertex(2), Vertex(0), 3),
            Edge(Vertex(1), Vertex(2), 1),
        ]
    );
}

#[test]
fn locked_graph_has_no_mutual_reachability() {
    let e = election_of(
        &["alice", "bob", "charlie"],
        &[
            vec!["alice", "bob", "charlie"],
            vec!["bob", "charlie", "alice"],
            vec!["charlie", "alice", "bob"],
        ],
    );
    let g = e.construct_graph().expect("a graph is always built");
    assert_eq!(g.e.len(), 2);
    for a in 0..3 {
        for b in 0..3 {
            if a != b {
                assert!(!(g.dfs(&Vertex(a), &Vertex(b)) && g.dfs(&Vertex(b), &Vertex(a))));
            }
        }
    }
}

#[test]
fn perfect_cycle_resolves_by_generation_order() {
    // alice beats bob, bob beats charlie and charlie beats alice, each by one
    // ballot: the ties keep the order of generation, so bob -> charlie is dropped.
    let e = election_of(
        &["alice", "bob", "charlie"],
        &[
            vec!["alice", "bob", "charlie"],
            vec!["bob", "charlie", "alice"],
            vec!["charlie", "alice", "bob"],
        ],
    );
    assert_eq!(e.tideman(), Some("charlie".to_string()));
}

#[test]
fn all_ties_resolve_to_last_candidate() {
    let e = election_of(&["alice", "bob", "charlie"], &[]);
    assert_eq!(e.tideman(), Some("charlie".to_string()));
    let e = election_of(
        &["alice", "bob", "charlie"],
        &[vec!["alice", "bob", "charlie"], vec!["charlie", "bob", "alice"]],
    );
    assert_eq!(e.tideman(), Some("charlie".to_string()));
}

#[test]
fn each_pair_has_one_edge() {
    let e = election_of(
        &["a", "b", "c", "d"],
        &[vec!["d", "c", "b", "a"], vec!["b", "a", "d", "c"]],
    );
    let edges = e.get_edges();
    assert_eq!(edges.len(), 6);
    for i in 0..4 {
        for j in (i + 1)..4 {
            let n = edges
                .iter()
                .filter(|Edge(x, y, _)| (x.0 == i && y.0 == j) || (x.0 == j && y.0 == i))
                .count();
            assert_eq!(n, 1);
        }
    }
}

#[test]
fn two_candidates_one_ballot() {
    let e = election_of(&["bilbo", "oboe"], &[vec!["oboe", "bilbo"]]);
    assert_eq!(e.tideman(), Some("oboe".to_string()));
}

#[test]
fn no_candidates_no_winner() {
    let e = Election {
        candidates: Vec::new(),
        ballots: Vec::new(),
    };
    assert_eq!(e.tideman(), None);
}

#[test]
fn dfs_follows_directed_edges() {
    let g = Graph {
        v: vec![Vertex(0), Vertex(1), Vertex(2), Vertex(3)],
        e: vec![Edge(Vertex(0), Vertex(1), 1), Edge(Vertex(1), Vertex(2), 1)],
    };
    assert!(g.dfs(&Vertex(0), &Vertex(2)));
    assert!(!g.dfs(&Vertex(2), &Vertex(0)));
    assert!(g.dfs(&Vertex(3), &Vertex(3)));
    assert!(!g.dfs(&Vertex(0), &Vertex(3)));
    assert_eq!(g.neighbors(&Vertex(1)), vec![Vertex(2)]);
    assert_eq!(g.source(), Some(&Vertex(0)));
}

#[test]
fn source_is_none_when_every_vertex_is_entered() {
    let g = Graph {
        v: vec![Vertex(0), Vertex(1)],
        e: vec![Edge(Vertex(0), Vertex(1), 1), Edge(Vertex(1), Vertex(0), 1)],
    };
    assert_eq!(g.source(), None);
}
