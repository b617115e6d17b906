use psets::plurality::{plurality, Tally};
use psets::runoff::{runoff, Ballot, Candidates};

#[test]
fn test_plurality() {
    let mut test_cases = [
        (
            vec![("alice", 1), ("bob", 1), ("charlie", 1)],
            vec!["alice", "bob", "charlie"],
        ),
        (
            vec![("alice", 1), ("bob", 2), ("charlie", 1), ("david", 0)],
            vec!["bob"],
        ),
        (
            vec![("alice", 0), ("bob", 199), ("charlie", 200)],
            vec!["charlie"],
        ),
    ];

    for (input, expected) in test_cases.iter_mut() {
        let mut election: Tally = Tally::new();
        for (candidate, votes) in input.iter() {
            election.push((candidate.to_string(), *votes));
        }
        let mut winners = plurality(election);
        let mut expected: Vec<String> = expected.iter().map(|s| s.to_string()).collect();
        winners.sort();
        expected.sort();
        assert_eq!(winners, expected);
    }
}

#[test]
fn plurality_keeps_tally_order() {
    let election: Tally = vec![("zoe".to_string(), 3), ("amy".to_string(), 3), ("bo".to_string(), 2)];
    assert_eq!(plurality(election), vec!["zoe".to_string(), "amy".to_string()]);
    let election: Tally = vec![("solo".to_string(), 0)];
    assert_eq!(plurality(election), vec!["solo".to_string()]);
}

#[test]
fn test_runoff() {
    let mut test_cases = [
        (
            vec!["alice", "bob", "charlie"],
            vec![
                vec!["alice", "bob", "charlie"],
                vec!["alice", "charlie", "bob"],
                vec!["bob", "charlie", "alice"],
                vec!["bob", "alice", "charlie"],
                vec!["charlie", "alice", "bob"],
            ],
            vec!["alice"],
        ),
        (
            vec!["alice", "bob", "charlie"],
            vec![
                vec!["alice", "bob", "charlie"],
                vec!["alice", "bob", "charlie"],
                vec!["bob", "alice", "charlie"],
                vec!["bob", "alice", "charlie"],
                vec!["bob", "alice", "charlie"],
                vec!["charlie", "alice", "bob"],
                vec!["charlie", "alice", "bob"],
                vec!["charlie", "bob", "alice"],
                vec!["charlie", "bob", "alice"],
            ],
            vec!["bob"],
        ),
        (
            vec!["Schmumphert", "Gilliamsville"],
            vec![
                vec!["Gilliamsville", "Schmumphert"],
                vec!["Gilliamsville", "Schmumphert"],
                vec!["Schmumphert", "Gilliamsville"],
                vec!["Schmumphert", "Gilliamsville"],
            ],
            vec!["Schmumphert", "Gilliamsville"],
        ),
    ];

    for (candidates_test, ballots_test, expected) in test_cases.iter_mut() {
        let mut candidates: Candidates = Vec::new();
        for candidate in candidates_test {
            candidates.push((candidate.to_string(), false));
        }

        let ballots: Vec<Ballot> = ballots_test
            .iter()
            .map(|ballot| ballot.iter().map(|s| s.to_string()).collect())
            .collect();

        let mut expected: Vec<String> = expected.iter().map(|s| s.to_string()).collect();

        let mut winners = runoff(candidates, ballots);
        winners.sort();
        expected.sort();
        assert_eq!(winners, expected);
    }
}

#[test]
fn runoff_without_ballots_has_no_winner() {
    let candidates: Candidates = vec![("a".to_string(), false), ("b".to_string(), false)];
    assert!(runoff(candidates, Vec::new()).is_empty());
}

#[test]
fn runoff_majority_in_first_round() {
    let candidates: Candidates = vec![("a".to_string(), false), ("b".to_string(), false)];
    let ballots: Vec<Ballot> = vec![
        vec!["b".to_string(), "a".to_string()],
        vec!["b".to_string(), "a".to_string()],
        vec!["a".to_string(), "b".to_string()],
    ];
    assert_eq!(runoff(candidates, ballots), vec!["b".to_string()]);
}

#[test]
fn runoff_three_way_tie_leaves_no_winner() {
    let candidates: Candidates = vec![
        ("alice".to_string(), false),
        ("bob".to_string(), false),
        ("charlie".to_string(), false),
    ];
    let ballot = |a: &str, b: &str, c: &str| -> Ballot { vec![a.to_string(), b.to_string(), c.to_string()] };
    let ballots = vec![
        ballot("alice", "bob", "charlie"),
        ballot("bob", "charlie", "alice"),
        ballot("charlie", "alice", "bob"),
    ];
    assert!(runoff(candidates, ballots).is_empty());
}
