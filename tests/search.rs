use typos::distance::path::{EditDistance, PathMultiCost, MAX_DIMENSION};
use typos::distance::word::{edit_distance, path_cost};
use typos::distance::{find_shortest_path, PathFindingAlgorithm};

const ALL: [PathFindingAlgorithm; 4] = [
    PathFindingAlgorithm::Astar,
    PathFindingAlgorithm::Fringe,
    PathFindingAlgorithm::Idastar,
    PathFindingAlgorithm::Dijkstra,
];

fn test_compare<'a>(
    start: &'a str,
    stop: &'a str,
    mut words: Vec<&'a str>,
    expected: (Vec<&str>, Vec<(EditDistance, usize)>),
) {
    words.insert(0, stop);
    let (expected_path, expected_cost) = expected;
    for alg in ALL.iter() {
        match find_shortest_path(start, stop, words.as_slice(), alg) {
            Some((path, cost)) => {
                assert_eq!(path, expected_path, "{}", alg.name());
                assert_eq!(cost.get_cost(), expected_cost, "{}", alg.name());
            }
            None => panic!("no path found"),
        }
    }
}

#[test]
fn identity() {
    test_compare("adrien", "adrien", vec![], (vec!["adrien"], vec![]));
}

#[test]
fn path_with_two_words() {
    test_compare(
        "banane",
        "banana",
        vec!["table", "chaise", "tabouret", "assiette"],
        (vec!["banane", "banana"], vec![(1, 1)]),
    );
}

#[test]
fn long_words() {
    test_compare(
        "abracadabrantesques",
        "petit",
        vec!["abracadabra"],
        (
            vec!["abracadabrantesques", "abracadabra", "petit"],
            vec![(1, 11), (1, 8)],
        ),
    );
}

#[test]
fn integration() {
    test_compare(
        "banane",
        "ano",
        vec!["banan", "table", "chaise", "lit", "banon"],
        (vec!["banane", "banan", "banon", "ano"], vec![(1, 2), (2, 1)]),
    );
}

#[test]
fn identity_without_candidates_reports_zero_cost() {
    for alg in ALL.iter() {
        let (path, cost) = find_shortest_path("adrien", "adrien", &[], alg).unwrap();
        assert_eq!(path, vec!["adrien"]);
        assert!(cost.is_zero());
        assert_eq!(cost.describe(), "0 mutation");
    }
}

#[test]
fn reported_costs_read_most_significant_first() {
    for alg in ALL.iter() {
        let words = ["banana", "table", "chaise", "tabouret", "assiette"];
        let (_, cost) = find_shortest_path("banane", "banana", &words, alg).unwrap();
        assert_eq!(cost.describe(), "1 1-letter mutation");
        let words = ["ano", "banan", "table", "chaise", "lit", "banon"];
        let (_, cost) = find_shortest_path("banane", "ano", &words, alg).unwrap();
        assert_eq!(cost.describe(), "1 2-letter mutation + 2 1-letter mutation");
    }
}

#[test]
fn missing_target_is_not_found_by_every_algorithm() {
    for alg in ALL.iter() {
        assert!(find_shortest_path("banane", "ano", &["banan", "banon"], alg).is_none());
        assert!(find_shortest_path("banane", "ano", &[], alg).is_none());
    }
}

#[test]
fn algorithms_agree_on_paths_and_costs() {
    let cases: Vec<(&str, &str, Vec<&str>)> = vec![
        ("adrien", "adr", vec!["adr", "adri", "adrie", "drien"]),
        ("table", "cable", vec!["cable", "fable", "able", "tale", "cable"]),
        ("aaaa", "bbbb", vec!["bbbb", "abaa", "abba", "abbb", "zzzz"]),
        ("x", "abcdefghijklmnopqrstuvwxy", vec!["abcdefghijklmnopqrstuvwxy", "abcdefghij"]),
    ];
    for (start, stop, words) in cases.iter() {
        let reference = find_shortest_path(start, stop, words, &PathFindingAlgorithm::Dijkstra)
            .unwrap();
        for alg in ALL.iter() {
            let (path, cost) = find_shortest_path(start, stop, words, alg).unwrap();
            assert_eq!(cost, reference.1, "{} {} {}", alg.name(), start, stop);
            assert_eq!(path, reference.0, "{} {} {}", alg.name(), start, stop);
            // The cost is the sum of the steps along the ladder.
            let mut total = PathMultiCost::zero();
            for pair in path.windows(2) {
                total = total + path_cost(pair[0], pair[1]);
            }
            assert_eq!(total, cost);
            assert_eq!(path[0], *start);
            assert_eq!(path[path.len() - 1], *stop);
        }
    }
}

#[test]
fn algorithms_agree_on_costs_when_ladders_tie() {
    // cat -> cot -> cog -> dog and cat -> cot -> dot -> dog cost the same.
    let words = vec!["dog", "cot", "cog", "dot", "cat", "bat"];
    for alg in ALL.iter() {
        let (path, cost) = find_shortest_path("cat", "dog", &words, alg).unwrap();
        assert_eq!(cost.get_cost(), vec![(3, 1)], "{}", alg.name());
        assert_eq!(path.len(), 4);
        assert_eq!(path[1], "cot");
    }
}

#[test]
fn costs_render_most_significant_first() {
    assert_eq!(PathMultiCost::zero().describe(), "0 mutation");
    assert_eq!(PathMultiCost::new(1, 0).describe(), "1 1-letter mutation");
    let c = PathMultiCost::new(1, 1) + PathMultiCost::new(2, 0);
    assert_eq!(c.describe(), "1 2-letter mutation + 2 1-letter mutation");
    let c = PathMultiCost::new(255, MAX_DIMENSION - 1) + PathMultiCost::new(10, 0);
    assert_eq!(c.describe(), "255 20-letter mutation + 10 1-letter mutation");
}

#[test]
fn edits_beyond_the_bucket_count_land_in_the_top_bucket() {
    let stop = "abcdefghijklmnopqrstuvwxyz";
    for alg in ALL.iter() {
        let (path, cost) = find_shortest_path("", stop, &[stop], alg).unwrap();
        assert_eq!(path, vec!["", stop]);
        assert_eq!(cost.get_cost(), vec![(1, MAX_DIMENSION)]);
    }
}

#[test]
fn algorithm_names_round_trip() {
    for alg in ALL.iter() {
        assert_eq!(PathFindingAlgorithm::from_name(alg.name()), Some(*alg));
        assert_eq!(alg.name().parse::<PathFindingAlgorithm>(), Ok(*alg));
    }
    assert_eq!(PathFindingAlgorithm::from_name("bfs"), None);
    assert!("".parse::<PathFindingAlgorithm>().is_err());
}

#[test]
fn heuristic_never_exceeds_a_single_step() {
    assert!(edit_distance("banane", "ano") <= path_cost("banane", "ano"));
}

#[test]
fn ladders_do_not_repeat_words_with_duplicate_candidates() {
    let words = ["banana", "banana", "table", "banana"];
    for alg in ALL.iter() {
        let (path, cost) = find_shortest_path("banane", "banana", &words, alg).unwrap();
        assert_eq!(path, vec!["banane", "banana"], "{}", alg.name());
        assert_eq!(cost.describe(), "1 1-letter mutation");
    }
}
