use pathfinding::directed::{astar, dijkstra, fringe, idastar};
use std::ops::Add;
use typos::distance::path::PathMultiCost;
use typos::distance::word::{edit_distance, path_cost};
use typos::distance::{find_shortest_path, PathFindingAlgorithm};

#[derive(Clone, Copy, Debug, PartialEq, Eq, PartialOrd, Ord)]
struct Cost(PathMultiCost);

impl Add for Cost {
    type Output = Cost;
    fn add(self, rhs: Cost) -> Cost {
        Cost(self.0 + rhs.0)
    }
}

impl num_traits::Zero for Cost {
    fn zero() -> Cost {
        Cost(PathMultiCost::zero())
    }
    fn is_zero(&self) -> bool {
        self.0.is_zero()
    }
}

impl num_traits::Bounded for Cost {
    fn min_value() -> Cost {
        Cost(PathMultiCost::min_value())
    }
    fn max_value() -> Cost {
        Cost(PathMultiCost { data: [255; 20] })
    }
}

fn outside<'a>(
    start: &'a str,
    stop: &'a str,
    words: &[&'a str],
    alg: &PathFindingAlgorithm,
) -> Option<(Vec<&'a str>, Cost)> {
    let succ = |w: &&'a str| {
        let w = *w;
        words.iter().map(move |s| (*s, Cost(path_cost(w, s)))).collect::<Vec<_>>()
    };
    let heur = |w: &&'a str| Cost(edit_distance(w, stop));
    let done = |w: &&'a str| *w == stop;
    match alg {
        PathFindingAlgorithm::Astar => astar::astar(&start, succ, heur, done),
        PathFindingAlgorithm::Fringe => fringe::fringe(&start, succ, heur, done),
        PathFindingAlgorithm::Idastar => idastar::idastar(&start, succ, heur, done),
        PathFindingAlgorithm::Dijkstra => dijkstra::dijkstra(&start, succ, done),
    }
}

#[test]
fn costs_match_the_pathfinding_crate() {
    let cases: Vec<(&str, &str, Vec<&str>)> = vec![
        ("banane", "ano", vec!["ano", "banan", "table", "chaise", "lit", "banon"]),
        ("banane", "banana", vec!["banana", "table", "chaise", "tabouret", "assiette"]),
        ("cat", "dog", vec!["dog", "cot", "cog", "dot", "bat"]),
        ("adrien", "adr", vec!["adr", "adri", "adrie", "drien"]),
    ];
    let algs = [
        PathFindingAlgorithm::Astar,
        PathFindingAlgorithm::Fringe,
        PathFindingAlgorithm::Idastar,
        PathFindingAlgorithm::Dijkstra,
    ];
    for (start, stop, words) in cases.iter() {
        for alg in algs.iter() {
            let ours = find_shortest_path(start, stop, words, alg).unwrap();
            let theirs = outside(start, stop, words, alg).unwrap();
            assert_eq!(ours.1, theirs.1 .0, "{} {} {}", alg.name(), start, stop);
            assert_eq!(ours.0.len(), theirs.0.len(), "{} {} {}", alg.name(), start, stop);
        }
    }
}
