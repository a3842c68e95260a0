//! Word ladders: the cost model of a step between two words, and four
//! search strategies over it.
pub mod path;
pub mod search;
pub mod word;

use crate::distance::path::{seq_add, zero_seq, PathMultiCost};
use crate::distance::path::{
    lemma_cmp_equal_iff, lemma_cmp_flip_from, lex_le, lex_lt, BUCKET_MAX, MAX_DIMENSION,
};
use crate::distance::search::{
    best_first, bounded_cost, cheapest, lemma_walk_cost_len_pub, cheapest_any, fringe, lemma_cheapest_in_small_graphs, roomy, is_ladder, iterative_deepening, ladder_cost, same_word, step,
    unsaturated, walk_cost, words_view,
};
use crate::distance::word::{levenshtein, step_cost_of};
use vstd::prelude::*;

verus! {

/// The search strategy of `find_shortest_path`.
#[derive(Clone, Copy, Debug, PartialEq, Eq, Structural)]
pub enum PathFindingAlgorithm {
    /// Best-first search guided by the edit distance to the target.
    Astar,
    /// Fringe search: threshold rounds over a `now` and a `later` list.
    Fringe,
    /// Iterative-deepening depth-first search.
    Idastar,
    /// Uniform-cost search, with no heuristic.
    Dijkstra,
}

impl PathFindingAlgorithm {
    /// The strategy named `s`, if any.
    pub open spec fn from_name_spec(s: Seq<char>) -> Option<PathFindingAlgorithm> {
        if s == "astar"@ {
            Some(PathFindingAlgorithm::Astar)
        } else if s == "fringe"@ {
            Some(PathFindingAlgorithm::Fringe)
        } else if s == "idastar"@ {
            Some(PathFindingAlgorithm::Idastar)
        } else if s == "dijkstra"@ {
            Some(PathFindingAlgorithm::Dijkstra)
        } else {
            None
        }
    }

    /// The strategy's name, as `from_name` reads it.
    pub fn name(&self) -> (r: &'static str)
        ensures
            *self == PathFindingAlgorithm::Astar ==> r@ == "astar"@,
            *self == PathFindingAlgorithm::Fringe ==> r@ == "fringe"@,
            *self == PathFindingAlgorithm::Idastar ==> r@ == "idastar"@,
            *self == PathFindingAlgorithm::Dijkstra ==> r@ == "dijkstra"@,
            PathFindingAlgorithm::from_name_spec(r@) == Some(*self),
    {
        proof {
            reveal_strlit("astar");
            reveal_strlit("fringe");
            reveal_strlit("idastar");
            reveal_strlit("dijkstra");
            assert("astar"@.len() == 5);
            assert("fringe"@.len() == 6);
            assert("idastar"@.len() == 7);
            assert("dijkstra"@.len() == 8);
        }
        match self {
            PathFindingAlgorithm::Astar => "astar",
            PathFindingAlgorithm::Fringe => "fringe",
            PathFindingAlgorithm::Idastar => "idastar",
            PathFindingAlgorithm::Dijkstra => "dijkstra",
        }
    }

    /// The strategy named `s`, if any.
    pub fn from_name(s: &str) -> (r: Option<PathFindingAlgorithm>)
        ensures
            s@ == "astar"@ ==> r == Some(PathFindingAlgorithm::Astar),
            s@ == "fringe"@ ==> r == Some(PathFindingAlgorithm::Fringe),
            s@ == "idastar"@ ==> r == Some(PathFindingAlgorithm::Idastar),
            s@ == "dijkstra"@ ==> r == Some(PathFindingAlgorithm::Dijkstra),
            r is None <==> (s@ != "astar"@ && s@ != "fringe"@ && s@ != "idastar"@ && s@
                != "dijkstra"@),
            r == PathFindingAlgorithm::from_name_spec(s@),
    {
        proof {
            reveal_strlit("astar");
            reveal_strlit("fringe");
            reveal_strlit("idastar");
            reveal_strlit("dijkstra");
            assert("astar"@.len() == 5);
            assert("fringe"@.len() == 6);
            assert("idastar"@.len() == 7);
            assert("dijkstra"@.len() == 8);
        }
        if same_word(s, "astar") {
            Some(PathFindingAlgorithm::Astar)
        } else if same_word(s, "fringe") {
            Some(PathFindingAlgorithm::Fringe)
        } else if same_word(s, "idastar") {
            Some(PathFindingAlgorithm::Idastar)
        } else if same_word(s, "dijkstra") {
            Some(PathFindingAlgorithm::Dijkstra)
        } else {
            None
        }
    }
}

impl std::str::FromStr for PathFindingAlgorithm {
    type Err = ();

    fn from_str(s: &str) -> (r: Result<PathFindingAlgorithm, ()>)
        ensures
            r == match PathFindingAlgorithm::from_name_spec(s@) {
                Some(a) => Ok(a),
                None => Err(()),
            },
    {
        match PathFindingAlgorithm::from_name(s) {
            Some(a) => Ok(a),
            None => Err(()),
        }
    }
}

/// The cost accumulated along the word chain `ws`, starting from `base`:
/// the sum of the step costs of consecutive words.
pub open spec fn chain_cost(base: Seq<u8>, ws: Seq<Seq<char>>) -> Seq<u8>
    decreases ws.len(),
{
    if ws.len() <= 1 {
        base
    } else {
        chain_cost(seq_add(base, step_cost_of(levenshtein(ws[0], ws[1]))), ws.drop_first())
    }
}

/// A search result with its words and cost as mathematical values.
pub open spec fn result_view(r: Option<(Vec<&str>, PathMultiCost)>) -> Option<(Seq<Seq<char>>, Seq<u8>)> {
    match r {
        Some((p, c)) => Some((chain_view(p@), c@)),
        None => None,
    }
}

/// What a ladder search from `start` to `stop` over `words` returns: the
/// one-word ladder at no cost when `start` is `stop`; else a ladder from
/// `start` to `stop` through words of `words`, with the sum of its step
/// costs; nothing only when `stop` is neither `start` nor in `words`.
pub open spec fn ladder_outcome(
    start: Seq<char>,
    stop: Seq<char>,
    words: Seq<Seq<char>>,
    r: Option<(Seq<Seq<char>>, Seq<u8>)>,
) -> bool {
    &&& start == stop ==> (r matches Some((p, c)) && p == seq![start] && c == zero_seq())
    &&& match r {
        Some((p, c)) => {
            &&& p.len() >= 1
            &&& p[0] == start
            &&& p.last() == stop
            &&& forall|i: int| 1 <= i < p.len() ==> words.contains(#[trigger] p[i])
            &&& c == chain_cost(zero_seq(), p)
        },
        None => start != stop && !words.contains(stop),
    }
}

/// `c` is at most the cost of every word ladder from `start` to `stop`
/// through `words` whose cost is bounded as `bounded_cost` says.
pub open spec fn cheapest_chain(
    start: Seq<char>,
    stop: Seq<char>,
    words: Seq<Seq<char>>,
    c: Seq<u8>,
    informed: bool,
) -> bool {
    forall|ws: Seq<Seq<char>>|
        ws.len() >= 1 && ws[0] == start && ws.last() == stop && (forall|i: int|
            1 <= i < ws.len() ==> words.contains(#[trigger] ws[i])) && bounded_cost(
            #[trigger] chain_cost(zero_seq(), ws),
            informed,
        ) ==> lex_le(c, chain_cost(zero_seq(), ws))
}

/// All strategies report "not found" together: any two results that meet
/// the search contract on the same inputs are both absent or both present,
/// and absent exactly when `stop` is neither `start` nor among `words`.
pub proof fn lemma_strategies_agree_on_not_found(
    start: Seq<char>,
    stop: Seq<char>,
    words: Seq<Seq<char>>,
    r1: Option<(Seq<Seq<char>>, Seq<u8>)>,
    r2: Option<(Seq<Seq<char>>, Seq<u8>)>,
)
    requires
        ladder_outcome(start, stop, words, r1),
        ladder_outcome(start, stop, words, r2),
    ensures
        r1 is None <==> r2 is None,
        r1 is None <==> (start != stop && !words.contains(stop)),
{
    if let Some((p, c)) = r1 {
        if p.len() > 1 {
            assert(words.contains(p[p.len() - 1]));
        }
    }
    if let Some((p, c)) = r2 {
        if p.len() > 1 {
            assert(words.contains(p[p.len() - 1]));
        }
    }
}

proof fn lemma_chain_cost_len(base: Seq<u8>, ws: Seq<Seq<char>>)
    requires
        base.len() == MAX_DIMENSION,
    ensures
        chain_cost(base, ws).len() == MAX_DIMENSION,
    decreases ws.len(),
{
    if ws.len() > 1 {
        lemma_chain_cost_len(
            seq_add(base, step_cost_of(levenshtein(ws[0], ws[1]))),
            ws.drop_first(),
        );
    }
}

/// All strategies find ladders of the same cost: two results that meet the
/// search contract on the same inputs, each no dearer than any ladder with
/// room for the estimate, are both absent or both present, and have equal
/// costs when both costs leave that room.
pub proof fn lemma_strategies_agree_on_cost(
    start: Seq<char>,
    stop: Seq<char>,
    words: Seq<Seq<char>>,
    r1: Option<(Seq<Seq<char>>, Seq<u8>)>,
    r2: Option<(Seq<Seq<char>>, Seq<u8>)>,
)
    requires
        ladder_outcome(start, stop, words, r1),
        ladder_outcome(start, stop, words, r2),
        r1 matches Some((p, c)) ==> cheapest_chain(start, stop, words, c, true),
        r2 matches Some((p, c)) ==> cheapest_chain(start, stop, words, c, true),
    ensures
        r1 is None <==> r2 is None,
        match (r1, r2) {
            (Some((ladder1, c1)), Some((ladder2, c2))) => roomy(c1) && roomy(c2) ==> c1 == c2,
            _ => true,
        },
{
    lemma_strategies_agree_on_not_found(start, stop, words, r1, r2);
    if let Some((ladder1, c1)) = r1 {
        if let Some((ladder2, c2)) = r2 {
            if roomy(c1) && roomy(c2) {
                lemma_chain_cost_len(zero_seq(), ladder1);
                lemma_chain_cost_len(zero_seq(), ladder2);
                assert(bounded_cost(chain_cost(zero_seq(), ladder1), true));
                assert(bounded_cost(chain_cost(zero_seq(), ladder2), true));
                assert(lex_le(c1, c2));
                assert(lex_le(c2, c1));
                lemma_cmp_flip_from(c1, c2, 0);
                lemma_cmp_equal_iff(c1, c2, 0);
            }
        }
    }
}

/// The words of a chain as character sequences.
pub open spec fn chain_view(p: Seq<&str>) -> Seq<Seq<char>> {
    p.map_values(|s: &str| s@)
}

proof fn lemma_chain_cost(w: Seq<Seq<char>>, base: Seq<u8>, p: Seq<usize>)
    requires
        forall|i: int| 0 <= i < p.len() ==> #[trigger] p[i] < w.len(),
    ensures
        walk_cost(w, base, p) == chain_cost(base, p.map_values(|i: usize| w[i as int])),
    decreases p.len(),
{
    let ws = p.map_values(|i: usize| w[i as int]);
    if p.len() > 1 {
        assert(ws.drop_first() =~= p.drop_first().map_values(|i: usize| w[i as int]));
        lemma_chain_cost(w, seq_add(base, step(w, p[0] as int, p[1] as int)), p.drop_first());
    }
}

/// The node ladder over `start, wv...` that spells the word chain `ws`.
proof fn lemma_ladder_of_chain(
    start: Seq<char>,
    stop: Seq<char>,
    wv: Seq<Seq<char>>,
    ws: Seq<Seq<char>>,
) -> (q: Seq<usize>)
    requires
        wv.len() < usize::MAX,
        ws.len() >= 1,
        ws[0] == start,
        ws.last() == stop,
        forall|i: int| 1 <= i < ws.len() ==> wv.contains(#[trigger] ws[i]),
    ensures
        is_ladder(seq![start] + wv, stop, q),
        ladder_cost(seq![start] + wv, q) == chain_cost(zero_seq(), ws),
{
    let w = seq![start] + wv;
    let q = Seq::new(
        ws.len(),
        |i: int|
            if i == 0 {
                0usize
            } else {
                ((choose|j: int| 0 <= j < wv.len() && wv[j] == ws[i]) + 1) as usize
            },
    );
    assert forall|i: int| 1 <= i < q.len() implies 1 <= #[trigger] q[i] < w.len() && w[q[i] as int]
        == ws[i] by {
        assert(wv.contains(ws[i]));
        let j = choose|j: int| 0 <= j < wv.len() && wv[j] == ws[i];
        assert(q[i] == j + 1);
        assert(w[j + 1] == wv[j]);
    }
    assert(q.map_values(|i: usize| w[i as int]) =~= ws);
    lemma_chain_cost(w, zero_seq(), q);
    q
}

/// The words of the node ladder `q` over the node words `w`.
pub open spec fn spelled(w: Seq<Seq<char>>, q: Seq<usize>) -> Seq<Seq<char>> {
    q.map_values(|i: usize| w[i as int])
}

/// The node words of a search from `start` over `words`: the start word,
/// then each candidate in order.
pub open spec fn graph_words(start: Seq<char>, words: Seq<Seq<char>>) -> Seq<Seq<char>> {
    seq![start] + words
}

/// `l` is the one cheapest ladder: it repeats no node, its cost leaves room
/// for the estimate, and every other ladder without repeated nodes costs
/// strictly more.
pub open spec fn strictly_cheapest(w: Seq<Seq<char>>, target: Seq<char>, l: Seq<usize>) -> bool {
    &&& is_ladder(w, target, l)
    &&& l.no_duplicates()
    &&& roomy(ladder_cost(w, l))
    &&& forall|q: Seq<usize>|
        is_ladder(w, target, q) && q.no_duplicates() && q != l ==> lex_lt(
            ladder_cost(w, l),
            #[trigger] ladder_cost(w, q),
        )
}

/// A cost no dearer than every ladder over the nodes `start, words...` is no
/// dearer than every word chain from `start` through `words`.
proof fn lemma_lift_cheapest(
    start: Seq<char>,
    stop: Seq<char>,
    wv: Seq<Seq<char>>,
    c: Seq<u8>,
    informed: bool,
)
    requires
        cheapest(seq![start] + wv, stop, c, informed),
        wv.len() < usize::MAX,
    ensures
        cheapest_chain(start, stop, wv, c, informed),
{
    assert forall|ws: Seq<Seq<char>>|
        ws.len() >= 1 && ws[0] == start && ws.last() == stop && (forall|i: int|
            1 <= i < ws.len() ==> wv.contains(#[trigger] ws[i])) && bounded_cost(
            #[trigger] chain_cost(zero_seq(), ws),
            informed,
        ) implies lex_le(c, chain_cost(zero_seq(), ws)) by {
        let q = lemma_ladder_of_chain(start, stop, wv, ws);
    }
}

/// `c` is at most the cost of every word chain from `start` to `stop`
/// through `words`.
pub open spec fn cheapest_chain_any(
    start: Seq<char>,
    stop: Seq<char>,
    words: Seq<Seq<char>>,
    c: Seq<u8>,
) -> bool {
    forall|ws: Seq<Seq<char>>|
        ws.len() >= 1 && ws[0] == start && ws.last() == stop && (forall|i: int|
            1 <= i < ws.len() ==> words.contains(#[trigger] ws[i])) ==> lex_le(
            c,
            #[trigger] chain_cost(zero_seq(), ws),
        )
}

proof fn lemma_lift_cheapest_any(start: Seq<char>, stop: Seq<char>, wv: Seq<Seq<char>>, c: Seq<u8>)
    requires
        cheapest_any(seq![start] + wv, stop, c),
        wv.len() < usize::MAX,
    ensures
        cheapest_chain_any(start, stop, wv, c),
{
    assert forall|ws: Seq<Seq<char>>|
        ws.len() >= 1 && ws[0] == start && ws.last() == stop && (forall|i: int|
            1 <= i < ws.len() ==> wv.contains(#[trigger] ws[i])) implies lex_le(
        c,
        #[trigger] chain_cost(zero_seq(), ws),
    ) by {
        let q = lemma_ladder_of_chain(start, stop, wv, ws);
    }
}

/// Searches for a cheapest word ladder from `start` to `stop` whose later
/// words are taken from `words` (which should hold `stop`), with the given
/// strategy; every word of `words` may follow every word. The result is the
/// ladder, `start` and `stop` included, with the sum of its step costs; or
/// nothing, exactly when `stop` is neither `start` nor among `words`. The
/// ladder never uses a node twice (a position of `words`, or the start). It
/// is no dearer than any ladder whose cost leaves room for the edit-distance
/// estimate, and than any ladder at all when `words` holds fewer than
/// `BUCKET_MAX - MAX_DIMENSION - 1` words; that of uniform-cost search is no
/// dearer than any ladder whose cost does not saturate. When one ladder
/// without repeated nodes is strictly cheaper than all others, every
/// strategy returns exactly that ladder.
pub fn find_shortest_path<'a>(
    start: &'a str,
    stop: &str,
    words: &[&'a str],
    algorithm: &PathFindingAlgorithm,
) -> (r: Option<(Vec<&'a str>, PathMultiCost)>)
    requires
        words@.len() < usize::MAX,
    ensures
        ladder_outcome(start@, stop@, chain_view(words@), result_view(r)),
        *algorithm == PathFindingAlgorithm::Dijkstra ==> (r matches Some((p, c)) ==> cheapest_chain(
            start@,
            stop@,
            chain_view(words@),
            c@,
            false,
        )),
        r matches Some((p, c)) ==> cheapest_chain(start@, stop@, chain_view(words@), c@, true),
        r matches Some((p, c)) ==> exists|q: Seq<usize>|
            is_ladder(graph_words(start@, chain_view(words@)), stop@, q) && q.no_duplicates()
                && chain_view(p@) == #[trigger] spelled(graph_words(start@, chain_view(words@)), q),
        forall|l: Seq<usize>|
            #[trigger] strictly_cheapest(graph_words(start@, chain_view(words@)), stop@, l) ==> (r matches Some(
                (p, c),
            ) && chain_view(p@) == spelled(graph_words(start@, chain_view(words@)), l) && c@
                == ladder_cost(graph_words(start@, chain_view(words@)), l)),
        words@.len() + MAX_DIMENSION + 1 < BUCKET_MAX ==> (r matches Some((p, c)) ==> cheapest_chain_any(
            start@,
            stop@,
            chain_view(words@),
            c@,
        )),
{
    let mut nodes: Vec<&'a str> = Vec::new();
    nodes.push(start);
    let mut k: usize = 0;
    while k < words.len()
        invariant
            0 <= k <= words@.len(),
            nodes@.len() == k + 1,
            nodes@[0] == start,
            forall|j: int| 0 <= j < k ==> nodes@[j + 1] == words@[j],
        decreases words@.len() - k,
    {
        nodes.push(words[k]);
        k = k + 1;
    }
    let ghost w = words_view(nodes@);
    let found = match algorithm {
        PathFindingAlgorithm::Astar => best_first(&nodes, stop, true),
        PathFindingAlgorithm::Dijkstra => best_first(&nodes, stop, false),
        PathFindingAlgorithm::Idastar => iterative_deepening(&nodes, stop),
        PathFindingAlgorithm::Fringe => fringe(&nodes, stop),
    };
    proof {
        if let Some((ref p, c)) = found {
            if *algorithm == PathFindingAlgorithm::Dijkstra {
                assert forall|q: Seq<usize>|
                    is_ladder(w, stop@, q) && bounded_cost(#[trigger] ladder_cost(w, q), true) implies lex_le(
                    c@,
                    ladder_cost(w, q),
                ) by {
                    assert(bounded_cost(ladder_cost(w, q), false));
                }
            }
            assert(cheapest(w, stop@, c@, true));
            assert(p@.no_duplicates());
        }
    }
    match found {
        None => {
            proof {
                assert(w =~= graph_words(start@, chain_view(words@)));
                assert forall|l: Seq<usize>|
                    #[trigger] strictly_cheapest(graph_words(start@, chain_view(words@)), stop@, l) implies false by {
                    assert(w[l.last() as int] == stop@);
                    if l.len() > 1 {
                        assert(1 <= l[l.len() - 1] < w.len());
                    }
                }
                assert forall|j: int| 0 <= j < words@.len() implies #[trigger] words@[j]@ != stop@ by {
                    assert(w[j + 1] == nodes@[j + 1]@);
                }
                assert(w[0] == start@);
                if chain_view(words@).contains(stop@) {
                    let j = choose|j: int| 0 <= j < words@.len() && chain_view(words@)[j] == stop@;
                    assert(words@[j]@ == stop@);
                }
            }
            None
        },
        Some((p, c)) => {
            let mut ladder: Vec<&'a str> = Vec::new();
            let mut i: usize = 0;
            while i < p.len()
                invariant
                    0 <= i <= p@.len(),
                    is_ladder(w, stop@, p@),
                    w == words_view(nodes@),
                    nodes@.len() == words@.len() + 1,
                    ladder@.len() == i,
                    forall|j: int| 0 <= j < i ==> #[trigger] ladder@[j] == nodes@[p@[j] as int],
                decreases p@.len() - i,
            {
                ladder.push(nodes[p[i]]);
                i = i + 1;
            }
            proof {
                let ws = p@.map_values(|i: usize| w[i as int]);
                assert(chain_view(ladder@) =~= ws);
                lemma_chain_cost(w, zero_seq(), p@);
                assert forall|i: int| 1 <= i < ladder@.len() implies chain_view(words@).contains(
                    #[trigger] chain_view(ladder@)[i],
                ) by {
                    let v = p@[i] as int;
                    assert(1 <= p@[i] < w.len());
                    assert(ladder@[i] == nodes@[v]);
                    assert(words@[v - 1] == nodes@[v]);
                    assert(chain_view(words@)[v - 1] == chain_view(ladder@)[i]);
                }
                assert(w =~= seq![start@] + chain_view(words@));
                lemma_lift_cheapest(start@, stop@, chain_view(words@), c@, true);
                assert(w =~= graph_words(start@, chain_view(words@)));
                assert(chain_view(ladder@) == spelled(w, p@));
                assert forall|l: Seq<usize>|
                    #[trigger] strictly_cheapest(graph_words(start@, chain_view(words@)), stop@, l) implies p@ == l by {
                    lemma_walk_cost_len_pub(w, p@);
                    lemma_walk_cost_len_pub(w, l);
                    assert(bounded_cost(ladder_cost(w, l), true));
                    assert(lex_le(c@, ladder_cost(w, l)));
                    if p@ != l {
                        assert(lex_lt(ladder_cost(w, l), ladder_cost(w, p@)));
                        lemma_cmp_flip_from(ladder_cost(w, l), c@, 0);
                    }
                }
                if *algorithm == PathFindingAlgorithm::Dijkstra {
                    lemma_lift_cheapest(start@, stop@, chain_view(words@), c@, false);
                }
                if words@.len() + MAX_DIMENSION + 1 < BUCKET_MAX {
                    lemma_cheapest_in_small_graphs(w, stop@, c@);
                    lemma_lift_cheapest_any(start@, stop@, chain_view(words@), c@);
                }
                if start@ == stop@ {
                    assert(p@ == seq![0usize]);
                    assert(chain_view(ladder@) =~= seq![start@]);
                }
            }
            Some((ladder, c))
        },
    }
}

} // verus!
