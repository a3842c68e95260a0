//! Four searches for a word ladder over a complete graph of words: node 0
//! is the start word, and every candidate follows every node.
use crate::distance::path::{
    lemma_add_monotone_from, lemma_add_strict_from, lemma_add_zero, lemma_cmp_flip_from, lemma_cmp_reflexive_from,
    lemma_cmp_transitive_from, lemma_le_add_from, lemma_zero_le_from, lex_cmp_from, lex_le, lex_lt,
    seq_add, zero_seq, PathMultiCost, BUCKET_MAX, MAX_DIMENSION,
};
use std::cmp::Ordering;
use crate::distance::word::{
    distance_cost_of, edit_distance, levenshtein, path_cost,
    step_cost_of,
};
use vstd::arithmetic::power::pow;
use vstd::prelude::*;

verus! {

/// The words of a search graph as character sequences. Node 0 is the start
/// word; nodes `1..` are the candidates, each a successor of every node.
pub open spec fn words_view(nodes: Seq<&str>) -> Seq<Seq<char>> {
    nodes.map_values(|s: &str| s@)
}

/// Cost of the step from node `u` to node `v`.
pub open spec fn step(words: Seq<Seq<char>>, u: int, v: int) -> Seq<u8> {
    step_cost_of(levenshtein(words[u], words[v]))
}

/// The cost accumulated along `p`, starting from `base`.
pub open spec fn walk_cost(words: Seq<Seq<char>>, base: Seq<u8>, p: Seq<usize>) -> Seq<u8>
    decreases p.len(),
{
    if p.len() <= 1 {
        base
    } else {
        walk_cost(words, seq_add(base, step(words, p[0] as int, p[1] as int)), p.drop_first())
    }
}

/// The cost of the ladder `p`: the sum of its step costs.
pub open spec fn ladder_cost(words: Seq<Seq<char>>, p: Seq<usize>) -> Seq<u8> {
    walk_cost(words, zero_seq(), p)
}

/// `p` is a ladder from the start node to a node holding `target`, whose
/// later nodes are candidates.
pub open spec fn is_ladder(words: Seq<Seq<char>>, target: Seq<char>, p: Seq<usize>) -> bool {
    &&& p.len() >= 1
    &&& p[0] == 0
    &&& words[p.last() as int] == target
    &&& forall|i: int| 1 <= i < p.len() ==> 1 <= #[trigger] p[i] < words.len()
}

/// Some node of the graph holds the target word.
pub open spec fn target_present(words: Seq<Seq<char>>, target: Seq<char>) -> bool {
    exists|v: int| 0 <= v < words.len() && #[trigger] words[v] == target
}

/// What every search returns: a ladder and its cost whenever a node holds
/// the target (a ladder always exists then, since every candidate follows
/// every node), nothing otherwise; the one-node ladder when the start word
/// is the target.
pub open spec fn search_outcome(
    words: Seq<Seq<char>>,
    target: Seq<char>,
    r: Option<(Vec<usize>, PathMultiCost)>,
) -> bool {
    &&& words.len() >= 1 && words[0] == target ==> (r matches Some((p, c)) && p@ == seq![0usize]
        && c@ == zero_seq())
    &&& match r {
        Some((p, c)) => is_ladder(words, target, p@) && c@ == ladder_cost(words, p@),
        None => !target_present(words, target),
    }
}

/// No bucket of `c` has reached its maximum, so no addition that led to it
/// saturated.
pub open spec fn unsaturated(c: Seq<u8>) -> bool {
    forall|j: int| 0 <= j < c.len() ==> #[trigger] c[j] < BUCKET_MAX
}

/// No bucket of `c` is within `MAX_DIMENSION` of its maximum: an
/// edit-distance estimate can be added to it without saturating.
pub open spec fn roomy(c: Seq<u8>) -> bool {
    forall|j: int| 0 <= j < c.len() ==> #[trigger] c[j] + MAX_DIMENSION < BUCKET_MAX
}

/// The ladder costs that the optimality of a search speaks of: those that
/// do not saturate, and for a search guided by the estimate, those that
/// leave room to add it.
pub open spec fn bounded_cost(c: Seq<u8>, informed: bool) -> bool {
    if informed {
        roomy(c)
    } else {
        unsaturated(c)
    }
}

/// `c` is at most the cost of every ladder to the target whose cost is
/// bounded as `bounded_cost` says.
pub open spec fn cheapest(
    words: Seq<Seq<char>>,
    target: Seq<char>,
    c: Seq<u8>,
    informed: bool,
) -> bool {
    forall|q: Seq<usize>|
        is_ladder(words, target, q) && bounded_cost(#[trigger] ladder_cost(words, q), informed)
            ==> lex_le(c, ladder_cost(words, q))
}

/// The edit distances behave towards the target as those of a metric do:
/// the target is at distance zero from itself, and going through another
/// node never shortens the distance to the target.
spec fn metric_towards(words: Seq<Seq<char>>, target: Seq<char>) -> bool {
    &&& levenshtein(target, target) == 0
    &&& forall|u: int, v: int|
        0 <= u < words.len() && 0 <= v < words.len() ==> levenshtein(words[u], target) <= levenshtein(
            words[u],
            words[v],
        ) + levenshtein(words[v], target)
}

proof fn lemma_metric_towards(words: Seq<Seq<char>>, target: Seq<char>)
    ensures
        metric_towards(words, target),
{
    crate::distance::word::lemma_levenshtein_zero(target);
    assert forall|u: int, v: int| 0 <= u < words.len() && 0 <= v < words.len() implies levenshtein(
        words[u],
        target,
    ) <= levenshtein(words[u], words[v]) + levenshtein(words[v], target) by {
        crate::distance::word::lemma_levenshtein_triangle(words[u], words[v], target);
    }
}

/// `c` is at most the cost of every ladder to the target.
pub open spec fn cheapest_any(words: Seq<Seq<char>>, target: Seq<char>, c: Seq<u8>) -> bool {
    forall|q: Seq<usize>| is_ladder(words, target, q) ==> lex_le(c, #[trigger] ladder_cost(words, q))
}

proof fn lemma_walk_cost_buckets(w: Seq<Seq<char>>, base: Seq<u8>, q: Seq<usize>)
    requires
        q.len() >= 1,
        base.len() == MAX_DIMENSION,
    ensures
        forall|j: int|
            0 <= j < MAX_DIMENSION ==> #[trigger] walk_cost(w, base, q)[j] <= base[j] + q.len() - 1,
    decreases q.len(),
{
    lemma_walk_cost_len(w, base, q);
    if q.len() > 1 {
        let s = step(w, q[0] as int, q[1] as int);
        let b2 = seq_add(base, s);
        lemma_walk_cost_len(w, b2, q.drop_first());
        lemma_walk_cost_buckets(w, b2, q.drop_first());
        assert forall|j: int| 0 <= j < MAX_DIMENSION implies #[trigger] b2[j] <= base[j] + 1 by {
            assert(s[j] <= 1);
        }
    }
}

/// In a graph of fewer than `BUCKET_MAX - MAX_DIMENSION` nodes, a result no
/// dearer than every ladder with room for the estimate is no dearer than
/// every ladder at all: a ladder without repeated nodes has that room.
pub proof fn lemma_cheapest_in_small_graphs(w: Seq<Seq<char>>, target: Seq<char>, c: Seq<u8>)
    requires
        w.len() >= 1,
        w.len() + MAX_DIMENSION < BUCKET_MAX,
        c.len() == MAX_DIMENSION,
        cheapest(w, target, c, true),
    ensures
        cheapest_any(w, target, c),
{
    assert forall|q: Seq<usize>| is_ladder(w, target, q) implies lex_le(c, #[trigger] ladder_cost(w, q)) by {
        let r = lemma_simple_ladder(w, target, q);
        lemma_walk_cost_len(w, zero_seq(), r);
        lemma_walk_cost_len(w, zero_seq(), q);
        lemma_walk_cost_buckets(w, zero_seq(), r);
        assert forall|j: int| 0 <= j < ladder_cost(w, r).len() implies #[trigger] ladder_cost(w, r)[j]
            + MAX_DIMENSION < BUCKET_MAX by {
            assert(ladder_cost(w, r)[j] <= zero_seq()[j] + r.len() - 1);
        }
        assert(bounded_cost(ladder_cost(w, r), true));
        lemma_bucket_le_lex(ladder_cost(w, r), ladder_cost(w, q), 0);
        lemma_cmp_transitive_from(c, ladder_cost(w, r), ladder_cost(w, q), 0);
    }
}

/// Every closed node's cost is at most that of every walk to it whose cost
/// is bounded.
spec fn settled(w: Seq<Seq<char>>, dist: Seq<PathMultiCost>, closed: Seq<bool>, informed: bool) -> bool {
    forall|q: Seq<usize>|
        is_walk(closed.len() as int, q) && closed[q.last() as int] && bounded_cost(
            #[trigger] ladder_cost(w, q),
            informed,
        ) ==> lex_le(dist[q.last() as int]@, ladder_cost(w, q))
}

/// Every open candidate has been relaxed from every closed node.
spec fn relaxed(
    w: Seq<Seq<char>>,
    dist: Seq<PathMultiCost>,
    closed: Seq<bool>,
    reached: Seq<bool>,
) -> bool {
    forall|x: int, y: int|
        0 <= x < closed.len() && 1 <= y < closed.len() && closed[x] && !closed[y] ==> reached[y]
            && lex_le(dist[y]@, seq_add(dist[x]@, #[trigger] step(w, x, y)))
}

proof fn lemma_walk_prefix(w: Seq<Seq<char>>, q: Seq<usize>)
    requires
        q.len() >= 2,
        unsaturated(ladder_cost(w, q)),
    ensures
        ladder_cost(w, q) == seq_add(
            ladder_cost(w, q.drop_last()),
            step(w, q[q.len() - 2] as int, q.last() as int),
        ),
        unsaturated(ladder_cost(w, q.drop_last())),
        lex_le(ladder_cost(w, q.drop_last()), ladder_cost(w, q)),
        forall|j: int|
            0 <= j < MAX_DIMENSION ==> ladder_cost(w, q.drop_last())[j] + step(
                w,
                q[q.len() - 2] as int,
                q.last() as int,
            )[j] <= BUCKET_MAX,
{
    let p = q.drop_last();
    assert(p.push(q.last()) =~= q);
    lemma_walk_cost_push(w, zero_seq(), p, q.last());
    lemma_walk_cost_len(w, zero_seq(), p);
    let s = step(w, q[q.len() - 2] as int, q.last() as int);
    lemma_le_add_from(ladder_cost(w, p), s, 0);
    assert forall|j: int| 0 <= j < MAX_DIMENSION implies ladder_cost(w, p)[j] + s[j] <= BUCKET_MAX by {
        assert(ladder_cost(w, q)[j] < BUCKET_MAX);
    }
    assert forall|j: int| 0 <= j < ladder_cost(w, p).len() implies #[trigger] ladder_cost(w, p)[j] < BUCKET_MAX by {
        assert(ladder_cost(w, q)[j] < BUCKET_MAX);
    }
}

proof fn lemma_walk_cost_len(w: Seq<Seq<char>>, base: Seq<u8>, p: Seq<usize>)
    requires
        base.len() == MAX_DIMENSION,
    ensures
        walk_cost(w, base, p).len() == MAX_DIMENSION,
    decreases p.len(),
{
    if p.len() > 1 {
        lemma_walk_cost_len(w, seq_add(base, step(w, p[0] as int, p[1] as int)), p.drop_first());
    }
}

/// The node picked by uniform-cost search is no dearer than any walk that
/// ends at an open node.
proof fn lemma_open_walk_bound(
    w: Seq<Seq<char>>,
    dist: Seq<PathMultiCost>,
    closed: Seq<bool>,
    reached: Seq<bool>,
    best: int,
    q: Seq<usize>,
)
    requires
        closed.len() == w.len(),
        dist.len() == w.len(),
        reached.len() == w.len(),
        0 <= best < w.len(),
        settled(w, dist, closed, false),
        relaxed(w, dist, closed, reached),
        reached[0],
        dist[0]@ == zero_seq(),
        !closed[0] ==> forall|v: int| 0 <= v < w.len() ==> !#[trigger] closed[v],
        forall|y: int|
            0 <= y < w.len() && #[trigger] reached[y] && !closed[y] ==> lex_le(dist[best]@, dist[y]@),
        is_walk(w.len() as int, q),
        q.last() < w.len(),
        !closed[q.last() as int],
        unsaturated(ladder_cost(w, q)),
    ensures
        lex_le(dist[best]@, ladder_cost(w, q)),
    decreases q.len(),
{
    let c = ladder_cost(w, q);
    if q.len() == 1 {
        assert(c == zero_seq());
        assert(q.last() == 0);
    } else {
        let p = q.drop_last();
        let x = p.last() as int;
        let y = q.last() as int;
        lemma_walk_prefix(w, q);
        lemma_walk_cost_len(w, zero_seq(), p);
        assert(p.last() == q[q.len() - 2]);
        assert(is_walk(w.len() as int, p));
        if !closed[x] {
            lemma_open_walk_bound(w, dist, closed, reached, best, p);
            lemma_cmp_transitive_from(dist[best]@, ladder_cost(w, p), c, 0);
        } else {
            assert(1 <= q[q.len() - 1] < w.len());
            let s = step(w, x, y);
            assert(lex_le(dist[y]@, seq_add(dist[x]@, s)));
            assert(lex_le(dist[x]@, ladder_cost(w, p)));
            lemma_add_monotone_from(dist[x]@, ladder_cost(w, p), s, 0);
            lemma_cmp_transitive_from(dist[y]@, seq_add(dist[x]@, s), c, 0);
            lemma_cmp_transitive_from(dist[best]@, dist[y]@, c, 0);
        }
    }
}

/// The node picked by best-first search with a consistent estimate is no
/// dearer, estimate included, than any walk that ends at an open node.
proof fn lemma_open_walk_bound_informed(
    w: Seq<Seq<char>>,
    target: Seq<char>,
    dist: Seq<PathMultiCost>,
    h: Seq<PathMultiCost>,
    closed: Seq<bool>,
    reached: Seq<bool>,
    best: int,
    q: Seq<usize>,
)
    requires
        closed.len() == w.len(),
        dist.len() == w.len(),
        h.len() == w.len(),
        reached.len() == w.len(),
        0 <= best < w.len(),
        forall|v: int| 0 <= v < w.len() ==> #[trigger] h[v]@ == distance_cost_of(levenshtein(w[v], target)),
        metric_towards(w, target),
        settled(w, dist, closed, true),
        relaxed(w, dist, closed, reached),
        reached[0],
        dist[0]@ == zero_seq(),
        !closed[0] ==> forall|v: int| 0 <= v < w.len() ==> !#[trigger] closed[v],
        forall|y: int|
            0 <= y < w.len() && #[trigger] reached[y] && !closed[y] ==> lex_le(
                seq_add(dist[best]@, h[best]@),
                seq_add(dist[y]@, h[y]@),
            ),
        is_walk(w.len() as int, q),
        q.last() < w.len(),
        !closed[q.last() as int],
        roomy(ladder_cost(w, q)),
    ensures
        lex_le(seq_add(dist[best]@, h[best]@), seq_add(ladder_cost(w, q), h[q.last() as int]@)),
    decreases q.len(),
{
    let fb = seq_add(dist[best]@, h[best]@);
    let c = ladder_cost(w, q);
    let y = q.last() as int;
    let hy = h[y]@;
    lemma_walk_cost_len(w, zero_seq(), q);
    if q.len() == 1 {
        assert(y == 0);
        assert(c == zero_seq());
    } else {
        let p = q.drop_last();
        let x = p.last() as int;
        let hx = h[x]@;
        let cp = ladder_cost(w, p);
        let s = step(w, x, y);
        assert(p.last() == q[q.len() - 2]);
        assert(is_walk(w.len() as int, p));
        assert forall|j: int| 0 <= j < c.len() implies #[trigger] c[j] < BUCKET_MAX by {
            assert(c[j] + MAX_DIMENSION < BUCKET_MAX);
        }
        lemma_walk_prefix(w, q);
        lemma_walk_cost_len(w, zero_seq(), p);
        assert forall|j: int| 0 <= j < cp.len() implies #[trigger] cp[j] + MAX_DIMENSION < BUCKET_MAX by {
            assert(c[j] == seq_add(cp, s)[j]);
            assert(c[j] + MAX_DIMENSION < BUCKET_MAX);
        }
        assert forall|j: int| 0 <= j < MAX_DIMENSION implies c[j] + hy[j] <= BUCKET_MAX by {
            assert(c[j] + MAX_DIMENSION < BUCKET_MAX);
        }
        if !closed[x] {
            lemma_open_walk_bound_informed(w, target, dist, h, closed, reached, best, p);
            crate::distance::word::lemma_distance_cost_consistent(
                levenshtein(w[x], target),
                levenshtein(w[x], w[y]),
                levenshtein(w[y], target),
            );
            let shy = seq_add(s, hy);
            assert forall|j: int| 0 <= j < MAX_DIMENSION implies shy[j] + cp[j] <= BUCKET_MAX by {
                assert(c[j] == seq_add(cp, s)[j]);
                assert(c[j] + MAX_DIMENSION < BUCKET_MAX);
            }
            lemma_add_monotone_from(hx, shy, cp, 0);
            assert(seq_add(hx, cp) =~= seq_add(cp, hx));
            assert(seq_add(shy, cp) =~= seq_add(c, hy));
            lemma_cmp_transitive_from(fb, seq_add(cp, hx), seq_add(c, hy), 0);
        } else {
            assert(1 <= q[q.len() - 1] < w.len());
            assert(lex_le(dist[y]@, seq_add(dist[x]@, s)));
            assert(lex_le(dist[x]@, cp));
            lemma_add_monotone_from(dist[x]@, cp, s, 0);
            lemma_cmp_transitive_from(dist[y]@, seq_add(dist[x]@, s), c, 0);
            lemma_add_monotone_from(dist[y]@, c, hy, 0);
            lemma_cmp_transitive_from(fb, seq_add(dist[y]@, hy), seq_add(c, hy), 0);
        }
    }
}

/// With a consistent estimate, the node picked by best-first search is no
/// dearer than any walk to it.
proof fn lemma_informed_settles(
    w: Seq<Seq<char>>,
    target: Seq<char>,
    dist: Seq<PathMultiCost>,
    h: Seq<PathMultiCost>,
    closed: Seq<bool>,
    reached: Seq<bool>,
    best: int,
    q: Seq<usize>,
)
    requires
        closed.len() == w.len(),
        dist.len() == w.len(),
        h.len() == w.len(),
        reached.len() == w.len(),
        0 <= best < w.len(),
        forall|v: int| 0 <= v < w.len() ==> #[trigger] h[v]@ == distance_cost_of(levenshtein(w[v], target)),
        metric_towards(w, target),
        settled(w, dist, closed, true),
        relaxed(w, dist, closed, reached),
        reached[0],
        dist[0]@ == zero_seq(),
        !closed[0] ==> forall|v: int| 0 <= v < w.len() ==> !#[trigger] closed[v],
        forall|y: int|
            0 <= y < w.len() && #[trigger] reached[y] && !closed[y] ==> lex_le(
                seq_add(dist[best]@, h[best]@),
                seq_add(dist[y]@, h[y]@),
            ),
        is_walk(w.len() as int, q),
        q.last() == best,
        !closed[best],
        roomy(ladder_cost(w, q)),
    ensures
        lex_le(dist[best]@, ladder_cost(w, q)),
{
    let c = ladder_cost(w, q);
    let d = dist[best]@;
    let hb = h[best]@;
    lemma_walk_cost_len(w, zero_seq(), q);
    lemma_open_walk_bound_informed(w, target, dist, h, closed, reached, best, q);
    lemma_cmp_flip_from(d, c, 0);
    if !lex_le(d, c) {
        assert forall|j: int| 0 <= j < c.len() implies c[j] + hb[j] < BUCKET_MAX by {
            assert(c[j] + MAX_DIMENSION < BUCKET_MAX);
        }
        lemma_add_strict_from(c, d, hb, 0);
        lemma_cmp_flip_from(seq_add(d, hb), seq_add(c, hb), 0);
    }
}

/// With a consistent estimate, a goal picked by best-first search is no
/// dearer than any ladder to the target.
proof fn lemma_informed_reaches_goal(
    w: Seq<Seq<char>>,
    target: Seq<char>,
    dist: Seq<PathMultiCost>,
    h: Seq<PathMultiCost>,
    closed: Seq<bool>,
    reached: Seq<bool>,
    best: int,
    q: Seq<usize>,
)
    requires
        closed.len() == w.len(),
        dist.len() == w.len(),
        h.len() == w.len(),
        reached.len() == w.len(),
        0 <= best < w.len(),
        w[best] == target,
        forall|v: int| 0 <= v < w.len() ==> #[trigger] h[v]@ == distance_cost_of(levenshtein(w[v], target)),
        metric_towards(w, target),
        settled(w, dist, closed, true),
        relaxed(w, dist, closed, reached),
        reached[0],
        dist[0]@ == zero_seq(),
        !closed[0] ==> forall|v: int| 0 <= v < w.len() ==> !#[trigger] closed[v],
        forall|y: int|
            0 <= y < w.len() && #[trigger] reached[y] && !closed[y] ==> lex_le(
                seq_add(dist[best]@, h[best]@),
                seq_add(dist[y]@, h[y]@),
            ),
        is_walk(w.len() as int, q),
        q.last() < w.len(),
        w[q.last() as int] == target,
        !closed[q.last() as int],
        roomy(ladder_cost(w, q)),
    ensures
        lex_le(dist[best]@, ladder_cost(w, q)),
{
    let c = ladder_cost(w, q);
    lemma_walk_cost_len(w, zero_seq(), q);
    lemma_open_walk_bound_informed(w, target, dist, h, closed, reached, best, q);
    assert(distance_cost_of(0) =~= zero_seq());
    assert(seq_add(c, zero_seq()) =~= c);
    assert(seq_add(dist[best]@, zero_seq()) =~= dist[best]@);
}

/// `c` is at most the cost of every ladder to the target whose cost is
/// bounded, and estimate of a walk: its cost plus the edit-distance estimate
/// from its last node.
pub open spec fn estimate(w: Seq<Seq<char>>, target: Seq<char>, p: Seq<usize>) -> Seq<u8> {
    seq_add(ladder_cost(w, p), distance_cost_of(levenshtein(w[p.last() as int], target)))
}

proof fn lemma_estimate_step(w: Seq<Seq<char>>, target: Seq<char>, q: Seq<usize>)
    requires
        q.len() >= 2,
        w.len() >= 1,
        is_walk(w.len() as int, q),
        roomy(ladder_cost(w, q)),
    ensures
        lex_le(estimate(w, target, q.drop_last()), estimate(w, target, q)),
        roomy(ladder_cost(w, q.drop_last())),
{
    let c = ladder_cost(w, q);
    let p = q.drop_last();
    let x = p.last() as int;
    let y = q.last() as int;
    let cp = ladder_cost(w, p);
    let s = step(w, x, y);
    let hx = distance_cost_of(levenshtein(w[x], target));
    let hy = distance_cost_of(levenshtein(w[y], target));
    assert(p.last() == q[q.len() - 2]);
    assert(1 <= q[q.len() - 1] < w.len());
    if q.len() > 2 {
        assert(1 <= q[q.len() - 2] < w.len());
    }
    lemma_walk_cost_len(w, zero_seq(), q);
    lemma_walk_cost_len(w, zero_seq(), p);
    assert forall|j: int| 0 <= j < c.len() implies #[trigger] c[j] < BUCKET_MAX by {
        assert(c[j] + MAX_DIMENSION < BUCKET_MAX);
    }
    lemma_walk_prefix(w, q);
    assert forall|j: int| 0 <= j < cp.len() implies #[trigger] cp[j] + MAX_DIMENSION < BUCKET_MAX by {
        assert(c[j] == seq_add(cp, s)[j]);
        assert(c[j] + MAX_DIMENSION < BUCKET_MAX);
    }
    crate::distance::word::lemma_levenshtein_triangle(w[x], w[y], target);
    crate::distance::word::lemma_distance_cost_consistent(
        levenshtein(w[x], target),
        levenshtein(w[x], w[y]),
        levenshtein(w[y], target),
    );
    let shy = seq_add(s, hy);
    assert forall|j: int| 0 <= j < MAX_DIMENSION implies shy[j] + cp[j] <= BUCKET_MAX by {
        assert(c[j] == seq_add(cp, s)[j]);
        assert(c[j] + MAX_DIMENSION < BUCKET_MAX);
    }
    lemma_add_monotone_from(hx, shy, cp, 0);
    assert(seq_add(hx, cp) =~= seq_add(cp, hx));
    assert(seq_add(shy, cp) =~= seq_add(c, hy));
}

proof fn lemma_estimate_prefix(w: Seq<Seq<char>>, target: Seq<char>, q: Seq<usize>, k: int)
    requires
        1 <= k <= q.len(),
        w.len() >= 1,
        is_walk(w.len() as int, q),
        roomy(ladder_cost(w, q)),
    ensures
        lex_le(estimate(w, target, q.take(k)), estimate(w, target, q)),
    decreases q.len(),
{
    lemma_walk_cost_len(w, zero_seq(), q);
    if k == q.len() {
        assert(q.take(k) =~= q);
        lemma_cmp_reflexive_from(estimate(w, target, q), 0);
    } else {
        lemma_estimate_step(w, target, q);
        let p = q.drop_last();
        assert(p.take(k) =~= q.take(k));
        assert(is_walk(w.len() as int, p));
        lemma_estimate_prefix(w, target, p, k);
        lemma_walk_cost_len(w, zero_seq(), p);
        lemma_walk_cost_len(w, zero_seq(), q.take(k));
        lemma_cmp_transitive_from(
            estimate(w, target, q.take(k)),
            estimate(w, target, p),
            estimate(w, target, q),
            0,
        );
    }
}

/// At the target, the estimate of a ladder is its cost.
proof fn lemma_estimate_at_target(w: Seq<Seq<char>>, target: Seq<char>, q: Seq<usize>)
    requires
        q.len() >= 1,
        w[q.last() as int] == target,
    ensures
        estimate(w, target, q) == ladder_cost(w, q),
{
    crate::distance::word::lemma_levenshtein_zero(target);
    lemma_walk_cost_len(w, zero_seq(), q);
    assert(distance_cost_of(0) =~= zero_seq());
    assert(seq_add(ladder_cost(w, q), zero_seq()) =~= ladder_cost(w, q));
}

/// `l` is a ladder without repeated nodes that starts with `p`, no longer
/// than the graph, whose cost leaves room for the estimate.
pub open spec fn extends(w: Seq<Seq<char>>, target: Seq<char>, p: Seq<usize>, l: Seq<usize>) -> bool {
    &&& l.len() >= p.len()
    &&& l.take(p.len() as int) == p
    &&& l.no_duplicates()
    &&& l.len() <= w.len()
    &&& is_ladder(w, target, l)
    &&& roomy(ladder_cost(w, l))
}

/// Bucketwise order of costs.
pub open spec fn bucket_le(a: Seq<u8>, b: Seq<u8>) -> bool {
    forall|j: int| 0 <= j < a.len() ==> #[trigger] a[j] <= b[j]
}

proof fn lemma_bucket_le_lex(a: Seq<u8>, b: Seq<u8>, i: int)
    requires
        0 <= i <= a.len(),
        a.len() == b.len(),
        bucket_le(a, b),
    ensures
        lex_cmp_from(a, b, i) != Ordering::Greater,
    decreases a.len() - i,
{
    if i < a.len() && a[i] == b[i] {
        lemma_bucket_le_lex(a, b, i + 1);
    }
}

proof fn lemma_walk_cost_bucket(w: Seq<Seq<char>>, b1: Seq<u8>, b2: Seq<u8>, p: Seq<usize>)
    requires
        b1.len() == MAX_DIMENSION,
        b2.len() == MAX_DIMENSION,
        bucket_le(b1, b2),
    ensures
        bucket_le(walk_cost(w, b1, p), walk_cost(w, b2, p)),
        bucket_le(b1, walk_cost(w, b1, p)),
    decreases p.len(),
{
    lemma_walk_cost_len(w, b1, p);
    lemma_walk_cost_len(w, b2, p);
    if p.len() > 1 {
        let s = step(w, p[0] as int, p[1] as int);
        lemma_walk_cost_bucket(w, seq_add(b1, s), seq_add(b2, s), p.drop_first());
        lemma_walk_cost_bucket(w, seq_add(b1, s), seq_add(b1, s), p.drop_first());
        let b1s = seq_add(b1, s);
        assert forall|j: int| 0 <= j < b1.len() implies #[trigger] b1[j] <= walk_cost(w, b1, p)[j] by {
            assert(b1[j] <= b1s[j]);
            assert(b1s[j] <= walk_cost(w, b1s, p.drop_first())[j]);
        }
    }
}

proof fn lemma_walk_cost_split(w: Seq<Seq<char>>, base: Seq<u8>, q: Seq<usize>, k: int)
    requires
        0 <= k < q.len(),
    ensures
        walk_cost(w, base, q) == walk_cost(w, walk_cost(w, base, q.take(k + 1)), q.skip(k)),
    decreases k,
{
    if k == 0 {
        assert(q.skip(0) =~= q);
    } else {
        let s = step(w, q[0] as int, q[1] as int);
        let r = q.drop_first();
        lemma_walk_cost_split(w, seq_add(base, s), r, k - 1);
        assert(r.skip(k - 1) =~= q.skip(k));
        assert(q.take(k + 1).drop_first() =~= r.take(k));
        assert(q.take(k + 1)[1] == q[1]);
    }
}

proof fn lemma_pigeonhole(q: Seq<usize>, n: int)
    requires
        q.no_duplicates(),
        forall|i: int| 0 <= i < q.len() ==> #[trigger] q[i] < n,
        n >= 0,
    ensures
        q.len() <= n,
{
    let t = q.map_values(|x: usize| x as int);
    assert forall|i: int, j: int| 0 <= i < t.len() && 0 <= j < t.len() && i != j implies t[i] != t[j] by {
        assert(q[i] != q[j]);
    }
    t.unique_seq_to_set();
    assert forall|x: int| t.to_set().contains(x) implies vstd::set_lib::set_int_range(0, n).contains(x) by {
        let i = choose|i: int| 0 <= i < t.len() && t[i] == x;
    }
    vstd::set_lib::lemma_int_range(0, n);
    vstd::set_lib::lemma_len_subset(t.to_set(), vstd::set_lib::set_int_range(0, n));
}

/// Every ladder can be shortened to one without repeated nodes that costs
/// no more, bucket by bucket.
proof fn lemma_simple_ladder(w: Seq<Seq<char>>, target: Seq<char>, q: Seq<usize>) -> (r: Seq<usize>)
    requires
        is_ladder(w, target, q),
        w.len() >= 1,
    ensures
        is_ladder(w, target, r),
        r.no_duplicates(),
        r.len() <= w.len(),
        bucket_le(ladder_cost(w, r), ladder_cost(w, q)),
    decreases q.len(),
{
    lemma_walk_cost_len(w, zero_seq(), q);
    if q.no_duplicates() {
        assert forall|i: int| 0 <= i < q.len() implies #[trigger] q[i] < w.len() by {
            if i > 0 {
                assert(1 <= q[i] < w.len());
            }
        }
        lemma_pigeonhole(q, w.len() as int);
        q
    } else {
        let (i, j) = choose|i: int, j: int| 0 <= i < j < q.len() && q[i] == q[j];
        let q2 = q.take(i) + q.skip(j);
        assert(q2.take(i + 1) =~= q.take(i + 1)) by {
            assert(q2[i] == q[j]);
        }
        assert(q2.skip(i) =~= q.skip(j));
        assert(q2.last() == q.last());
        assert forall|k: int| 1 <= k < q2.len() implies 1 <= #[trigger] q2[k] < w.len() by {
            if k < i {
                assert(q2[k] == q[k]);
            } else {
                assert(q2[k] == q[k - i + j]);
            }
        }
        if i == 0 {
            assert(q2[0] == q[j]);
        }
        assert(is_ladder(w, target, q2));
        lemma_walk_cost_split(w, zero_seq(), q2, i);
        lemma_walk_cost_split(w, zero_seq(), q, j);
        let qj = q.take(j + 1);
        lemma_walk_cost_split(w, zero_seq(), qj, i);
        assert(qj.take(i + 1) =~= q.take(i + 1));
        let a = ladder_cost(w, q.take(i + 1));
        lemma_walk_cost_len(w, zero_seq(), q.take(i + 1));
        lemma_walk_cost_len(w, zero_seq(), qj);
        lemma_walk_cost_bucket(w, a, a, qj.skip(i));
        lemma_walk_cost_bucket(w, a, ladder_cost(w, qj), q.skip(j));
        let r = lemma_simple_ladder(w, target, q2);
        lemma_walk_cost_len(w, zero_seq(), r);
        lemma_walk_cost_len(w, zero_seq(), q2);
        r
    }
}

/// Number of `false` entries among the first `k` of `s`.
pub open spec fn count_false(s: Seq<bool>, k: int) -> nat
    decreases k,
{
    if k <= 0 {
        0
    } else {
        count_false(s, k - 1) + if s[k - 1] { 0nat } else { 1nat }
    }
}

proof fn lemma_count_false_set(s: Seq<bool>, i: int, k: int)
    requires
        0 <= i < s.len(),
        0 <= k <= s.len(),
        !s[i],
    ensures
        count_false(s.update(i, true), k) == if i < k { count_false(s, k) - 1 } else { count_false(s, k) as int },
        count_false(s, k) <= k,
        i < k ==> count_false(s, k) >= 1,
    decreases k,
{
    if k > 0 {
        lemma_count_false_set(s, i, k - 1);
    }
}

proof fn lemma_count_false_all(s: Seq<bool>, k: int)
    requires
        0 <= k <= s.len(),
        forall|i: int| 0 <= i < k ==> !s[i],
    ensures
        count_false(s, k) == k,
    decreases k,
{
    if k > 0 {
        lemma_count_false_all(s, k - 1);
    }
}

/// A cost read as a number in base 256, from position `i` on; the cost
/// order is the order of these numbers.
pub open spec fn rank_from(s: Seq<u8>, i: int) -> int
    decreases s.len() - i,
{
    if i < 0 || i >= s.len() {
        0
    } else {
        s[i] * pow(256, (s.len() - 1 - i) as nat) + rank_from(s, i + 1)
    }
}

proof fn lemma_rank_bounds(s: Seq<u8>, i: int)
    requires
        0 <= i <= s.len(),
    ensures
        0 <= rank_from(s, i) < pow(256, (s.len() - i) as nat),
    decreases s.len() - i,
{
    vstd::arithmetic::power::lemma_pow_positive(256, (s.len() - i) as nat);
    if i < s.len() {
        lemma_rank_bounds(s, i + 1);
        let e = (s.len() - 1 - i) as nat;
        let p = pow(256, e);
        vstd::arithmetic::power::lemma_pow_positive(256, e);
        assert(pow(256, e + 1) == 256 * p) by {
            vstd::arithmetic::power::lemma_pow_adds(256, e, 1);
            vstd::arithmetic::power::lemma_pow1(256);
        }
        assert((e + 1) as nat == (s.len() - i) as nat);
        let x = s[i] as int;
        let r = rank_from(s, i + 1);
        assert(0 <= x * p + r < 256 * p) by (nonlinear_arith)
            requires
                0 <= x <= 255,
                0 <= r < p,
        ;
    }
}

proof fn lemma_rank_monotone(a: Seq<u8>, b: Seq<u8>, i: int)
    requires
        0 <= i <= a.len(),
        a.len() == b.len(),
        lex_cmp_from(a, b, i) == Ordering::Less,
    ensures
        rank_from(a, i) < rank_from(b, i),
    decreases a.len() - i,
{
    if a[i] == b[i] {
        lemma_rank_monotone(a, b, i + 1);
    } else {
        lemma_rank_bounds(a, i + 1);
        lemma_rank_bounds(b, i + 1);
        let p = pow(256, (a.len() - 1 - i) as nat);
        let x = a[i] as int;
        let y = b[i] as int;
        let ra = rank_from(a, i + 1);
        let rb = rank_from(b, i + 1);
        assert(x * p + ra < y * p + rb) by (nonlinear_arith)
            requires
                x < y,
                0 <= ra < p,
                0 <= rb,
        ;
    }
}

proof fn lemma_walk_cost_push(w: Seq<Seq<char>>, base: Seq<u8>, p: Seq<usize>, v: usize)
    requires
        p.len() >= 1,
    ensures
        walk_cost(w, base, p.push(v)) == seq_add(
            walk_cost(w, base, p),
            step(w, p.last() as int, v as int),
        ),
    decreases p.len(),
{
    let q = p.push(v);
    assert(q[0] == p[0]);
    if p.len() == 1 {
        assert(q[1] == v);
        assert(q.drop_first() =~= seq![v]);
        assert(walk_cost(w, base, q) == walk_cost(w, seq_add(base, step(w, p[0] as int, v as int)), seq![v]));
    } else {
        assert(q[1] == p[1]);
        assert(q.drop_first() =~= p.drop_first().push(v));
        assert(p.drop_first().last() == p.last());
        lemma_walk_cost_push(w, seq_add(base, step(w, p[0] as int, p[1] as int)), p.drop_first(), v);
    }
}

/// A walk from the start node through candidates.
pub open spec fn is_walk(n: int, p: Seq<usize>) -> bool {
    &&& p.len() >= 1
    &&& p[0] == 0
    &&& forall|i: int| 1 <= i < p.len() ==> 1 <= #[trigger] p[i] < n
}

/// Every ladder cost has `MAX_DIMENSION` buckets.
pub proof fn lemma_walk_cost_len_pub(w: Seq<Seq<char>>, p: Seq<usize>)
    ensures
        ladder_cost(w, p).len() == MAX_DIMENSION,
{
    lemma_walk_cost_len(w, zero_seq(), p);
}

/// A copy of `p`.
fn copy_walk(p: &Vec<usize>) -> (r: Vec<usize>)
    ensures
        r@ == p@,
{
    let mut r: Vec<usize> = Vec::new();
    let mut i: usize = 0;
    while i < p.len()
        invariant
            0 <= i <= p@.len(),
            r@ == p@.subrange(0, i as int),
        decreases p@.len() - i,
    {
        r.push(p[i]);
        i = i + 1;
    }
    assert(r@ =~= p@);
    r
}

proof fn lemma_remove_contains(s: Seq<usize>, i: int, y: usize)
    requires
        0 <= i < s.len(),
    ensures
        s.remove(i).contains(y) ==> s.contains(y),
        s.contains(y) && y != s[i] ==> s.remove(i).contains(y),
{
    if s.remove(i).contains(y) {
        let j = choose|j: int| 0 <= j < s.remove(i).len() && s.remove(i)[j] == y;
        if j < i {
            assert(s[j] == y);
        } else {
            assert(s[j + 1] == y);
        }
    }
    if s.contains(y) && y != s[i] {
        let j = choose|j: int| 0 <= j < s.len() && s[j] == y;
        if j < i {
            assert(s.remove(i)[j] == y);
        } else {
            assert(s.remove(i)[j - 1] == y);
        }
    }
}

proof fn lemma_insert_front_contains(s: Seq<usize>, x: usize, y: usize)
    ensures
        s.insert(0, x).contains(y) <==> (y == x || s.contains(y)),
{
    let t = s.insert(0, x);
    assert(t[0] == x);
    if s.contains(y) {
        let j = choose|j: int| 0 <= j < s.len() && s[j] == y;
        assert(t[j + 1] == y);
    }
    if t.contains(y) && y != x {
        let j = choose|j: int| 0 <= j < t.len() && t[j] == y;
        assert(s[j - 1] == y);
    }
}

/// `list` without any occurrence of `x`.
fn remove_all(list: &Vec<usize>, x: usize) -> (r: Vec<usize>)
    ensures
        forall|y: usize| #[trigger] r@.contains(y) <==> (list@.contains(y) && y != x),
        r@.len() <= list@.len(),
{
    let mut r: Vec<usize> = Vec::new();
    let mut i: usize = 0;
    while i < list.len()
        invariant
            0 <= i <= list@.len(),
            r@.len() <= i,
            forall|y: usize|
                #[trigger] r@.contains(y) ==> y != x && exists|j: int| 0 <= j < i && list@[j] == y,
            forall|j: int| 0 <= j < i && list@[j] != x ==> r@.contains(#[trigger] list@[j]),
        decreases list@.len() - i,
    {
        let ghost before = r@;
        if list[i] != x {
            r.push(list[i]);
            proof {
                assert(r@[before.len() as int] == list@[i as int]);
                assert forall|y: usize| #[trigger] r@.contains(y) implies y != x && exists|j: int|
                    0 <= j < i + 1 && list@[j] == y by {
                    let k = choose|k: int| 0 <= k < r@.len() && r@[k] == y;
                    if k < before.len() {
                        assert(before[k] == y);
                        assert(before.contains(y));
                    }
                }
                assert forall|j: int| 0 <= j < i + 1 && list@[j] != x implies r@.contains(#[trigger] list@[j]) by {
                    if j < i {
                        let k = choose|k: int| 0 <= k < before.len() && before[k] == list@[j];
                        assert(r@[k] == list@[j]);
                    }
                }
            }
        }
        i = i + 1;
    }
    r
}

/// Every node on a stored ladder already costs at most the ladder's prefix
/// up to it, and no stored ladder repeats a node.
spec fn paths_sound(
    w: Seq<Seq<char>>,
    g: Seq<PathMultiCost>,
    reached: Seq<bool>,
    paths: Seq<Vec<usize>>,
) -> bool {
    &&& forall|v: int| 0 <= v < reached.len() && #[trigger] reached[v] ==> paths[v]@.no_duplicates()
    &&& forall|v: int, k: int|
        0 <= v < reached.len() && reached[v] && 0 <= k < paths[v]@.len() ==> reached[#[trigger] paths[v]@[k] as int]
            && lex_le(g[paths[v]@[k] as int]@, ladder_cost(w, paths[v]@.take(k + 1)))
}

/// A prefix of a walk costs no more than the walk.
proof fn lemma_prefix_cost_le(w: Seq<Seq<char>>, q: Seq<usize>, k: int)
    requires
        0 <= k < q.len(),
    ensures
        lex_le(ladder_cost(w, q.take(k + 1)), ladder_cost(w, q)),
{
    lemma_walk_cost_split(w, zero_seq(), q, k);
    lemma_walk_cost_len(w, zero_seq(), q.take(k + 1));
    let a = ladder_cost(w, q.take(k + 1));
    lemma_walk_cost_bucket(w, a, a, q.skip(k));
    lemma_walk_cost_len(w, a, q.skip(k));
    lemma_bucket_le_lex(a, ladder_cost(w, q), 0);
}

/// `v` is on one of the two lists of fringe search.
spec fn listed(now: Seq<usize>, later: Seq<usize>, v: int) -> bool {
    now.contains(v as usize) || later.contains(v as usize)
}

/// Every reached node off both lists, but `skip`, has been relaxed: no
/// successor costs more than through it.
spec fn out_relaxed(
    w: Seq<Seq<char>>,
    g: Seq<PathMultiCost>,
    reached: Seq<bool>,
    now: Seq<usize>,
    later: Seq<usize>,
    skip: int,
) -> bool {
    forall|x: int, y: int|
        0 <= x < reached.len() && 1 <= y < reached.len() && x != skip && reached[x] && !listed(
            now,
            later,
            x,
        ) ==> lex_le(g[y]@, seq_add(g[x]@, #[trigger] step(w, x, y)))
}

/// Along a walk from the start, either some node on the lists has an
/// estimate within the walk's estimate, or the walk's last node is off the
/// lists and costs at most the walk; the result is the index of the former,
/// or -1.
proof fn lemma_fringe_walk(
    w: Seq<Seq<char>>,
    target: Seq<char>,
    g: Seq<PathMultiCost>,
    h: Seq<PathMultiCost>,
    reached: Seq<bool>,
    now: Seq<usize>,
    later: Seq<usize>,
    q: Seq<usize>,
) -> (k: int)
    requires
        w.len() >= 1,
        g.len() == w.len(),
        h.len() == w.len(),
        reached.len() == w.len(),
        forall|v: int| 0 <= v < w.len() ==> #[trigger] h[v]@ == distance_cost_of(levenshtein(w[v], target)),
        g[0]@ == zero_seq(),
        forall|v: int| 0 <= v < w.len() ==> #[trigger] reached[v],
        out_relaxed(w, g, reached, now, later, -1),
        is_walk(w.len() as int, q),
        roomy(ladder_cost(w, q)),
    ensures
        (0 <= k < q.len() && listed(now, later, q[k] as int) && lex_le(
            seq_add(g[q[k] as int]@, h[q[k] as int]@),
            estimate(w, target, q),
        )) || (k == -1 && !listed(now, later, q.last() as int) && lex_le(
            g[q.last() as int]@,
            ladder_cost(w, q),
        )),
    decreases q.len(),
{
    lemma_walk_cost_len(w, zero_seq(), q);
    if q.len() == 1 {
        assert(ladder_cost(w, q) == zero_seq());
        lemma_cmp_reflexive_from(zero_seq(), 0);
        lemma_cmp_reflexive_from(estimate(w, target, q), 0);
        if listed(now, later, 0) {
            0
        } else {
            -1
        }
    } else {
        let p = q.drop_last();
        assert(is_walk(w.len() as int, p));
        lemma_estimate_step(w, target, q);
        let k = lemma_fringe_walk(w, target, g, h, reached, now, later, p);
        lemma_walk_cost_len(w, zero_seq(), p);
        if k >= 0 {
            assert(q[k] == p[k]);
            lemma_cmp_transitive_from(
                seq_add(g[q[k] as int]@, h[q[k] as int]@),
                estimate(w, target, p),
                estimate(w, target, q),
                0,
            );
            k
        } else {
            let c = ladder_cost(w, q);
            let cp = ladder_cost(w, p);
            let x = p.last() as int;
            let y = q.last() as int;
            let s = step(w, x, y);
            assert(p.last() == q[q.len() - 2]);
            assert(1 <= q[q.len() - 1] < w.len());
            if q.len() > 2 {
                assert(1 <= q[q.len() - 2] < w.len());
            }
            assert forall|j: int| 0 <= j < c.len() implies #[trigger] c[j] < BUCKET_MAX by {
                assert(c[j] + MAX_DIMENSION < BUCKET_MAX);
            }
            lemma_walk_prefix(w, q);
            assert(lex_le(g[y]@, seq_add(g[x]@, s)));
            lemma_add_monotone_from(g[x]@, cp, s, 0);
            lemma_cmp_transitive_from(g[y]@, seq_add(g[x]@, s), c, 0);
            if listed(now, later, y) {
                let hy = h[y]@;
                assert forall|j: int| 0 <= j < MAX_DIMENSION implies c[j] + hy[j] <= BUCKET_MAX by {
                    assert(c[j] + MAX_DIMENSION < BUCKET_MAX);
                }
                lemma_add_monotone_from(g[y]@, c, hy, 0);
                (q.len() - 1) as int
            } else {
                -1
            }
        }
    }
}

/// Sum over the nodes of the rank of their best known cost, an unreached
/// node counting above every cost.
pub open spec fn potential(reached: Seq<bool>, g: Seq<PathMultiCost>, k: int) -> int
    decreases k,
{
    if k <= 0 {
        0
    } else {
        potential(reached, g, k - 1) + if reached[k - 1] {
            rank_from(g[k - 1]@, 0)
        } else {
            pow(256, MAX_DIMENSION as nat)
        }
    }
}

proof fn lemma_potential_update(
    reached: Seq<bool>,
    g: Seq<PathMultiCost>,
    i: int,
    x: PathMultiCost,
    k: int,
)
    requires
        0 <= i < reached.len(),
        reached.len() == g.len(),
        0 <= k <= reached.len(),
    ensures
        potential(reached.update(i, true), g.update(i, x), k) == if i < k {
            potential(reached, g, k) - (if reached[i] {
                rank_from(g[i]@, 0)
            } else {
                pow(256, MAX_DIMENSION as nat)
            }) + rank_from(x@, 0)
        } else {
            potential(reached, g, k)
        },
    decreases k,
{
    if k > 0 {
        lemma_potential_update(reached, g, i, x, k - 1);
    }
}

proof fn lemma_potential_nonneg(reached: Seq<bool>, g: Seq<PathMultiCost>, k: int)
    requires
        0 <= k <= reached.len(),
        reached.len() == g.len(),
    ensures
        potential(reached, g, k) >= 0,
    decreases k,
{
    vstd::arithmetic::power::lemma_pow_positive(256, MAX_DIMENSION as nat);
    if k > 0 {
        lemma_potential_nonneg(reached, g, k - 1);
        lemma_rank_bounds(g[k - 1]@, 0);
    }
}

/// Whether `v` is on `path`.
fn on_path(path: &Vec<usize>, v: usize) -> (r: bool)
    ensures
        r == path@.contains(v),
{
    let mut i: usize = 0;
    while i < path.len()
        invariant
            0 <= i <= path@.len(),
            forall|j: int| 0 <= j < i ==> path@[j] != v,
        decreases path@.len() - i,
    {
        if path[i] == v {
            return true;
        }
        i = i + 1;
    }
    false
}

/// Whether some node holds the target.
fn any_goal(goal: &Vec<bool>) -> (r: bool)
    ensures
        r == exists|v: int| 0 <= v < goal@.len() && #[trigger] goal@[v],
{
    let mut v: usize = 0;
    while v < goal.len()
        invariant
            0 <= v <= goal@.len(),
            forall|u: int| 0 <= u < v ==> !#[trigger] goal@[u],
        decreases goal@.len() - v,
    {
        if goal[v] {
            return true;
        }
        v = v + 1;
    }
    false
}

/// What one depth-first probe under a cost bound found.
enum Probe {
    /// A ladder to the target and its cost.
    Found(Vec<usize>, PathMultiCost),
    /// No ladder within the bound; the least estimate that exceeded it.
    Exceeded(PathMultiCost),
    /// Nothing left to explore.
    Exhausted,
}

/// Depth-first probe from the last node of `path`, following candidates not
/// yet on it, cut off where `cost + heuristic` exceeds `bound`.
fn deepening_probe(
    nodes: &Vec<&str>,
    target: &str,
    h: &Vec<PathMultiCost>,
    goal: &Vec<bool>,
    path: &mut Vec<usize>,
    cost: PathMultiCost,
    bound: PathMultiCost,
) -> (r: Probe)
    requires
        h@.len() == nodes@.len(),
        goal@.len() == nodes@.len(),
        forall|v: int| 0 <= v < nodes@.len() ==> #[trigger] goal@[v] == (nodes@[v]@ == target@),
        forall|v: int|
            0 <= v < nodes@.len() ==> #[trigger] h@[v]@ == distance_cost_of(
                levenshtein(nodes@[v]@, target@),
            ),
        is_walk(nodes@.len() as int, old(path)@),
        old(path)@.no_duplicates(),
        old(path)@.len() <= nodes@.len(),
        cost@ == ladder_cost(words_view(nodes@), old(path)@),
    ensures
        final(path)@ == old(path)@,
        match r {
            Probe::Found(p, c) => is_ladder(words_view(nodes@), target@, p@) && c@ == ladder_cost(
                words_view(nodes@),
                p@,
            ) && lex_le(c@, bound@) && p@.no_duplicates(),
            Probe::Exceeded(m) => lex_lt(bound@, m@) && forall|l: Seq<usize>|
                #[trigger] extends(words_view(nodes@), target@, old(path)@, l) ==> lex_le(
                    m@,
                    ladder_cost(words_view(nodes@), l),
                ),
            Probe::Exhausted => !goal@[old(path)@.last() as int] && (forall|t: int|
                1 <= t < nodes@.len() && #[trigger] goal@[t] ==> old(path)@.contains(t as usize)
                    || old(path)@.len() >= nodes@.len()) && forall|l: Seq<usize>|
                !#[trigger] extends(words_view(nodes@), target@, old(path)@, l),
        },
    decreases nodes@.len() - old(path)@.len(),
{
    let ghost w = words_view(nodes@);
    let ghost start_path = path@;
    let n = nodes.len();
    let u = path[path.len() - 1];
    let f = cost.saturating_add(h[u]);
    assert(f@ == estimate(w, target@, start_path));
    if bound.lt(&f) {
        proof {
            assert forall|l: Seq<usize>| #[trigger] extends(w, target@, start_path, l) implies lex_le(
                f@,
                ladder_cost(w, l),
            ) by {
                lemma_estimate_prefix(w, target@, l, start_path.len() as int);
                lemma_estimate_at_target(w, target@, l);
            }
        }
        return Probe::Exceeded(f);
    }
    proof {
        lemma_cmp_flip_from(bound@, f@, 0);
    }
    if goal[u] {
        proof {
            lemma_estimate_at_target(w, target@, start_path);
        }
        return Probe::Found(copy_walk(path), cost);
    }
    proof {
        assert forall|l: Seq<usize>| #[trigger] extends(w, target@, start_path, l) implies l.len()
            > start_path.len() by {
            if l.len() == start_path.len() {
                assert(l =~= start_path);
            }
        }
    }
    if path.len() >= n {
        return Probe::Exhausted;
    }
    let mut least: Option<PathMultiCost> = None;
    let mut v: usize = 1;
    while v < n
        invariant
            w == words_view(nodes@),
            n == nodes@.len(),
            h@.len() == n,
            goal@.len() == n,
            forall|v: int| 0 <= v < n ==> #[trigger] goal@[v] == (nodes@[v]@ == target@),
            path@ == start_path,
            start_path == old(path)@,
            is_walk(n as int, start_path),
            start_path.no_duplicates(),
            start_path.len() < n,
            u == start_path.last(),
            !goal@[u as int],
            cost@ == ladder_cost(w, start_path),
            1 <= v <= n,
            least matches Some(m) ==> lex_lt(bound@, m@),
            least is None ==> forall|t: int| 1 <= t < v && #[trigger] goal@[t] ==> start_path.contains(t as usize),
            forall|v: int|
                0 <= v < n ==> #[trigger] h@[v]@ == distance_cost_of(levenshtein(nodes@[v]@, target@)),
            forall|l: Seq<usize>| #[trigger] extends(w, target@, start_path, l) ==> l.len() > start_path.len(),
            forall|l: Seq<usize>|
                #[trigger] extends(w, target@, start_path, l) && l[start_path.len() as int] < v ==> (least matches Some(
                    m,
                ) && lex_le(m@, ladder_cost(w, l))),
        decreases n - v,
    {
        let ghost before = least;
        if on_path(path, v) {
            proof {
                assert forall|l: Seq<usize>|
                    #[trigger] extends(w, target@, start_path, l) && l[start_path.len() as int]
                        == v implies false by {
                    let i = choose|i: int| 0 <= i < start_path.len() && start_path[i] == v;
                    assert(l[i] == l.take(start_path.len() as int)[i]);
                }
            }
        } else {
            let next = cost.saturating_add(path_cost(nodes[u], nodes[v]));
            proof {
                lemma_walk_cost_push(w, zero_seq(), start_path, v);
            }
            path.push(v);
            assert(path@.len() == start_path.len() + 1);
            proof {
                assert forall|i: int, j: int| 0 <= i < j < path@.len() implies path@[i] != path@[j] by {
                    if j == start_path.len() {
                        assert(path@[i] == start_path[i]);
                        assert(start_path.contains(start_path[i]));
                    } else {
                        assert(path@[i] == start_path[i]);
                        assert(path@[j] == start_path[j]);
                    }
                }
            }
            let r = deepening_probe(nodes, target, h, goal, path, next, bound);
            path.pop();
            assert(path@ =~= start_path);
            proof {
                assert forall|l: Seq<usize>|
                    #[trigger] extends(w, target@, start_path, l) && l[start_path.len() as int]
                        == v implies extends(w, target@, start_path.push(v), l) by {
                    assert(l.take(start_path.len() + 1 as int) =~= start_path.push(v));
                }
            }
            match r {
                Probe::Found(p, c) => {
                    return Probe::Found(p, c);
                },
                Probe::Exceeded(m) => {
                    let smaller = match least {
                        Some(l) => m.lt(&l),
                        None => true,
                    };
                    if smaller {
                        least = Some(m);
                    }
                    proof {
                        if let Some(l0) = before {
                            lemma_cmp_flip_from(m@, l0@, 0);
                        }
                        assert forall|l: Seq<usize>|
                            #[trigger] extends(w, target@, start_path, l) && l[start_path.len() as int]
                                < v + 1 implies (least matches Some(x) && lex_le(x@, ladder_cost(w, l))) by {
                            lemma_walk_cost_len(w, zero_seq(), l);
                            if l[start_path.len() as int] == v {
                                assert(extends(w, target@, start_path.push(v), l));
                                if let Some(l0) = before {
                                    if !smaller {
                                        lemma_cmp_transitive_from(l0@, m@, ladder_cost(w, l), 0);
                                    }
                                }
                            } else if smaller {
                                if let Some(l0) = before {
                                    lemma_cmp_transitive_from(m@, l0@, ladder_cost(w, l), 0);
                                }
                            }
                        }
                    }
                },
                Probe::Exhausted => {
                    assert(start_path.push(v).last() == v);
                    assert forall|l: Seq<usize>|
                        #[trigger] extends(w, target@, start_path, l) && l[start_path.len() as int]
                            < v + 1 implies (least matches Some(x) && lex_le(x@, ladder_cost(w, l))) by {
                        if l[start_path.len() as int] == v {
                            assert(extends(w, target@, start_path.push(v), l));
                        }
                    }
                },
            }
        }
        v = v + 1;
    }
    proof {
        assert forall|l: Seq<usize>| #[trigger] extends(w, target@, start_path, l) implies l[start_path.len() as int] < n by {
            assert(1 <= l[start_path.len() as int] < n);
        }
    }
    match least {
        Some(m) => Probe::Exceeded(m),
        None => Probe::Exhausted,
    }
}

/// Iterative-deepening search: depth-first probes from node 0 along
/// ladders without repeated nodes, under a cost bound that starts at the
/// start's heuristic and is raised after each failed probe to the least
/// estimate that exceeded it.
pub fn iterative_deepening(nodes: &Vec<&str>, target: &str) -> (r: Option<(Vec<usize>, PathMultiCost)>)
    requires
        nodes@.len() >= 1,
    ensures
        search_outcome(words_view(nodes@), target@, r),
        r matches Some((p, c)) ==> cheapest(words_view(nodes@), target@, c@, true),
        r matches Some((p, c)) ==> p@.no_duplicates(),
{
    let ghost w = words_view(nodes@);
    let n = nodes.len();
    let h = heuristics(nodes, target, true);
    let goal = goals(nodes, target);
    if goal[0] {
        let p = vec![0usize];
        assert(p@ =~= seq![0usize]);
        let z = PathMultiCost::zero();
        proof {
            assert forall|q: Seq<usize>|
                is_ladder(w, target@, q) && bounded_cost(#[trigger] ladder_cost(w, q), true) implies lex_le(
                z@,
                ladder_cost(w, q),
            ) by {
                lemma_walk_cost_len(w, zero_seq(), q);
                lemma_zero_le_from(ladder_cost(w, q), 0);
            }
        }
        return Some((p, z));
    }
    if !any_goal(&goal) {
        proof {
            assert forall|u: int| 0 <= u < w.len() implies w[u] != target@ by {
                assert(!goal@[u]);
            }
        }
        return None;
    }
    let mut bound = h[0];
    let mut path: Vec<usize> = vec![0usize];
    assert(path@ =~= seq![0usize]);
    proof {
        lemma_rank_bounds(bound@, 0);
        assert(w.len() == n);
        assert forall|q: Seq<usize>|
            is_ladder(w, target@, q) && roomy(#[trigger] ladder_cost(w, q)) implies lex_le(
            bound@,
            ladder_cost(w, q),
        ) by {
            lemma_estimate_prefix(w, target@, q, 1);
            lemma_estimate_at_target(w, target@, q);
            assert(q.take(1) =~= seq![0usize]);
            assert(ladder_cost(w, q.take(1)) == zero_seq());
            assert(seq_add(zero_seq(), h@[0]@) =~= h@[0]@);
        }
    }
    loop
        invariant
            w == words_view(nodes@),
            n == nodes@.len(),
            h@.len() == n,
            goal@.len() == n,
            forall|v: int| 0 <= v < n ==> #[trigger] goal@[v] == (nodes@[v]@ == target@),
            !goal@[0],
            exists|v: int| 0 <= v < n && #[trigger] goal@[v],
            path@ == seq![0usize],
            path@.no_duplicates(),
            0 <= rank_from(bound@, 0) < pow(256, MAX_DIMENSION as nat),
            forall|v: int|
                0 <= v < n ==> #[trigger] h@[v]@ == distance_cost_of(levenshtein(nodes@[v]@, target@)),
            forall|q: Seq<usize>|
                is_ladder(w, target@, q) && roomy(#[trigger] ladder_cost(w, q)) ==> lex_le(
                    bound@,
                    ladder_cost(w, q),
                ),
        decreases pow(256, MAX_DIMENSION as nat) - rank_from(bound@, 0),
    {
        match deepening_probe(nodes, target, &h, &goal, &mut path, PathMultiCost::zero(), bound) {
            Probe::Found(p, c) => {
                proof {
                    assert forall|q: Seq<usize>|
                        is_ladder(w, target@, q) && bounded_cost(#[trigger] ladder_cost(w, q), true) implies lex_le(
                        c@,
                        ladder_cost(w, q),
                    ) by {
                        lemma_walk_cost_len(w, zero_seq(), q);
                        lemma_cmp_transitive_from(c@, bound@, ladder_cost(w, q), 0);
                    }
                }
                return Some((p, c));
            },
            Probe::Exceeded(m) => {
                proof {
                    lemma_rank_monotone(bound@, m@, 0);
                    lemma_rank_bounds(m@, 0);
                    assert forall|q: Seq<usize>|
                        is_ladder(w, target@, q) && roomy(#[trigger] ladder_cost(w, q)) implies lex_le(
                        m@,
                        ladder_cost(w, q),
                    ) by {
                        let r = lemma_simple_ladder(w, target@, q);
                        lemma_walk_cost_len(w, zero_seq(), q);
                        lemma_walk_cost_len(w, zero_seq(), r);
                        assert forall|j: int| 0 <= j < ladder_cost(w, r).len() implies #[trigger] ladder_cost(w, r)[j]
                            + MAX_DIMENSION < BUCKET_MAX by {
                            assert(ladder_cost(w, r)[j] <= ladder_cost(w, q)[j]);
                            assert(ladder_cost(w, q)[j] + MAX_DIMENSION < BUCKET_MAX);
                        }
                        assert(r.take(1) =~= seq![0usize]);
                        assert(extends(w, target@, seq![0usize], r));
                        lemma_bucket_le_lex(ladder_cost(w, r), ladder_cost(w, q), 0);
                        lemma_cmp_transitive_from(m@, ladder_cost(w, r), ladder_cost(w, q), 0);
                    }
                }
                bound = m;
            },
            Probe::Exhausted => {
                proof {
                    let t = choose|v: int| 0 <= v < n && #[trigger] goal@[v];
                    assert(!seq![0usize].contains(t as usize));
                }
                return None;
            },
        }
    }
}

/// Fringe search: rounds over two lists, `now` and `later`. A round takes
/// nodes from the front of `now`; one whose `cost + heuristic` exceeds the
/// round's limit goes to `later`, any other is expanded, and each successor
/// whose best known cost improves moves to the front of `now`. The next
/// round works on `later`, with the least estimate deferred as its limit.
pub fn fringe(nodes: &Vec<&str>, target: &str) -> (r: Option<(Vec<usize>, PathMultiCost)>)
    requires
        nodes@.len() >= 1,
    ensures
        search_outcome(words_view(nodes@), target@, r),
        r matches Some((p, c)) ==> cheapest(words_view(nodes@), target@, c@, true),
        r matches Some((p, c)) ==> p@.no_duplicates(),
{
    let ghost w = words_view(nodes@);
    let ghost big = pow(256, MAX_DIMENSION as nat);
    let n = nodes.len();
    let h = heuristics(nodes, target, true);
    let goal = goals(nodes, target);
    if goal[0] {
        let p = vec![0usize];
        assert(p@ =~= seq![0usize]);
        let z = PathMultiCost::zero();
        proof {
            assert forall|q: Seq<usize>|
                is_ladder(w, target@, q) && bounded_cost(#[trigger] ladder_cost(w, q), true) implies lex_le(
                z@,
                ladder_cost(w, q),
            ) by {
                lemma_walk_cost_len(w, zero_seq(), q);
                lemma_zero_le_from(ladder_cost(w, q), 0);
            }
        }
        return Some((p, z));
    }
    let mut g: Vec<PathMultiCost> = vec![PathMultiCost::zero(); n];
    let mut reached: Vec<bool> = vec![false; n];
    reached[0] = true;
    let mut paths: Vec<Vec<usize>> = Vec::new();
    let mut k: usize = 0;
    while k < n
        invariant
            0 <= k <= n,
            paths@.len() == k,
        decreases n - k,
    {
        paths.push(Vec::new());
        k = k + 1;
    }
    paths[0] = vec![0usize];
    assert(paths@[0]@ =~= seq![0usize]);
    proof {
        assert(paths@[0]@.take(1) =~= seq![0usize]);
        lemma_cmp_reflexive_from(zero_seq(), 0);
        assert(ladder_cost(w, seq![0usize]) == zero_seq());
    }
    let mut now: Vec<usize> = vec![0usize];
    let mut later: Vec<usize> = Vec::new();
    let mut flimit = h[0];
    let mut started = false;
    assert(now@ =~= seq![0usize]);
    assert(w.len() == n);
    proof {
        lemma_rank_bounds(flimit@, 0);
        assert forall|q: Seq<usize>|
            is_ladder(w, target@, q) && roomy(#[trigger] ladder_cost(w, q)) implies lex_le(
            flimit@,
            ladder_cost(w, q),
        ) by {
            lemma_estimate_prefix(w, target@, q, 1);
            lemma_estimate_at_target(w, target@, q);
            assert(q.take(1) =~= seq![0usize]);
            assert(ladder_cost(w, q.take(1)) == zero_seq());
            assert(seq_add(zero_seq(), h@[0]@) =~= h@[0]@);
        }
    }
    loop
        invariant
            w == words_view(nodes@),
            big == pow(256, MAX_DIMENSION as nat),
            n == nodes@.len(),
            n >= 1,
            goal@.len() == n,
            h@.len() == n,
            g@.len() == n,
            reached@.len() == n,
            paths@.len() == n,
            forall|v: int| 0 <= v < n ==> #[trigger] goal@[v] == (w[v] == target@),
            !goal@[0],
            reached@[0],
            forall|v: int|
                0 <= v < n && #[trigger] reached@[v] ==> {
                    &&& is_walk(n as int, paths@[v]@)
                    &&& paths@[v]@.last() == v
                    &&& g@[v]@ == ladder_cost(w, paths@[v]@)
                },
            forall|y: usize| #[trigger] now@.contains(y) ==> y < n && reached@[y as int],
            forall|y: usize| #[trigger] later@.contains(y) ==> y < n && reached@[y as int],
            started ==> forall|v: int| 0 <= v < n ==> #[trigger] reached@[v],
            forall|t: int|
                0 <= t < n && #[trigger] goal@[t] && reached@[t] ==> now@.contains(t as usize)
                    || later@.contains(t as usize),
            !started ==> now@ == seq![0usize] && later@.len() == 0 && flimit@ == h@[0]@
                && g@[0]@ == zero_seq(),
            0 <= rank_from(flimit@, 0) < big,
            later@.len() == 0,
            !started ==> forall|x: int| 0 <= x < n && #[trigger] reached@[x] ==> x == 0,
            forall|v: int|
                0 <= v < n ==> #[trigger] h@[v]@ == distance_cost_of(levenshtein(w[v], target@)),
            g@[0]@ == zero_seq(),
            paths_sound(w, g@, reached@, paths@),
            out_relaxed(w, g@, reached@, now@, later@, -1),
            forall|q: Seq<usize>|
                is_ladder(w, target@, q) && roomy(#[trigger] ladder_cost(w, q)) ==> lex_le(
                    flimit@,
                    ladder_cost(w, q),
                ),
        decreases big - rank_from(flimit@, 0),
    {
        let mut fmin: Option<PathMultiCost> = None;
        proof {
            lemma_potential_nonneg(reached@, g@, n as int);
        }
        while now.len() > 0
            invariant
                w == words_view(nodes@),
                big == pow(256, MAX_DIMENSION as nat),
                n == nodes@.len(),
                n >= 1,
                goal@.len() == n,
                h@.len() == n,
                g@.len() == n,
                reached@.len() == n,
                paths@.len() == n,
                forall|v: int| 0 <= v < n ==> #[trigger] goal@[v] == (w[v] == target@),
                !goal@[0],
                reached@[0],
                forall|v: int|
                    0 <= v < n && #[trigger] reached@[v] ==> {
                        &&& is_walk(n as int, paths@[v]@)
                        &&& paths@[v]@.last() == v
                        &&& g@[v]@ == ladder_cost(w, paths@[v]@)
                    },
                forall|y: usize| #[trigger] now@.contains(y) ==> y < n && reached@[y as int],
                forall|y: usize| #[trigger] later@.contains(y) ==> y < n && reached@[y as int],
                started ==> forall|v: int| 0 <= v < n ==> #[trigger] reached@[v],
                forall|t: int|
                    0 <= t < n && #[trigger] goal@[t] && reached@[t] ==> now@.contains(t as usize)
                        || later@.contains(t as usize),
                !started ==> now@ == seq![0usize] && later@.len() == 0 && flimit@ == h@[0]@
                    && g@[0]@ == zero_seq(),
                0 <= rank_from(flimit@, 0) < big,
                !started ==> forall|x: int| 0 <= x < n && #[trigger] reached@[x] ==> x == 0,
                forall|v: int|
                    0 <= v < n ==> #[trigger] h@[v]@ == distance_cost_of(levenshtein(w[v], target@)),
                g@[0]@ == zero_seq(),
                paths_sound(w, g@, reached@, paths@),
                out_relaxed(w, g@, reached@, now@, later@, -1),
                forall|q: Seq<usize>|
                    is_ladder(w, target@, q) && roomy(#[trigger] ladder_cost(w, q)) ==> lex_le(
                        flimit@,
                        ladder_cost(w, q),
                    ),
                fmin matches Some(m) ==> forall|y: usize|
                    #[trigger] later@.contains(y) ==> lex_le(m@, seq_add(g@[y as int]@, h@[y as int]@)),
                fmin matches Some(m) ==> lex_lt(flimit@, m@),
                later@.len() > 0 ==> fmin is Some,
                potential(reached@, g@, n as int) >= 0,
            decreases potential(reached@, g@, n as int), now@.len(),
        {
            let ghost before = now@;
            let u = now.remove(0);
            proof {
                assert(before.contains(u));
                assert forall|y: usize| #[trigger] now@.contains(y) implies before.contains(y) by {
                    lemma_remove_contains(before, 0, y);
                }
                assert forall|y: usize| y != u && before.contains(y) implies #[trigger] now@.contains(y) by {
                    lemma_remove_contains(before, 0, y);
                }
            }
            let f = g[u].saturating_add(h[u]);
            proof {
                if !started {
                    assert(u == 0);
                    crate::distance::path::lemma_add_zero(h@[0]);
                    crate::distance::path::lemma_order_reflexive(h@[0]);
                    assert(f@ == h@[0]@);
                }
            }
            if flimit.lt(&f) {
                let smaller = match fmin {
                    Some(m) => f.lt(&m),
                    None => true,
                };
                let ghost fmin_before = fmin;
                if smaller {
                    fmin = Some(f);
                }
                proof {
                    lemma_cmp_reflexive_from(f@, 0);
                    if let Some(m0) = fmin_before {
                        lemma_cmp_flip_from(f@, m0@, 0);
                        if smaller {
                            assert forall|y: usize| #[trigger] later@.contains(y) implies lex_le(
                                f@,
                                seq_add(g@[y as int]@, h@[y as int]@),
                            ) by {
                                lemma_cmp_transitive_from(f@, m0@, seq_add(g@[y as int]@, h@[y as int]@), 0);
                            }
                        }
                    }
                }
                let ghost lb = later@;
                later.push(u);
                proof {
                    assert(later@[lb.len() as int] == u);
                    assert(later@.contains(u));
                    assert forall|y: usize| #[trigger] later@.contains(y) implies lb.contains(y) || y == u by {
                        if later@.contains(y) && y != u {
                            let j = choose|j: int| 0 <= j < later@.len() && later@[j] == y;
                            assert(lb[j] == y);
                        }
                    }
                    assert forall|y: usize| lb.contains(y) implies #[trigger] later@.contains(y) by {
                        if lb.contains(y) {
                            let j = choose|j: int| 0 <= j < lb.len() && lb[j] == y;
                            assert(later@[j] == y);
                        }
                    }
                }
                continue;
            }
            if goal[u] {
                let p = copy_walk(&paths[u]);
                let c = g[u];
                proof {
                    lemma_cmp_flip_from(flimit@, f@, 0);
                    crate::distance::word::lemma_levenshtein_zero(target@);
                    assert(distance_cost_of(0) =~= zero_seq());
                    assert(seq_add(c@, zero_seq()) =~= c@);
                    assert forall|q: Seq<usize>|
                        is_ladder(w, target@, q) && bounded_cost(#[trigger] ladder_cost(w, q), true) implies lex_le(
                        c@,
                        ladder_cost(w, q),
                    ) by {
                        lemma_walk_cost_len(w, zero_seq(), q);
                        lemma_cmp_transitive_from(c@, flimit@, ladder_cost(w, q), 0);
                    }
                }
                return Some((p, c));
            }
            proof {
                if !started {
                    assert(u == 0);
                }
            }
            let ghost first = !started;
            started = true;
            let gu = g[u];
            let ghost pot_before = potential(reached@, g@, n as int);
            let ghost len0 = now@.len();
            let mut v: usize = 1;
            while v < n
                invariant
                    w == words_view(nodes@),
                    big == pow(256, MAX_DIMENSION as nat),
                    n == nodes@.len(),
                    goal@.len() == n,
                    g@.len() == n,
                    reached@.len() == n,
                    paths@.len() == n,
                    1 <= v <= n,
                    u < n,
                    !goal@[u as int],
                    reached@[u as int],
                    gu@ == ladder_cost(w, paths@[u as int]@),
                    is_walk(n as int, paths@[u as int]@),
                    paths@[u as int]@.last() == u,
                    forall|v: int| 0 <= v < n ==> #[trigger] goal@[v] == (w[v] == target@),
                    reached@[0],
                    forall|x: int|
                        0 <= x < n && #[trigger] reached@[x] ==> {
                            &&& is_walk(n as int, paths@[x]@)
                            &&& paths@[x]@.last() == x
                            &&& g@[x]@ == ladder_cost(w, paths@[x]@)
                        },
                    forall|y: usize| #[trigger] now@.contains(y) ==> y < n && reached@[y as int],
                    forall|y: usize| #[trigger] later@.contains(y) ==> y < n && reached@[y as int],
                    forall|x: int| 1 <= x < v ==> #[trigger] reached@[x],
                    forall|t: int|
                        0 <= t < n && #[trigger] goal@[t] && reached@[t] ==> now@.contains(t as usize)
                            || later@.contains(t as usize),
                    later@.len() > 0 ==> fmin is Some,
                    g@[0]@ == zero_seq(),
                    paths_sound(w, g@, reached@, paths@),
                    gu == g@[u as int],
                    first ==> forall|x: int|
                        0 <= x < n && x != u && #[trigger] reached@[x] ==> listed(now@, later@, x),
                    !first ==> forall|x: int| 0 <= x < n ==> #[trigger] reached@[x],
                    out_relaxed(w, g@, reached@, now@, later@, u as int),
                    forall|y: int|
                        1 <= y < v ==> lex_le(g@[y]@, seq_add(gu@, #[trigger] step(w, u as int, y))),
                    fmin matches Some(m) ==> forall|y: usize|
                        #[trigger] later@.contains(y) ==> lex_le(m@, seq_add(g@[y as int]@, h@[y as int]@)),
                    potential(reached@, g@, n as int) >= 0,
                    potential(reached@, g@, n as int) < pot_before || (potential(reached@, g@, n as int)
                        == pot_before && now@.len() == len0),
                decreases n - v,
            {
                if v == u {
                    proof {
                        lemma_le_add_from(gu@, step(w, u as int, v as int), 0);
                    }
                } else {
                    let ng = gu.saturating_add(path_cost(nodes[u], nodes[v]));
                    if !reached[v] || ng.lt(&g[v]) {
                        let ghost old_g = g@;
                        let ghost old_reached = reached@;
                        let ghost old_now = now@;
                        let ghost old_later = later@;
                        let ghost old_paths = paths@;
                        let ghost pu = paths@[u as int]@;
                        proof {
                            if pu.contains(v) {
                                let k = choose|k: int| 0 <= k < pu.len() && pu[k] == v;
                                lemma_prefix_cost_le(w, pu, k);
                                lemma_walk_cost_len(w, zero_seq(), pu);
                                lemma_walk_cost_len(w, zero_seq(), pu.take(k + 1));
                                lemma_le_add_from(gu@, step(w, u as int, v as int), 0);
                                lemma_cmp_transitive_from(g@[v as int]@, ladder_cost(w, pu.take(k + 1)), gu@, 0);
                                lemma_cmp_transitive_from(g@[v as int]@, gu@, ng@, 0);
                                lemma_cmp_flip_from(ng@, g@[v as int]@, 0);
                            }
                        }
                        proof {
                            lemma_potential_update(reached@, g@, v as int, ng, n as int);
                            lemma_rank_bounds(ng@, 0);
                            if reached@[v as int] {
                                lemma_rank_monotone(ng@, g@[v as int]@, 0);
                            }
                            lemma_walk_cost_push(w, zero_seq(), paths@[u as int]@, v);
                        }
                        let mut np = copy_walk(&paths[u]);
                        np.push(v);
                        assert(np@.last() == v);
                        g[v] = ng;
                        reached[v] = true;
                        paths[v] = np;
                        proof {
                            lemma_potential_nonneg(reached@, g@, n as int);
                            assert(np@ == pu.push(v));
                            assert forall|i: int, j: int| 0 <= i < j < np@.len() implies np@[i] != np@[j] by {
                                if j == pu.len() {
                                    assert(np@[i] == pu[i]);
                                    assert(pu.contains(pu[i]));
                                } else {
                                    assert(np@[i] == pu[i]);
                                    assert(np@[j] == pu[j]);
                                }
                            }
                            assert forall|x: int, k: int|
                                0 <= x < n && reached@[x] && 0 <= k < paths@[x]@.len() implies reached@[#[trigger] paths@[x]@[k] as int]
                                    && lex_le(g@[paths@[x]@[k] as int]@, ladder_cost(w, paths@[x]@.take(k + 1))) by {
                                if x == v {
                                    if k < pu.len() {
                                        assert(np@.take(k + 1) =~= pu.take(k + 1));
                                        assert(np@[k] == pu[k]);
                                        assert(pu[k] != v);
                                    } else {
                                        assert(np@.take(k + 1) =~= np@);
                                        lemma_cmp_reflexive_from(ng@, 0);
                                    }
                                } else {
                                    assert(old_reached[x]);
                                    assert(paths@[x] == old_paths[x]);
                                    if paths@[x]@[k] == v {
                                        lemma_walk_cost_len(w, zero_seq(), paths@[x]@.take(k + 1));
                                        lemma_cmp_transitive_from(
                                            ng@,
                                            old_g[v as int]@,
                                            ladder_cost(w, paths@[x]@.take(k + 1)),
                                            0,
                                        );
                                    }
                                }
                            }
                        }
                        later = remove_all(&later, v);
                        now = remove_all(&now, v);
                        let ghost nb = now@;
                        now.insert(0, v);
                        proof {
                            assert forall|y: usize| #[trigger] now@.contains(y) <==> (y == v || nb.contains(y)) by {
                                lemma_insert_front_contains(nb, v, y);
                            }
                            assert forall|x: int| 0 <= x < n && x != v implies listed(now@, later@, x) == listed(
                                old_now,
                                old_later,
                                x,
                            ) by {}
                            assert(listed(now@, later@, v as int));
                            lemma_cmp_reflexive_from(ng@, 0);
                            assert forall|x: int, y: int|
                                0 <= x < n && 1 <= y < n && x != u && reached@[x] && !listed(now@, later@, x) implies lex_le(
                                g@[y]@,
                                seq_add(g@[x]@, #[trigger] step(w, x, y)),
                            ) by {
                                assert(x != v);
                                assert(old_reached[x]);
                                if y == v {
                                    assert(old_reached[y]);
                                    lemma_cmp_transitive_from(ng@, old_g[y]@, seq_add(g@[x]@, step(w, x, y)), 0);
                                }
                            }
                            assert forall|y: int| 1 <= y < v + 1 implies lex_le(
                                g@[y]@,
                                seq_add(gu@, #[trigger] step(w, u as int, y)),
                            ) by {}
                        }
                    } else {
                        proof {
                            lemma_cmp_flip_from(ng@, g@[v as int]@, 0);
                        }
                    }
                }
                v = v + 1;
            }
            proof {
                assert forall|x: int, y: int|
                    0 <= x < n && 1 <= y < n && reached@[x] && !listed(now@, later@, x) implies lex_le(
                    g@[y]@,
                    seq_add(g@[x]@, #[trigger] step(w, x, y)),
                ) by {
                    if x == u {
                        assert(lex_le(g@[y]@, seq_add(gu@, step(w, u as int, y))));
                    }
                }
            }
        }
        match fmin {
            None => {
                proof {
                    assert(now@.len() == 0);
                    assert(later@.len() == 0);
                    if !started {
                        assert(now@.len() == 1);
                    }
                    assert forall|t: int| 0 <= t < w.len() implies w[t] != target@ by {
                        assert(reached@[t]);
                        assert(goal@[t] == (w[t] == target@));
                        if goal@[t] {
                            assert(now@.contains(t as usize) || later@.contains(t as usize));
                        }
                        if now@.contains(t as usize) {
                            let j = choose|j: int| 0 <= j < now@.len() && now@[j] == t as usize;
                        }
                        if later@.contains(t as usize) {
                            let j = choose|j: int| 0 <= j < later@.len() && later@[j] == t as usize;
                        }
                    }
                }
                return None;
            },
            Some(m) => {
                proof {
                    lemma_rank_monotone(flimit@, m@, 0);
                    lemma_rank_bounds(m@, 0);
                    if !started {
                        assert(now@.len() == 1);
                    }
                    assert forall|q: Seq<usize>|
                        is_ladder(w, target@, q) && roomy(#[trigger] ladder_cost(w, q)) implies lex_le(
                        m@,
                        ladder_cost(w, q),
                    ) by {
                        let k = lemma_fringe_walk(w, target@, g@, h@, reached@, now@, later@, q);
                        lemma_estimate_at_target(w, target@, q);
                        lemma_walk_cost_len(w, zero_seq(), q);
                        if k >= 0 {
                            let y = q[k];
                            if now@.contains(y) {
                                let j = choose|j: int| 0 <= j < now@.len() && now@[j] == y;
                            }
                            assert(later@.contains(y));
                            lemma_cmp_transitive_from(
                                m@,
                                seq_add(g@[y as int]@, h@[y as int]@),
                                ladder_cost(w, q),
                                0,
                            );
                        } else {
                            assert(goal@[q.last() as int]);
                            assert(reached@[q.last() as int]);
                        }
                    }
                }
                flimit = m;
                now = later;
                later = Vec::new();
            },
        }
    }
}

/// Exact string comparison.
pub fn same_word(a: &str, b: &str) -> (r: bool)
    ensures
        r == (a@ == b@),
{
    let x = a.to_owned();
    let y = b.to_owned();
    x == y
}

/// The heuristic of each node: its edit distance to the target as a cost,
/// or zero everywhere for an uninformed search.
fn heuristics(nodes: &Vec<&str>, target: &str, informed: bool) -> (h: Vec<PathMultiCost>)
    ensures
        h@.len() == nodes@.len(),
        forall|v: int| 0 <= v < nodes@.len() ==> #[trigger] h@[v]@ == if informed {
            distance_cost_of(levenshtein(nodes@[v]@, target@))
        } else {
            zero_seq()
        },
{
    let mut h: Vec<PathMultiCost> = Vec::new();
    let mut v: usize = 0;
    while v < nodes.len()
        invariant
            0 <= v <= nodes@.len(),
            h@.len() == v,
            forall|u: int| 0 <= u < v ==> #[trigger] h@[u]@ == if informed {
                distance_cost_of(levenshtein(nodes@[u]@, target@))
            } else {
                zero_seq()
            },
        decreases nodes@.len() - v,
    {
        if informed {
            h.push(edit_distance(nodes[v], target));
        } else {
            h.push(PathMultiCost::zero());
        }
        v = v + 1;
    }
    h
}

/// Whether each node holds the target.
fn goals(nodes: &Vec<&str>, target: &str) -> (g: Vec<bool>)
    ensures
        g@.len() == nodes@.len(),
        forall|v: int| 0 <= v < nodes@.len() ==> #[trigger] g@[v] == (nodes@[v]@ == target@),
{
    let mut g: Vec<bool> = Vec::new();
    let mut v: usize = 0;
    while v < nodes.len()
        invariant
            0 <= v <= nodes@.len(),
            g@.len() == v,
            forall|u: int| 0 <= u < v ==> #[trigger] g@[u] == (nodes@[u]@ == target@),
        decreases nodes@.len() - v,
    {
        g.push(same_word(nodes[v], target));
        v = v + 1;
    }
    g
}

/// Best-first search from node 0 to a node holding `target`. It keeps
/// the best known cost of each node and repeatedly expands the open node of
/// least `cost + heuristic` (the lowest node index among equals). With
/// `informed` the heuristic is the edit distance to the target; without, it
/// is zero and this is uniform-cost search.
pub fn best_first(nodes: &Vec<&str>, target: &str, informed: bool) -> (r: Option<(Vec<usize>, PathMultiCost)>)
    requires
        nodes@.len() >= 1,
    ensures
        search_outcome(words_view(nodes@), target@, r),
        r matches Some((p, c)) ==> p@.no_duplicates(),
        !informed ==> (r matches Some((p, c)) ==> cheapest(words_view(nodes@), target@, c@, false)),
        informed ==> (r matches Some((p, c)) ==> cheapest(words_view(nodes@), target@, c@, true)),
{
    let ghost w = words_view(nodes@);
    let ghost proving = !informed || metric_towards(w, target@);
    proof {
        lemma_metric_towards(w, target@);
    }
    let n = nodes.len();
    let h = heuristics(nodes, target, informed);
    let goal = goals(nodes, target);
    if goal[0] {
        let p = vec![0usize];
        assert(p@ =~= seq![0usize]);
        let z = PathMultiCost::zero();
        proof {
            assert forall|q: Seq<usize>|
                is_ladder(w, target@, q) && bounded_cost(#[trigger] ladder_cost(w, q), informed) implies lex_le(
                z@,
                ladder_cost(w, q),
            ) by {
                lemma_walk_cost_len(w, zero_seq(), q);
                lemma_zero_le_from(ladder_cost(w, q), 0);
            }
        }
        return Some((p, z));
    }
    let mut dist: Vec<PathMultiCost> = vec![PathMultiCost::zero(); n];
    let mut reached: Vec<bool> = vec![false; n];
    reached[0] = true;
    let mut closed: Vec<bool> = vec![false; n];
    let mut parent: Vec<usize> = vec![0usize; n];
    let mut order: Vec<usize> = vec![0usize; n];
    let mut count: usize = 0;
    assert(w.len() == n);
    proof {
        lemma_count_false_all(closed@, n as int);
    }
    loop
        invariant
            w == words_view(nodes@),
            n == nodes@.len(),
            n >= 1,
            goal@.len() == n,
            h@.len() == n,
            dist@.len() == n,
            reached@.len() == n,
            closed@.len() == n,
            parent@.len() == n,
            order@.len() == n,
            count + count_false(closed@, n as int) == n,
            forall|v: int| 0 <= v < n ==> #[trigger] goal@[v] == (w[v] == target@),
            !goal@[0],
            reached@[0],
            dist@[0]@ == zero_seq(),
            forall|v: int| 0 <= v < n && #[trigger] closed@[v] ==> reached@[v] && !goal@[v]
                && order@[v] < count,
            count > 0 ==> forall|v: int| 0 <= v < n ==> #[trigger] reached@[v],
            count == 0 ==> forall|v: int| 0 <= v < n && #[trigger] reached@[v] ==> v == 0,
            !closed@[0] ==> count == 0,
            forall|v: int|
                0 < v < n && #[trigger] reached@[v] ==> {
                    &&& parent@[v] < n
                    &&& closed@[parent@[v] as int]
                    &&& dist@[v]@ == seq_add(
                        dist@[parent@[v] as int]@,
                        step(w, parent@[v] as int, v),
                    )
                    &&& closed@[v] ==> order@[parent@[v] as int] < order@[v]
                },
            !informed ==> forall|v: int| 0 <= v < n ==> #[trigger] h@[v]@ == zero_seq(),
            informed ==> forall|v: int|
                0 <= v < n ==> #[trigger] h@[v]@ == distance_cost_of(levenshtein(w[v], target@)),
            proving == (!informed || metric_towards(w, target@)),
            proving ==> settled(w, dist@, closed@, informed),
            proving ==> relaxed(w, dist@, closed@, reached@),
        decreases count_false(closed@, n as int),
    {
        let mut best: usize = n;
        let mut best_f = PathMultiCost::zero();
        let mut v: usize = 0;
        while v < n
            invariant
                n == reached@.len(),
                n == closed@.len(),
                n == dist@.len(),
                n == h@.len(),
                v <= n,
                best == n || (best < v && reached@[best as int] && !closed@[best as int]),
                best == n ==> forall|u: int| 0 <= u < v ==> !(reached@[u] && !closed@[u]),
                best < n ==> best_f@ == seq_add(dist@[best as int]@, h@[best as int]@),
                best < n ==> forall|u: int|
                    0 <= u < v && #[trigger] reached@[u] && !closed@[u] ==> lex_le(
                        best_f@,
                        seq_add(dist@[u]@, h@[u]@),
                    ),
            decreases n - v,
        {
            if reached[v] && !closed[v] {
                let f = dist[v].saturating_add(h[v]);
                if best == n || f.lt(&best_f) {
                    proof {
                        if best < n {
                            assert forall|u: int|
                                0 <= u < v && #[trigger] reached@[u] && !closed@[u] implies lex_le(
                                f@,
                                seq_add(dist@[u]@, h@[u]@),
                            ) by {
                                lemma_cmp_transitive_from(f@, best_f@, seq_add(dist@[u]@, h@[u]@), 0);
                            }
                        }
                        lemma_cmp_reflexive_from(f@, 0);
                    }
                    best = v;
                    best_f = f;
                } else {
                    proof {
                        lemma_cmp_flip_from(f@, best_f@, 0);
                    }
                }
            }
            v = v + 1;
        }
        proof {
            if best < n && !informed {
                assert forall|y: int|
                    0 <= y < n && #[trigger] reached@[y] && !closed@[y] implies lex_le(
                    dist@[best as int]@,
                    dist@[y]@,
                ) by {
                    lemma_add_zero(dist@[y]);
                    lemma_add_zero(dist@[best as int]);
                }
            }
        }
        if best == n {
            proof {
                if count == 0 {
                    assert(!closed@[0]);
                }
                assert forall|u: int| 0 <= u < w.len() implies w[u] != target@ by {
                    assert(reached@[u]);
                }
            }
            return None;
        }
        if goal[best] {
            let mut path: Vec<usize> = vec![best];
            let mut cur: usize = best;
            assert(path@.drop_first() =~= Seq::<usize>::empty());
            while cur != 0
                invariant
                    w == words_view(nodes@),
                    n == nodes@.len(),
                    dist@.len() == n,
                    reached@.len() == n,
                    closed@.len() == n,
                    parent@.len() == n,
                    order@.len() == n,
                    best < n,
                    cur < n,
                    reached@[cur as int],
                    cur != best ==> closed@[cur as int],
                    path@.len() >= 1,
                    path@[0] == cur,
                    path@.last() == best,
                    forall|i: int, j: int|
                        0 <= i < j < path@.len() ==> (if closed@[path@[i] as int] {
                            order@[path@[i] as int] as int
                        } else {
                            count as int
                        }) < (if closed@[path@[j] as int] {
                            order@[path@[j] as int] as int
                        } else {
                            count as int
                        }),
                    !closed@[best as int],
                    forall|i: int| 1 <= i < path@.len() ==> 1 <= #[trigger] path@[i] < n,
                    walk_cost(w, dist@[cur as int]@, path@) == dist@[best as int]@,
                    forall|v: int| 0 <= v < n && #[trigger] closed@[v] ==> reached@[v]
                        && order@[v] < count,
                    forall|v: int|
                        0 < v < n && #[trigger] reached@[v] ==> {
                            &&& parent@[v] < n
                            &&& closed@[parent@[v] as int]
                            &&& dist@[v]@ == seq_add(
                                dist@[parent@[v] as int]@,
                                step(w, parent@[v] as int, v),
                            )
                            &&& closed@[v] ==> order@[parent@[v] as int] < order@[v]
                        },
                decreases if closed@[cur as int] { order@[cur as int] as int } else { count as int },
            {
                let p = parent[cur];
                let ghost old_path = path@;
                let ghost old_cur = cur;
                path.insert(0, p);
                cur = p;
                proof {
                    assert(path@.drop_first() =~= old_path);
                    assert(path@[1] == old_cur);
                    assert forall|i: int| 0 < i < path@.len() implies path@[i] == old_path[i - 1] by {}
                }
            }
            let c = dist[best];
            proof {
                lemma_metric_towards(w, target@);
                if proving {
                    assert forall|q: Seq<usize>|
                        is_ladder(w, target@, q) && bounded_cost(#[trigger] ladder_cost(w, q), informed) implies lex_le(
                        c@,
                        ladder_cost(w, q),
                    ) by {
                        if q.len() > 1 {
                            assert(1 <= q[q.len() - 1] < n);
                        }
                        assert(goal@[q.last() as int]);
                        if informed {
                            lemma_informed_reaches_goal(w, target@, dist@, h@, closed@, reached@, best as int, q);
                        } else {
                            lemma_open_walk_bound(w, dist@, closed@, reached@, best as int, q);
                        }
                    }
                }
            }
            return Some((path, c));
        }
        proof {
            lemma_count_false_set(closed@, best as int, n as int);
        }
        let ghost first = count == 0;
        let ghost old_closed = closed@;
        closed[best] = true;
        proof {
            if proving {
                assert forall|q: Seq<usize>|
                    is_walk(closed@.len() as int, q) && closed@[q.last() as int] && bounded_cost(
                        #[trigger] ladder_cost(w, q),
                        informed,
                    ) implies lex_le(dist@[q.last() as int]@, ladder_cost(w, q)) by {
                    if q.last() == best {
                        if informed {
                            lemma_informed_settles(w, target@, dist@, h@, old_closed, reached@, best as int, q);
                        } else {
                            lemma_open_walk_bound(w, dist@, old_closed, reached@, best as int, q);
                        }
                    } else {
                        assert(old_closed[q.last() as int]);
                    }
                }
            }
        }
        order[best] = count;
        count = count + 1;
        let mut v: usize = 1;
        while v < n
            invariant
                w == words_view(nodes@),
                n == nodes@.len(),
                n >= 1,
                goal@.len() == n,
                dist@.len() == n,
                reached@.len() == n,
                closed@.len() == n,
                parent@.len() == n,
                order@.len() == n,
                1 <= v <= n,
                best < n,
                closed@[best as int],
                count <= n,
                forall|v: int| 0 <= v < n ==> #[trigger] goal@[v] == (w[v] == target@),
                reached@[0],
                dist@[0]@ == zero_seq(),
                forall|u: int| 1 <= u < v ==> #[trigger] reached@[u],
                forall|v: int| 0 <= v < n && #[trigger] closed@[v] ==> reached@[v] && !goal@[v]
                    && order@[v] < count,
                proving ==> settled(w, dist@, closed@, informed),
                !first ==> forall|u: int| 0 <= u < n ==> #[trigger] reached@[u],
                first ==> forall|x: int| 0 <= x < n && #[trigger] closed@[x] ==> x == best,
                proving ==> forall|x: int, y: int|
                    0 <= x < n && 1 <= y < n && closed@[x] && x != best && !closed@[y] ==> reached@[y]
                        && lex_le(dist@[y]@, seq_add(dist@[x]@, #[trigger] step(w, x, y))),
                proving ==> forall|y: int|
                    1 <= y < v && !closed@[y] ==> lex_le(
                        dist@[y]@,
                        seq_add(dist@[best as int]@, #[trigger] step(w, best as int, y)),
                    ),
                forall|v: int|
                    0 < v < n && #[trigger] reached@[v] ==> {
                        &&& parent@[v] < n
                        &&& closed@[parent@[v] as int]
                        &&& dist@[v]@ == seq_add(
                            dist@[parent@[v] as int]@,
                            step(w, parent@[v] as int, v),
                        )
                        &&& closed@[v] ==> order@[parent@[v] as int] < order@[v]
                    },
            decreases n - v,
        {
            if !closed[v] {
                let ng = dist[best].saturating_add(path_cost(nodes[best], nodes[v]));
                if !reached[v] || ng.lt(&dist[v]) {
                    let ghost old_dist = dist@;
                    let ghost was_reached = reached@[v as int];
                    dist[v] = ng;
                    reached[v] = true;
                    parent[v] = best;
                    proof {
                        lemma_cmp_reflexive_from(ng@, 0);
                        if proving {
                            assert forall|x: int, y: int|
                                0 <= x < n && 1 <= y < n && closed@[x] && x != best && !closed@[y] implies reached@[y]
                                    && lex_le(dist@[y]@, seq_add(dist@[x]@, #[trigger] step(w, x, y))) by {
                                if y == v {
                                    assert(was_reached);
                                    lemma_cmp_transitive_from(
                                        ng@,
                                        old_dist[y]@,
                                        seq_add(dist@[x]@, step(w, x, y)),
                                        0,
                                    );
                                }
                            }
                            assert forall|q: Seq<usize>|
                                is_walk(closed@.len() as int, q) && closed@[q.last() as int] && bounded_cost(
                                    #[trigger] ladder_cost(w, q),
                                    informed,
                                ) implies lex_le(dist@[q.last() as int]@, ladder_cost(w, q)) by {
                                assert(old_dist[q.last() as int] == dist@[q.last() as int]);
                            }
                        }
                    }
                } else {
                    proof {
                        lemma_cmp_flip_from(ng@, dist@[v as int]@, 0);
                    }
                }
            }
            v = v + 1;
        }
    }
}

} // verus!
