//! The cost of one step between two words, and the edit-distance
//! estimate that guides the searches.
use crate::distance::path::{
    lemma_cmp_equal_prefix, lex_cmp_from, lex_le, lex_lt, seq_add, single, zero_seq,
    EditDistance, PathMultiCost, MAX_DIMENSION,
};
use std::cmp::Ordering;
use vstd::prelude::*;

verus! {

/// The Levenshtein distance: the least number of single-character
/// deletions, insertions and substitutions that turn `a` into `b`.
pub open spec fn levenshtein(a: Seq<char>, b: Seq<char>) -> nat
    decreases a.len() + b.len(),
{
    if a.len() == 0 {
        b.len()
    } else if b.len() == 0 {
        a.len()
    } else {
        let del = levenshtein(a.drop_last(), b) + 1;
        let ins = levenshtein(a, b.drop_last()) + 1;
        let sub = levenshtein(a.drop_last(), b.drop_last()) + if a.last() == b.last() {
            0nat
        } else {
            1nat
        };
        if del <= ins && del <= sub {
            del
        } else if ins <= sub {
            ins
        } else {
            sub
        }
    }
}

/// The distance differs from the difference of the lengths by no less
/// than zero, and is at most their sum.
pub proof fn lemma_levenshtein_length(a: Seq<char>, b: Seq<char>)
    ensures
        levenshtein(a, b) + a.len() >= b.len(),
        levenshtein(a, b) + b.len() >= a.len(),
        levenshtein(a, b) <= a.len() + b.len(),
    decreases a.len() + b.len(),
{
    if a.len() > 0 && b.len() > 0 {
        lemma_levenshtein_length(a.drop_last(), b);
        lemma_levenshtein_length(a, b.drop_last());
        lemma_levenshtein_length(a.drop_last(), b.drop_last());
    }
}

/// A word is at distance zero from itself.
pub proof fn lemma_levenshtein_zero(a: Seq<char>)
    ensures
        levenshtein(a, a) == 0,
    decreases a.len(),
{
    if a.len() > 0 {
        lemma_levenshtein_zero(a.drop_last());
    }
}

/// Dropping the last letter of either word moves the distance by at most
/// one upwards from the shorter pair.
proof fn lemma_levenshtein_drop(a: Seq<char>, c: Seq<char>)
    ensures
        a.len() > 0 ==> levenshtein(a, c) <= levenshtein(a.drop_last(), c) + 1,
        c.len() > 0 ==> levenshtein(a, c) <= levenshtein(a, c.drop_last()) + 1,
{
}

/// The Levenshtein distance keeps the triangle inequality.
pub proof fn lemma_levenshtein_triangle(a: Seq<char>, b: Seq<char>, c: Seq<char>)
    ensures
        levenshtein(a, c) <= levenshtein(a, b) + levenshtein(b, c),
    decreases a.len() + b.len() + c.len(),
{
    if a.len() == 0 {
        lemma_levenshtein_length(b, c);
    } else if c.len() == 0 {
        lemma_levenshtein_length(a, b);
    } else if b.len() == 0 {
        lemma_levenshtein_length(a, c);
    } else {
        let a1 = a.drop_last();
        let b1 = b.drop_last();
        let c1 = c.drop_last();
        lemma_levenshtein_drop(a, c);
        let ab = levenshtein(a, b);
        let bc = levenshtein(b, c);
        if ab == levenshtein(a1, b) + 1 {
            lemma_levenshtein_triangle(a1, b, c);
        } else if bc == levenshtein(b, c1) + 1 {
            lemma_levenshtein_triangle(a, b, c1);
        } else if ab == levenshtein(a, b1) + 1 {
            if bc == levenshtein(b1, c) + 1 {
                lemma_levenshtein_triangle(a, b1, c);
            } else {
                lemma_levenshtein_triangle(a, b1, c1);
            }
        } else {
            if bc == levenshtein(b1, c) + 1 {
                lemma_levenshtein_triangle(a1, b1, c);
            } else {
                lemma_levenshtein_triangle(a1, b1, c1);
            }
        }
    }
}

/// Relies on `edit_distance::edit_distance`: the Levenshtein distance of the
/// two strings, counted over their characters.
#[verifier::external_body]
fn raw_edit_distance(w1: &str, w2: &str) -> (r: usize)
    ensures
        r as nat == levenshtein(w1@, w2@),
{
    edit_distance::edit_distance(w1, w2)
}

/// The step cost of a move whose raw edit distance is `n`: nothing for a
/// move to the same word, else one unit in the bucket of `n`-letter edits
/// (bucket `min(n, MAX_DIMENSION) - 1`).
pub open spec fn step_cost_of(n: nat) -> Seq<u8> {
    if n == 0 {
        zero_seq()
    } else {
        single(1, (if n < MAX_DIMENSION { n } else { MAX_DIMENSION as nat }) - 1)
    }
}

/// The heuristic cost of a raw edit distance `n`: `n`, clamped to
/// `MAX_DIMENSION - 1`, in the least significant bucket.
pub open spec fn distance_cost_of(n: nat) -> Seq<u8> {
    single((if n < MAX_DIMENSION - 1 { n } else { (MAX_DIMENSION - 1) as nat }) as u8, 0)
}

/// The step cost for a raw edit distance `n` (see `step_cost_of`).
pub fn step_cost_from_distance(n: usize) -> (r: PathMultiCost)
    ensures
        r@ == step_cost_of(n as nat),
{
    if n == 0 {
        PathMultiCost::min_value()
    } else {
        let m: usize = if n < MAX_DIMENSION { n } else { MAX_DIMENSION };
        PathMultiCost::new(1 as EditDistance, m - 1)
    }
}

/// The heuristic cost for a raw edit distance `n` (see `distance_cost_of`).
pub fn distance_cost_from_distance(n: usize) -> (r: PathMultiCost)
    ensures
        r@ == distance_cost_of(n as nat),
{
    let m: usize = if n < MAX_DIMENSION - 1 { n } else { MAX_DIMENSION - 1 };
    PathMultiCost::new(m as EditDistance, 0)
}

/// Cost of one step from `w1` to `w2`. It rewards chains of small edits:
/// this is an order and a monoid, not a distance, since it breaks the
/// triangle inequality.
pub fn path_cost(w1: &str, w2: &str) -> (r: PathMultiCost)
    ensures
        r@ == step_cost_of(levenshtein(w1@, w2@)),
{
    step_cost_from_distance(raw_edit_distance(w1, w2))
}

/// The edit distance of `w1` and `w2` as a cost in the least significant
/// bucket: an admissible estimate of the step costs still to pay.
pub fn edit_distance(w1: &str, w2: &str) -> (r: PathMultiCost)
    ensures
        r@ == distance_cost_of(levenshtein(w1@, w2@)),
{
    distance_cost_from_distance(raw_edit_distance(w1, w2))
}

/// A step never costs less than its edit distance as a cost, so the edit
/// distance to the target never overestimates the step costs still to pay.
pub proof fn lemma_step_cost_admissible(w1: Seq<char>, w2: Seq<char>)
    ensures
        lex_le(distance_cost_of(levenshtein(w1, w2)), step_cost_of(levenshtein(w1, w2))),
{
    lemma_admissible_for_distance(levenshtein(w1, w2));
}

/// The admissibility of a step, for any raw edit distance `n`.
pub proof fn lemma_admissible_for_distance(n: nat)
    ensures
        lex_le(distance_cost_of(n), step_cost_of(n)),
{
    let d = distance_cost_of(n);
    let s = step_cost_of(n);
    if n <= 1 {
        assert(d =~= s);
        lemma_cmp_equal_prefix(d, s, MAX_DIMENSION as int);
    } else {
        let m: int = if n < MAX_DIMENSION { n as int } else { MAX_DIMENSION as int };
        let p: int = MAX_DIMENSION - m;
        assert forall|j: int| 0 <= j < p implies d[j] == s[j] by {}
        lemma_cmp_equal_prefix(d, s, p);
        assert(lex_cmp_from(d, s, p) == Ordering::Less);
    }
}

/// Edit distances as costs keep the triangle inequality whenever the raw
/// distances do: `x + y >= z` gives `cost(x) + cost(y) >= cost(z)`.
pub proof fn lemma_distance_cost_triangle(x: nat, y: nat, z: nat)
    requires
        z <= x + y,
    ensures
        lex_le(distance_cost_of(z), seq_add(distance_cost_of(x), distance_cost_of(y))),
{
    let a = distance_cost_of(z);
    let b = seq_add(distance_cost_of(x), distance_cost_of(y));
    let last = MAX_DIMENSION - 1;
    assert forall|j: int| 0 <= j < last implies a[j] == b[j] by {}
    lemma_cmp_equal_prefix(a, b, last);
    assert(lex_cmp_from(a, b, last + 1) == Ordering::Equal);
}

/// The estimate is consistent: from `u`, it never exceeds the cost of a
/// step to `v` plus the estimate from `v`, as long as the raw distances
/// keep the triangle inequality (`ut <= uv + vt`).
pub proof fn lemma_distance_cost_consistent(ut: nat, uv: nat, vt: nat)
    requires
        ut <= uv + vt,
    ensures
        lex_le(distance_cost_of(ut), seq_add(step_cost_of(uv), distance_cost_of(vt))),
{
    let a = distance_cost_of(ut);
    let b = seq_add(step_cost_of(uv), distance_cost_of(vt));
    if uv <= 1 {
        let last = MAX_DIMENSION - 1;
        assert forall|j: int| 0 <= j < last implies a[j] == b[j] by {}
        lemma_cmp_equal_prefix(a, b, last);
        assert(lex_cmp_from(a, b, last + 1) == Ordering::Equal);
    } else {
        let m: int = if uv < MAX_DIMENSION { uv as int } else { MAX_DIMENSION as int };
        let p: int = MAX_DIMENSION - m;
        assert forall|j: int| 0 <= j < p implies a[j] == b[j] by {}
        lemma_cmp_equal_prefix(a, b, p);
        assert(lex_cmp_from(a, b, p) == Ordering::Less);
    }
}

/// The edit distance as a cost keeps the triangle inequality:
/// `edit_distance(a, b) + edit_distance(b, c) >= edit_distance(a, c)`.
pub proof fn lemma_edit_distance_triangle(a: Seq<char>, b: Seq<char>, c: Seq<char>)
    ensures
        lex_le(
            distance_cost_of(levenshtein(a, c)),
            seq_add(distance_cost_of(levenshtein(a, b)), distance_cost_of(levenshtein(b, c))),
        ),
{
    lemma_levenshtein_triangle(a, b, c);
    lemma_distance_cost_triangle(levenshtein(a, b), levenshtein(b, c), levenshtein(a, c));
}

/// Two steps that each change fewer letters than a third one cost less
/// together than that third step alone: step costs break the triangle
/// inequality on purpose.
pub proof fn lemma_small_steps_cheaper(x: nat, y: nat, z: nat)
    requires
        1 <= x < z,
        1 <= y < z,
        z <= MAX_DIMENSION,
    ensures
        lex_lt(seq_add(step_cost_of(x), step_cost_of(y)), step_cost_of(z)),
{
    let a = seq_add(step_cost_of(x), step_cost_of(y));
    let b = step_cost_of(z);
    let p: int = MAX_DIMENSION - z;
    assert forall|j: int| 0 <= j < p implies a[j] == b[j] by {}
    lemma_cmp_equal_prefix(a, b, p);
    assert(lex_cmp_from(a, b, p) == Ordering::Less);
}

} // verus!
