//! The cost of a word ladder: a vector of edit counts, one bucket per
//! edit size, ordered from the largest edits down and added with
//! saturation.
use std::cmp::Ordering;
use vstd::prelude::*;
use vstd::string::StringExecFns;

verus! {

/// Number of buckets of a cost vector. Storage index 0 is the most
/// significant bucket (edits of `MAX_DIMENSION` letters or more), storage
/// index `MAX_DIMENSION - 1` the least significant one (1-letter edits).
pub const MAX_DIMENSION: usize = 20;

/// Scalar held in each bucket.
pub type EditDistance = u8;

/// Largest value of a bucket; additions saturate there.
pub const BUCKET_MAX: u8 = 255;

/// A cost made of `MAX_DIMENSION` counters, compared lexicographically from
/// the most significant bucket down, and added bucket by bucket with
/// saturation.
#[derive(Clone, Copy, Debug, Eq, Ord, Hash)]
pub struct PathMultiCost {
    pub data: [EditDistance; MAX_DIMENSION],
}

/// Saturating sum of two buckets.
pub open spec fn sat_add(x: u8, y: u8) -> u8 {
    if x + y > BUCKET_MAX {
        BUCKET_MAX
    } else {
        (x + y) as u8
    }
}

/// Bucketwise saturating sum of two cost sequences.
pub open spec fn seq_add(a: Seq<u8>, b: Seq<u8>) -> Seq<u8> {
    Seq::new(a.len(), |i: int| sat_add(a[i], b[i]))
}

/// Lexicographic comparison of `a` and `b` from position `i` on.
pub open spec fn lex_cmp_from(a: Seq<u8>, b: Seq<u8>, i: int) -> Ordering
    decreases a.len() - i,
{
    if i >= a.len() || i < 0 {
        Ordering::Equal
    } else if a[i] < b[i] {
        Ordering::Less
    } else if a[i] > b[i] {
        Ordering::Greater
    } else {
        lex_cmp_from(a, b, i + 1)
    }
}

/// Lexicographic comparison, most significant bucket first.
pub open spec fn lex_cmp(a: Seq<u8>, b: Seq<u8>) -> Ordering {
    lex_cmp_from(a, b, 0)
}

pub open spec fn lex_le(a: Seq<u8>, b: Seq<u8>) -> bool {
    lex_cmp(a, b) != Ordering::Greater
}

pub open spec fn lex_lt(a: Seq<u8>, b: Seq<u8>) -> bool {
    lex_cmp(a, b) == Ordering::Less
}

/// The cost sequence with `value` at bucket `dimension` (clamped to the
/// most significant one) and zero elsewhere. Bucket `d` sits at storage
/// index `MAX_DIMENSION - 1 - d`.
pub open spec fn single(value: u8, dimension: int) -> Seq<u8> {
    let pos = if dimension >= MAX_DIMENSION { 0 } else { MAX_DIMENSION - 1 - dimension };
    Seq::new(MAX_DIMENSION as nat, |i: int| if i == pos { value } else { 0u8 })
}

pub open spec fn zero_seq() -> Seq<u8> {
    Seq::new(MAX_DIMENSION as nat, |i: int| 0u8)
}

/// The non-zero buckets among the first `n` storage positions, as
/// `(value, granularity)` pairs, most significant first. The granularity of
/// storage position `k` is `MAX_DIMENSION - k`.
pub open spec fn sparse_upto(s: Seq<u8>, n: int) -> Seq<(u8, usize)>
    decreases n,
{
    if n <= 0 {
        Seq::empty()
    } else if s[n - 1] == 0 {
        sparse_upto(s, n - 1)
    } else {
        sparse_upto(s, n - 1).push((s[n - 1], (MAX_DIMENSION - (n - 1)) as usize))
    }
}

pub open spec fn sparse(s: Seq<u8>) -> Seq<(u8, usize)> {
    sparse_upto(s, s.len() as int)
}

impl View for PathMultiCost {
    type V = Seq<u8>;

    open spec fn view(&self) -> Seq<u8> {
        self.data@
    }
}

impl PathMultiCost {
    /// A cost holding `cost` at bucket `dimension` (clamped into
    /// `[0, MAX_DIMENSION - 1]`), zero elsewhere.
    pub fn new(cost: EditDistance, dimension: usize) -> (r: PathMultiCost)
        ensures
            r@ == single(cost, dimension as int),
    {
        let mut data = [0u8; MAX_DIMENSION];
        let pos: usize = if dimension >= MAX_DIMENSION { 0 } else { MAX_DIMENSION - 1 - dimension };
        data[pos] = cost;
        let r = PathMultiCost { data };
        assert(r@ =~= single(cost, dimension as int));
        r
    }

    /// The additive identity: every bucket zero.
    pub fn zero() -> (r: PathMultiCost)
        ensures
            r@ == zero_seq(),
    {
        let r = PathMultiCost::new(0, 0);
        assert(r@ =~= zero_seq());
        r
    }

    /// The least cost of the order, which is the zero cost.
    pub fn min_value() -> (r: PathMultiCost)
        ensures
            r@ == zero_seq(),
    {
        PathMultiCost::zero()
    }

    /// Whether every bucket is zero.
    pub fn is_zero(&self) -> (r: bool)
        ensures
            r == (self@ == zero_seq()),
    {
        let mut i: usize = 0;
        while i < MAX_DIMENSION
            invariant
                0 <= i <= MAX_DIMENSION,
                forall|j: int| 0 <= j < i ==> self@[j] == 0,
            decreases MAX_DIMENSION - i,
        {
            if self.data[i] != 0 {
                assert(self@[i as int] != zero_seq()[i as int]);
                return false;
            }
            i = i + 1;
        }
        assert(self@ =~= zero_seq());
        true
    }

    /// The non-zero buckets as `(value, granularity)` pairs, most
    /// significant first; the granularity is the number of letters that one
    /// step of that bucket changes.
    pub fn get_cost(self) -> (r: Vec<(EditDistance, usize)>)
        ensures
            r@ == sparse(self@),
    {
        let mut r: Vec<(EditDistance, usize)> = Vec::new();
        let mut k: usize = 0;
        while k < MAX_DIMENSION
            invariant
                0 <= k <= MAX_DIMENSION,
                r@ == sparse_upto(self@, k as int),
            decreases MAX_DIMENSION - k,
        {
            if self.data[k] != 0 {
                r.push((self.data[k], MAX_DIMENSION - k));
            }
            k = k + 1;
        }
        r
    }

    /// Bucketwise sum, each bucket saturating at `BUCKET_MAX`.
    pub fn saturating_add(self, rhs: PathMultiCost) -> (r: PathMultiCost)
        ensures
            r@ == seq_add(self@, rhs@),
    {
        let mut data = self.data;
        let mut i: usize = 0;
        while i < MAX_DIMENSION
            invariant
                0 <= i <= MAX_DIMENSION,
                forall|j: int| 0 <= j < i ==> data@[j] == sat_add(self@[j], rhs@[j]),
                forall|j: int| i <= j < MAX_DIMENSION ==> data@[j] == self@[j],
            decreases MAX_DIMENSION - i,
        {
            data[i] = match rhs.data[i].checked_add(data[i]) {
                Some(s) => s,
                None => BUCKET_MAX,
            };
            i = i + 1;
        }
        let r = PathMultiCost { data };
        assert(r@ =~= seq_add(self@, rhs@));
        r
    }

    /// Three-way comparison, most significant bucket first.
    pub fn compare(&self, other: &PathMultiCost) -> (r: Ordering)
        ensures
            r == lex_cmp(self@, other@),
    {
        let mut i: usize = 0;
        while i < MAX_DIMENSION
            invariant
                0 <= i <= MAX_DIMENSION,
                forall|j: int| 0 <= j < i ==> self@[j] == other@[j],
            decreases MAX_DIMENSION - i,
        {
            if self.data[i] < other.data[i] {
                proof { lemma_cmp_equal_prefix(self@, other@, i as int); }
                return Ordering::Less;
            }
            if self.data[i] > other.data[i] {
                proof { lemma_cmp_equal_prefix(self@, other@, i as int); }
                return Ordering::Greater;
            }
            i = i + 1;
        }
        proof { lemma_cmp_equal_prefix(self@, other@, i as int); }
        Ordering::Equal
    }

    /// `self <= other` in the cost order.
    pub fn le(&self, other: &PathMultiCost) -> (r: bool)
        ensures
            r == lex_le(self@, other@),
    {
        match self.compare(other) {
            Ordering::Greater => false,
            _ => true,
        }
    }

    /// `self < other` in the cost order.
    pub fn lt(&self, other: &PathMultiCost) -> (r: bool)
        ensures
            r == lex_lt(self@, other@),
    {
        match self.compare(other) {
            Ordering::Less => true,
            _ => false,
        }
    }
}

impl PartialEq for PathMultiCost {
    fn eq(&self, other: &PathMultiCost) -> (r: bool) {
        let c = self.compare(other);
        proof { lemma_cmp_equal_iff(self@, other@, 0); }
        match c {
            Ordering::Equal => true,
            _ => false,
        }
    }
}

impl vstd::std_specs::cmp::PartialEqSpecImpl for PathMultiCost {
    open spec fn obeys_eq_spec() -> bool {
        true
    }

    open spec fn eq_spec(&self, other: &PathMultiCost) -> bool {
        self@ == other@
    }
}

impl PartialOrd for PathMultiCost {
    fn partial_cmp(&self, other: &PathMultiCost) -> Option<Ordering> {
        Some(self.compare(other))
    }
}

impl vstd::std_specs::cmp::PartialOrdSpecImpl for PathMultiCost {
    open spec fn obeys_partial_cmp_spec() -> bool {
        true
    }

    open spec fn partial_cmp_spec(&self, other: &PathMultiCost) -> Option<Ordering> {
        Some(lex_cmp(self@, other@))
    }
}

impl core::ops::Add for PathMultiCost {
    type Output = PathMultiCost;

    fn add(self, rhs: PathMultiCost) -> PathMultiCost {
        let r = self.saturating_add(rhs);
        proof {
            let c = choose|c: PathMultiCost| c@ == seq_add(self@, rhs@);
            assert(r.data =~= c.data);
        }
        r
    }
}

impl vstd::std_specs::ops::AddSpecImpl for PathMultiCost {
    open spec fn obeys_add_spec() -> bool {
        true
    }

    open spec fn add_req(self, rhs: PathMultiCost) -> bool {
        true
    }

    /// The cost whose buckets are the saturating sums of the operands'.
    open spec fn add_spec(self, rhs: PathMultiCost) -> PathMultiCost {
        choose|c: PathMultiCost| c@ == seq_add(self@, rhs@)
    }
}

/// Two sequences of equal length compare `Equal` from position `i` on
/// exactly when they agree from there.
pub proof fn lemma_cmp_equal_iff(a: Seq<u8>, b: Seq<u8>, i: int)
    requires
        0 <= i <= a.len(),
        a.len() == b.len(),
    ensures
        (lex_cmp_from(a, b, i) == Ordering::Equal) <==> (forall|j: int|
            i <= j < a.len() ==> a[j] == b[j]),
        i == 0 ==> ((lex_cmp(a, b) == Ordering::Equal) <==> a == b),
    decreases a.len() - i,
{
    if i < a.len() {
        lemma_cmp_equal_iff(a, b, i + 1);
        if lex_cmp_from(a, b, i) == Ordering::Equal {
            assert forall|j: int| i <= j < a.len() implies a[j] == b[j] by {
                if j > i {
                }
            }
        }
    }
    if i == 0 && lex_cmp(a, b) == Ordering::Equal {
        assert(a =~= b);
    }
}

/// Comparing from position `i` on gives the whole comparison when the
/// positions before `i` agree.
pub proof fn lemma_cmp_equal_prefix(a: Seq<u8>, b: Seq<u8>, i: int)
    requires
        0 <= i <= a.len(),
        forall|j: int| 0 <= j < i ==> a[j] == b[j],
    ensures
        lex_cmp(a, b) == lex_cmp_from(a, b, i),
    decreases i,
{
    if i > 0 {
        lemma_cmp_equal_prefix(a, b, i - 1);
    }
}

} // verus!

verus! {

pub proof fn lemma_cmp_reflexive_from(a: Seq<u8>, i: int)
    requires
        0 <= i <= a.len(),
    ensures
        lex_cmp_from(a, a, i) == Ordering::Equal,
    decreases a.len() - i,
{
    if i < a.len() {
        lemma_cmp_reflexive_from(a, i + 1);
    }
}

pub proof fn lemma_cmp_flip_from(a: Seq<u8>, b: Seq<u8>, i: int)
    requires
        0 <= i <= a.len(),
        a.len() == b.len(),
    ensures
        lex_cmp_from(a, b, i) == Ordering::Less <==> lex_cmp_from(b, a, i) == Ordering::Greater,
        lex_cmp_from(a, b, i) == Ordering::Equal <==> lex_cmp_from(b, a, i) == Ordering::Equal,
    decreases a.len() - i,
{
    if i < a.len() {
        lemma_cmp_flip_from(a, b, i + 1);
    }
}

pub proof fn lemma_cmp_transitive_from(a: Seq<u8>, b: Seq<u8>, c: Seq<u8>, i: int)
    requires
        0 <= i <= a.len(),
        a.len() == b.len(),
        b.len() == c.len(),
        lex_cmp_from(a, b, i) != Ordering::Greater,
        lex_cmp_from(b, c, i) != Ordering::Greater,
    ensures
        lex_cmp_from(a, c, i) != Ordering::Greater,
    decreases a.len() - i,
{
    if i < a.len() && a[i] == b[i] && b[i] == c[i] {
        lemma_cmp_transitive_from(a, b, c, i + 1);
    }
}

pub proof fn lemma_add_monotone_from(a: Seq<u8>, b: Seq<u8>, c: Seq<u8>, i: int)
    requires
        0 <= i <= a.len(),
        a.len() == b.len(),
        b.len() == c.len(),
        lex_cmp_from(a, b, i) != Ordering::Greater,
        forall|j: int| 0 <= j < b.len() ==> b[j] + c[j] <= BUCKET_MAX,
    ensures
        lex_cmp_from(seq_add(a, c), seq_add(b, c), i) != Ordering::Greater,
    decreases a.len() - i,
{
    if i < a.len() && a[i] == b[i] {
        lemma_add_monotone_from(a, b, c, i + 1);
    }
}

/// Adding a cost never lowers a cost.
pub proof fn lemma_le_add_from(a: Seq<u8>, b: Seq<u8>, i: int)
    requires
        0 <= i <= a.len(),
        a.len() == b.len(),
    ensures
        lex_cmp_from(a, seq_add(a, b), i) != Ordering::Greater,
    decreases a.len() - i,
{
    if i < a.len() && a[i] == seq_add(a, b)[i] {
        lemma_le_add_from(a, b, i + 1);
    }
}

/// Adding `c` keeps a strict order when the smaller side does not
/// saturate.
pub proof fn lemma_add_strict_from(a: Seq<u8>, b: Seq<u8>, c: Seq<u8>, i: int)
    requires
        0 <= i <= a.len(),
        a.len() == b.len(),
        b.len() == c.len(),
        lex_cmp_from(a, b, i) == Ordering::Less,
        forall|j: int| 0 <= j < a.len() ==> a[j] + c[j] < BUCKET_MAX,
    ensures
        lex_cmp_from(seq_add(a, c), seq_add(b, c), i) == Ordering::Less,
    decreases a.len() - i,
{
    if a[i] == b[i] {
        lemma_add_strict_from(a, b, c, i + 1);
    }
}

/// The zero cost is below every cost.
pub proof fn lemma_zero_le_from(a: Seq<u8>, i: int)
    requires
        0 <= i <= a.len(),
        a.len() == MAX_DIMENSION,
    ensures
        lex_cmp_from(zero_seq(), a, i) != Ordering::Greater,
    decreases a.len() - i,
{
    if i < a.len() && a[i] == 0 {
        lemma_zero_le_from(a, i + 1);
    }
}

/// Adding the zero cost leaves a cost unchanged.
pub proof fn lemma_add_zero(a: PathMultiCost)
    ensures
        seq_add(a@, zero_seq()) == a@,
        seq_add(zero_seq(), a@) == a@,
{
    assert(seq_add(a@, zero_seq()) =~= a@);
    assert(seq_add(zero_seq(), a@) =~= a@);
}

/// Addition of costs is commutative.
pub proof fn lemma_add_commutative(a: PathMultiCost, b: PathMultiCost)
    ensures
        seq_add(a@, b@) == seq_add(b@, a@),
{
    assert(seq_add(a@, b@) =~= seq_add(b@, a@));
}

/// Addition of costs is associative, saturation included.
pub proof fn lemma_add_associative(a: PathMultiCost, b: PathMultiCost, c: PathMultiCost)
    ensures
        seq_add(a@, seq_add(b@, c@)) == seq_add(seq_add(a@, b@), c@),
{
    assert(seq_add(a@, seq_add(b@, c@)) =~= seq_add(seq_add(a@, b@), c@));
}

/// The cost order is reflexive.
pub proof fn lemma_order_reflexive(a: PathMultiCost)
    ensures
        lex_le(a@, a@),
        lex_cmp(a@, a@) == Ordering::Equal,
{
    lemma_cmp_reflexive_from(a@, 0);
}

/// The cost order is antisymmetric: two costs below each other are equal.
pub proof fn lemma_order_antisymmetric(a: PathMultiCost, b: PathMultiCost)
    requires
        lex_le(a@, b@),
        lex_le(b@, a@),
    ensures
        a@ == b@,
{
    lemma_cmp_flip_from(a@, b@, 0);
    lemma_cmp_equal_iff(a@, b@, 0);
}

/// The cost order is transitive.
pub proof fn lemma_order_transitive(a: PathMultiCost, b: PathMultiCost, c: PathMultiCost)
    requires
        lex_le(a@, b@),
        lex_le(b@, c@),
    ensures
        lex_le(a@, c@),
{
    lemma_cmp_transitive_from(a@, b@, c@, 0);
}

/// The cost order is total: any two costs are comparable, and `<` is the
/// converse of `>`.
pub proof fn lemma_order_total(a: PathMultiCost, b: PathMultiCost)
    ensures
        lex_le(a@, b@) || lex_le(b@, a@),
        lex_lt(a@, b@) <==> lex_cmp(b@, a@) == Ordering::Greater,
        lex_lt(a@, b@) <==> !lex_le(b@, a@),
{
    lemma_cmp_flip_from(a@, b@, 0);
}

/// Addition is monotone in both operands: `a <= b` gives `a + c <= b + c`
/// and `c + a <= c + b`, as long as no bucket of `b + c` saturates.
pub proof fn lemma_add_monotone(a: PathMultiCost, b: PathMultiCost, c: PathMultiCost)
    requires
        lex_le(a@, b@),
        forall|j: int| 0 <= j < MAX_DIMENSION ==> b@[j] + c@[j] <= BUCKET_MAX,
    ensures
        lex_le(seq_add(a@, c@), seq_add(b@, c@)),
        lex_le(seq_add(c@, a@), seq_add(c@, b@)),
{
    lemma_add_monotone_from(a@, b@, c@, 0);
    lemma_add_commutative(a, c);
    lemma_add_commutative(b, c);
}

} // verus!

verus! {

/// The decimal digit `d`.
pub open spec fn digit(d: nat) -> char {
    if d == 0 {
        '0'
    } else if d == 1 {
        '1'
    } else if d == 2 {
        '2'
    } else if d == 3 {
        '3'
    } else if d == 4 {
        '4'
    } else if d == 5 {
        '5'
    } else if d == 6 {
        '6'
    } else if d == 7 {
        '7'
    } else if d == 8 {
        '8'
    } else {
        '9'
    }
}

/// `n` written in decimal.
pub open spec fn decimal(n: nat) -> Seq<char>
    decreases n,
{
    if n < 10 {
        seq![digit(n)]
    } else {
        decimal(n / 10).push(digit(n % 10))
    }
}

/// One part of a rendered cost: `"<count> <size>-letter mutation"`.
pub open spec fn part_text(part: (u8, usize)) -> Seq<char> {
    decimal(part.0 as nat) + " "@ + decimal(part.1 as nat) + "-letter mutation"@
}

/// The first `i` parts, joined by `" + "`.
pub open spec fn parts_text(parts: Seq<(u8, usize)>, i: int) -> Seq<char>
    decreases i,
{
    if i <= 0 {
        Seq::empty()
    } else if i == 1 {
        part_text(parts[0])
    } else {
        parts_text(parts, i - 1) + " + "@ + part_text(parts[i - 1])
    }
}

/// A cost rendered for people: its sparse parts, most significant first,
/// joined by `" + "`; `"0 mutation"` for the zero cost.
pub open spec fn cost_text(c: Seq<u8>) -> Seq<char> {
    if sparse(c).len() == 0 {
        "0 mutation"@
    } else {
        parts_text(sparse(c), sparse(c).len() as int)
    }
}

/// Relies on `String::push`: appends `c` at the end of `s`.
#[verifier::external_body]
fn append_char(s: &mut String, c: char)
    ensures
        final(s)@ == old(s)@.push(c),
{
    s.push(c)
}

fn digit_char(d: usize) -> (r: char)
    requires
        d < 10,
    ensures
        r == digit(d as nat),
{
    if d == 0 {
        '0'
    } else if d == 1 {
        '1'
    } else if d == 2 {
        '2'
    } else if d == 3 {
        '3'
    } else if d == 4 {
        '4'
    } else if d == 5 {
        '5'
    } else if d == 6 {
        '6'
    } else if d == 7 {
        '7'
    } else if d == 8 {
        '8'
    } else {
        '9'
    }
}

fn append_decimal(s: &mut String, n: usize)
    ensures
        final(s)@ == old(s)@ + decimal(n as nat),
    decreases n,
{
    if n >= 10 {
        append_decimal(s, n / 10);
    }
    append_char(s, digit_char(n % 10));
    assert(final(s)@ =~= old(s)@ + decimal(n as nat));
}

impl PathMultiCost {
    /// The cost rendered for people, e.g. `"1 2-letter mutation + 2 1-letter
    /// mutation"`, or `"0 mutation"` for the zero cost.
    pub fn describe(&self) -> (r: String)
        ensures
            r@ == cost_text(self@),
    {
        let parts = self.get_cost();
        let mut r = String::new();
        if parts.len() == 0 {
            r.append("0 mutation");
            return r;
        }
        let mut i: usize = 0;
        while i < parts.len()
            invariant
                0 <= i <= parts@.len(),
                parts@ == sparse(self@),
                r@ == parts_text(parts@, i as int),
            decreases parts@.len() - i,
        {
            if i > 0 {
                r.append(" + ");
            }
            let (v, g) = parts[i];
            append_decimal(&mut r, v as usize);
            r.append(" ");
            append_decimal(&mut r, g);
            r.append("-letter mutation");
            i = i + 1;
        }
        r
    }
}

} // verus!
