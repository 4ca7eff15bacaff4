use vstd::prelude::*;

verus! {

/// Largest magnitude a stored vector component may have.  Components are
/// fixed-point values scaled by `SCALE`, so this bound admits real values up
/// to 65.536 in magnitude.
pub const COMP_LIMIT: i64 = 65536;

/// Fixed-point scale: a component of `SCALE` stands for the real value 1.0.
pub const SCALE: i64 = 1000;

/// Largest number of components a stored vector may have.
pub const DIM_LIMIT: usize = 1024;

/// Largest magnitude a dot product of two bounded vectors may have:
/// `DIM_LIMIT * COMP_LIMIT * COMP_LIMIT`.
pub const MAX_DOT: i128 = 4398046511104;

/// Every component small enough that similarity arithmetic over `i128`
/// cannot overflow, and the dimension within the supported bound.
pub open spec fn bounded_vec(a: Seq<i64>) -> bool {
    &&& a.len() <= DIM_LIMIT
    &&& forall|i: int| 0 <= i < a.len() ==> -COMP_LIMIT <= #[trigger] a[i] <= COMP_LIMIT
}

/// Dot product of the first `n` components of `a` and `b`.
pub open spec fn dot_prefix(a: Seq<i64>, b: Seq<i64>, n: int) -> int
    decreases n,
{
    if n <= 0 {
        0
    } else {
        dot_prefix(a, b, n - 1) + a[n - 1] * b[n - 1]
    }
}

/// Dot product of two vectors of equal length.
pub open spec fn spec_dot(a: Seq<i64>, b: Seq<i64>) -> int {
    dot_prefix(a, b, a.len() as int)
}

/// Squared Euclidean norm of a vector.
pub open spec fn spec_norm2(a: Seq<i64>) -> int {
    dot_prefix(a, a, a.len() as int)
}

/// The exact value of a cosine-similarity score: `num / sqrt(den)`, with
/// `den > 0`.  A zero score is represented as `num == 0, den == 1`.
pub struct ScoreVal {
    pub num: int,
    pub den: int,
}

impl ScoreVal {
    /// The score that stands for exactly 0.0.
    pub open spec fn zero() -> ScoreVal {
        ScoreVal { num: 0, den: 1 }
    }

    /// The score's value is exactly 0.0.
    pub open spec fn is_zero(self) -> bool {
        self.num == 0
    }

    /// The score's value is exactly 1.0: `num / sqrt(den) == 1`.
    pub open spec fn is_one(self) -> bool {
        self.num > 0 && self.num * self.num == self.den
    }

    /// The score's value strictly exceeds 1/2:
    /// `num / sqrt(den) > 1/2  <==>  num > 0 && 4 * num^2 > den`.
    pub open spec fn exceeds_half(self) -> bool {
        self.num > 0 && 4 * self.num * self.num > self.den
    }

    /// The score's value strictly exceeds `other`'s.  Squares are compared
    /// under cross-multiplication, with signs handled first, since
    /// `x -> x^2` is monotone only on one side of zero.
    pub open spec fn gt(self, other: ScoreVal) -> bool {
        if self.num > 0 && other.num > 0 {
            self.num * self.num * other.den > other.num * other.num * self.den
        } else if self.num > 0 {
            true
        } else if other.num > 0 {
            false
        } else if self.num == 0 {
            other.num < 0
        } else if other.num == 0 {
            false
        } else {
            self.num * self.num * other.den < other.num * other.num * self.den
        }
    }
}

/// Cosine similarity of `a` and `b` as an exact value.  Mismatched lengths,
/// empty vectors, and vectors of zero norm all score exactly zero; otherwise
/// the value is `dot(a,b) / (norm(a) * norm(b))`, carried as the pair
/// `(dot(a,b), norm2(a) * norm2(b))`.
pub open spec fn spec_score(a: Seq<i64>, b: Seq<i64>) -> ScoreVal {
    if a.len() != b.len() || a.len() == 0 {
        ScoreVal::zero()
    } else {
        let na = spec_norm2(a);
        let nb = spec_norm2(b);
        if na == 0 || nb == 0 {
            ScoreVal::zero()
        } else {
            ScoreVal { num: spec_dot(a, b), den: na * nb }
        }
    }
}

/// An exact cosine-similarity score, as computed: `num / sqrt(den)`.
#[derive(PartialEq, Eq, Structural, Clone, Copy, Debug)]
pub struct Score {
    pub num: i128,
    pub den: i128,
}

impl View for Score {
    type V = ScoreVal;

    open spec fn view(&self) -> ScoreVal {
        ScoreVal { num: self.num as int, den: self.den as int }
    }
}

impl Score {
    /// Bounds under which the comparison arithmetic below cannot overflow.
    pub open spec fn wf(self) -> bool {
        &&& 1 <= self.den <= MAX_DOT * MAX_DOT
        &&& -MAX_DOT <= self.num <= MAX_DOT
    }

    /// The score is exactly 0.0.
    pub fn is_zero(&self) -> (r: bool)
        ensures
            r == self@.is_zero(),
    {
        self.num == 0
    }

    /// The score is exactly 1.0.
    pub fn is_one(&self) -> (r: bool)
        requires
            self.wf(),
        ensures
            r == self@.is_one(),
    {
        proof {
            lemma_mul_bounds_sq(self.num as int, MAX_DOT as int);
        }
        self.num > 0 && self.num * self.num == self.den
    }

    /// The score strictly exceeds 1/2.
    pub fn exceeds_half(&self) -> (r: bool)
        requires
            self.wf(),
        ensures
            r == self@.exceeds_half(),
    {
        proof {
            lemma_mul_bounds_sq(self.num as int, MAX_DOT as int);
            assert(4 * (self.num as int) * (self.num as int) == 4 * ((self.num as int) * (
            self.num as int))) by (nonlinear_arith);
        }
        let q: i128 = self.num * self.num;
        self.num > 0 && 4 * q > self.den
    }
}

/// `|x| <= m` gives `x * x <= m * m`.
pub proof fn lemma_mul_bounds_sq(x: int, m: int)
    requires
        -m <= x <= m,
    ensures
        0 <= x * x <= m * m,
{
    assert(0 <= x * x <= m * m) by (nonlinear_arith)
        requires
            -m <= x <= m,
    ;
}

/// A partial self dot product is non-negative, and zero exactly when every
/// component it covers is zero.
pub proof fn lemma_norm2_prefix(a: Seq<i64>, n: int)
    requires
        0 <= n <= a.len(),
    ensures
        dot_prefix(a, a, n) >= 0,
        dot_prefix(a, a, n) == 0 <==> (forall|i: int| 0 <= i < n ==> a[i] == 0),
    decreases n,
{
    if n > 0 {
        lemma_norm2_prefix(a, n - 1);
        assert(a[n - 1] * a[n - 1] >= 0 && (a[n - 1] * a[n - 1] == 0 <==> a[n - 1] == 0))
            by (nonlinear_arith);
    }
}

/// A dot product against a vector whose covered components are all zero is
/// zero.
pub proof fn lemma_dot_prefix_zero_left(a: Seq<i64>, b: Seq<i64>, n: int)
    requires
        0 <= n,
        forall|i: int| 0 <= i < n ==> a[i] == 0,
    ensures
        dot_prefix(a, b, n) == 0,
    decreases n,
{
    if n > 0 {
        lemma_dot_prefix_zero_left(a, b, n - 1);
        assert(a[n - 1] * b[n - 1] == 0) by (nonlinear_arith)
            requires
                a[n - 1] == 0,
        ;
    }
}

/// The dot product is symmetric.
pub proof fn lemma_dot_prefix_sym(a: Seq<i64>, b: Seq<i64>, n: int)
    ensures
        dot_prefix(a, b, n) == dot_prefix(b, a, n),
    decreases n,
{
    if n > 0 {
        lemma_dot_prefix_sym(a, b, n - 1);
        assert(a[n - 1] * b[n - 1] == b[n - 1] * a[n - 1]) by (nonlinear_arith);
    }
}

/// A non-zero vector's similarity with itself is exactly 1.0: the score is
/// maximal.
pub proof fn lemma_score_self_is_one(a: Seq<i64>)
    requires
        a.len() > 0,
        exists|i: int| 0 <= i < a.len() && a[i] != 0,
    ensures
        spec_score(a, a).is_one(),
{
    lemma_norm2_prefix(a, a.len() as int);
    let n2 = spec_norm2(a);
    assert(n2 > 0);
    assert(spec_score(a, a) == ScoreVal { num: n2, den: n2 * n2 });
}

/// Vectors of mismatched length score exactly zero.
pub proof fn lemma_score_len_mismatch(a: Seq<i64>, b: Seq<i64>)
    requires
        a.len() != b.len(),
    ensures
        spec_score(a, b).is_zero(),
{
}

/// An all-zero vector scores exactly zero against any vector.
pub proof fn lemma_score_zero_vec(a: Seq<i64>, b: Seq<i64>)
    requires
        forall|i: int| 0 <= i < a.len() ==> a[i] == 0,
    ensures
        spec_score(a, b).is_zero(),
{
    if a.len() == b.len() && a.len() > 0 {
        lemma_norm2_prefix(a, a.len() as int);
    }
}

/// The score is symmetric: `score(a, b) == score(b, a)`.
pub proof fn lemma_score_sym(a: Seq<i64>, b: Seq<i64>)
    ensures
        spec_score(a, b) == spec_score(b, a),
{
    if a.len() == b.len() && a.len() > 0 {
        lemma_dot_prefix_sym(a, b, a.len() as int);
        let na = spec_norm2(a);
        let nb = spec_norm2(b);
        assert(na * nb == nb * na) by (nonlinear_arith);
    }
}

/// Dot product over `i128`, proved equal to the mathematical dot product.
pub fn dot_i128(a: &Vec<i64>, b: &Vec<i64>) -> (r: i128)
    requires
        bounded_vec(a@),
        bounded_vec(b@),
        a@.len() == b@.len(),
    ensures
        r == spec_dot(a@, b@),
        -MAX_DOT <= r <= MAX_DOT,
{
    let cc: i128 = (COMP_LIMIT as i128) * (COMP_LIMIT as i128);
    let mut acc: i128 = 0;
    let mut i: usize = 0;
    while i < a.len()
        invariant
            bounded_vec(a@),
            bounded_vec(b@),
            a@.len() == b@.len(),
            0 <= i <= a@.len(),
            acc == dot_prefix(a@, b@, i as int),
            cc == COMP_LIMIT as int * COMP_LIMIT as int,
            -(i as int) * cc <= acc <= (i as int) * cc,
        decreases a@.len() - i,
    {
        proof {
            lemma_mul_bounds_sq(a@[i as int] as int, COMP_LIMIT as int);
            assert(-cc <= a@[i as int] * b@[i as int] <= cc) by (nonlinear_arith)
                requires
                    -COMP_LIMIT <= a@[i as int] <= COMP_LIMIT,
                    -COMP_LIMIT <= b@[i as int] <= COMP_LIMIT,
                    cc == COMP_LIMIT as int * COMP_LIMIT as int,
            ;
            assert(-(i as int + 1) * cc <= acc + a@[i as int] * b@[i as int] <= (i as int + 1)
                * cc) by (nonlinear_arith)
                requires
                    -(i as int) * cc <= acc <= (i as int) * cc,
                    -cc <= a@[i as int] * b@[i as int] <= cc,
            ;
            assert((i as int + 1) * cc <= DIM_LIMIT * cc) by (nonlinear_arith)
                requires
                    i as int + 1 <= DIM_LIMIT,
                    cc >= 0,
            ;
        }
        let p: i128 = (a[i] as i128) * (b[i] as i128);
        acc = acc + p;
        i = i + 1;
    }
    proof {
        assert((a@.len() as int) * cc <= DIM_LIMIT * cc) by (nonlinear_arith)
            requires
                a@.len() <= DIM_LIMIT,
                cc >= 0,
        ;
    }
    acc
}

/// Cosine similarity of two bounded vectors as an exact score.
pub fn cosine_similarity(a: &Vec<i64>, b: &Vec<i64>) -> (r: Score)
    requires
        bounded_vec(a@),
        bounded_vec(b@),
    ensures
        r@ == spec_score(a@, b@),
        r.wf(),
{
    if a.len() != b.len() || a.len() == 0 {
        return Score { num: 0, den: 1 };
    }
    let na = dot_i128(a, a);
    let nb = dot_i128(b, b);
    proof {
        lemma_norm2_prefix(a@, a@.len() as int);
        lemma_norm2_prefix(b@, b@.len() as int);
    }
    if na == 0 || nb == 0 {
        return Score { num: 0, den: 1 };
    }
    let d = dot_i128(a, b);
    proof {
        assert(1 <= na * nb <= MAX_DOT * MAX_DOT) by (nonlinear_arith)
            requires
                1 <= na <= MAX_DOT,
                1 <= nb <= MAX_DOT,
        ;
    }
    Score { num: d, den: na * nb }
}

} // verus!
