use vstd::prelude::*;

verus! {

/// Largest magnitude that one evaluated term can add to a total:
/// 128 dice of 255 sides.
pub const TERM_BOUND: i32 = 32640;

/// Why an expression could not be rolled.
#[derive(Clone, Copy, Debug, PartialEq, Eq, Structural)]
pub enum RollError {
    /// The expression holds no term at all.
    EmptyExpression,
    /// A range whose lower end lies above its upper end (also a die of no sides).
    InvalidRange,
    /// A count, a number of sides or a modifier does not fit its integer type.
    NumericOverflow,
    /// The total of the terms does not fit an `i32`.
    TotalOverflow,
}

impl RollError {
    /// A sentence that says what went wrong.
    pub fn message(&self) -> (r: &'static str)
        ensures
            *self == RollError::EmptyExpression ==> r@
                == "Invalid die roll expression: no die roll terms found."@,
            *self == RollError::InvalidRange ==> r@
                == "Invalid range: min must be less than or equal to max"@,
            *self == RollError::NumericOverflow ==> r@
                == "Invalid die roll expression: a number does not fit its type."@,
            *self == RollError::TotalOverflow ==> r@
                == "Invalid die roll expression: the total does not fit an i32."@,
    {
        match self {
            RollError::EmptyExpression => "Invalid die roll expression: no die roll terms found.",
            RollError::InvalidRange => "Invalid range: min must be less than or equal to max",
            RollError::NumericOverflow => "Invalid die roll expression: a number does not fit its type.",
            RollError::TotalOverflow => "Invalid die roll expression: the total does not fit an i32.",
        }
    }
}

/// One additive part of an expression.
#[derive(Clone, Copy, Debug, PartialEq, Eq, Structural)]
pub enum DieRollTerm {
    /// `<multiplier>d<sides>`: roll `|multiplier|` dice; a negative multiplier
    /// subtracts their sum.
    DieRoll { multiplier: i8, sides: u8 },
    /// A flat constant added to the total.
    Modifier(i8),
}

/// Absolute value of a multiplier, as the number of dice it stands for.
pub open spec fn dice_count(m: i8) -> int {
    if m < 0 { -(m as int) } else { m as int }
}

/// `values` is a possible evaluation of `t`: a modifier evaluates to itself,
/// a die roll to `|multiplier|` values that each lie in `[1, sides]`.
pub open spec fn is_evaluation(t: DieRollTerm, values: Seq<i32>) -> bool {
    match t {
        DieRollTerm::Modifier(n) => values == seq![n as i32],
        DieRollTerm::DieRoll { multiplier, sides } => {
            &&& values.len() == dice_count(multiplier)
            &&& forall|k: int| 0 <= k < values.len() ==> 1 <= #[trigger] values[k] <= sides
        },
    }
}

pub open spec fn seq_sum(v: Seq<i32>) -> int
    decreases v.len(),
{
    if v.len() == 0 {
        0
    } else {
        seq_sum(v.drop_last()) + v.last()
    }
}

/// What an evaluated term adds to the total: a modifier its value, a die roll
/// the sum of its values, negated when the multiplier is negative.
pub open spec fn contribution(t: DieRollTerm, values: Seq<i32>) -> int {
    match t {
        DieRollTerm::Modifier(n) => n as int,
        DieRollTerm::DieRoll { multiplier, .. } => if multiplier < 0 {
            -seq_sum(values)
        } else {
            seq_sum(values)
        },
    }
}

/// The sum of the contributions of evaluated terms.
pub open spec fn total_of_terms(ev: Seq<(DieRollTerm, Seq<i32>)>) -> int
    decreases ev.len(),
{
    if ev.len() == 0 {
        0
    } else {
        total_of_terms(ev.drop_last()) + contribution(ev.last().0, ev.last().1)
    }
}

proof fn lemma_sum_bounds(v: Seq<i32>, hi: int)
    requires
        forall|k: int| 0 <= k < v.len() ==> 1 <= #[trigger] v[k] <= hi,
    ensures
        v.len() <= seq_sum(v) <= v.len() * hi,
    decreases v.len(),
{
    if v.len() > 0 {
        let w = v.drop_last();
        assert forall|k: int| 0 <= k < w.len() implies 1 <= #[trigger] w[k] <= hi by {
            assert(w[k] == v[k]);
        }
        lemma_sum_bounds(w, hi);
        assert(v.len() * hi == w.len() * hi + hi) by (nonlinear_arith)
            requires v.len() == w.len() + 1;
    }
}

/// An evaluated term adds at most `TERM_BOUND` in either direction.
pub proof fn lemma_contribution_bounded(t: DieRollTerm, values: Seq<i32>)
    requires
        is_evaluation(t, values),
    ensures
        -TERM_BOUND <= contribution(t, values) <= TERM_BOUND,
{
    if let DieRollTerm::DieRoll { multiplier, sides } = t {
        lemma_sum_bounds(values, sides as int);
        assert(values.len() * (sides as int) <= 128 * 255) by (nonlinear_arith)
            requires values.len() <= 128, 0 <= sides <= 255;
    }
}

impl DieRollTerm {
    /// What the evaluated term `v` adds to the total.
    pub fn calculate(v: &(DieRollTerm, Vec<i32>)) -> (r: i32)
        requires
            is_evaluation(v.0, v.1@),
        ensures
            r == contribution(v.0, v.1@),
    {
        proof {
            lemma_contribution_bounded(v.0, v.1@);
        }
        match v.0 {
            DieRollTerm::Modifier(n) => n as i32,
            DieRollTerm::DieRoll { multiplier, sides } => {
                let values = &v.1;
                let mut sum: i32 = 0;
                let mut k: usize = 0;
                while k < values.len()
                    invariant
                        is_evaluation(v.0, values@),
                        v.0 == (DieRollTerm::DieRoll { multiplier, sides }),
                        k <= values.len(),
                        sum == seq_sum(values@.subrange(0, k as int)),
                    decreases values.len() - k,
                {
                    let ghost pre = values@.subrange(0, k as int);
                    let ghost next = values@.subrange(0, k as int + 1);
                    proof {
                        assert(next.drop_last() =~= pre);
                        assert forall|j: int| 0 <= j < pre.len() implies 1 <= #[trigger] pre[j]
                            <= sides by {
                            assert(pre[j] == values@[j]);
                        }
                        lemma_sum_bounds(pre, sides as int);
                        assert(pre.len() * (sides as int) <= 128 * 255) by (nonlinear_arith)
                            requires pre.len() <= 128, 0 <= sides <= 255;
                    }
                    sum = sum + values[k];
                    k = k + 1;
                }
                assert(values@.subrange(0, values.len() as int) =~= values@);
                if multiplier < 0 {
                    -sum
                } else {
                    sum
                }
            },
        }
    }
}

} // verus!
