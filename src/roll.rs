use vstd::prelude::*;

use crate::random::roll_range;
use crate::scan::{normalized_chars, parse_spec, scan_terms, strip_white_space};
use crate::term::{
    dice_count, is_evaluation, lemma_contribution_bounded, total_of_terms, DieRollTerm, RollError,
    TERM_BOUND,
};

verus! {

/// The outcome of rolling an expression: its normalized text, each term with
/// the values it rolled (left to right), and the total.
#[derive(Debug)]
pub struct Roll {
    drex: String,
    values: Vec<(DieRollTerm, Vec<i32>)>,
    total: i32,
}

/// What a `Roll` holds, as mathematical values.
pub struct RollView {
    pub expression: Seq<char>,
    pub evaluated: Seq<(DieRollTerm, Seq<i32>)>,
    pub total: int,
}

pub open spec fn evaluated_view(v: Seq<(DieRollTerm, Vec<i32>)>) -> Seq<(DieRollTerm, Seq<i32>)> {
    v.map_values(|p: (DieRollTerm, Vec<i32>)| (p.0, p.1@))
}

impl View for Roll {
    type V = RollView;

    closed spec fn view(&self) -> RollView {
        RollView {
            expression: self.drex@,
            evaluated: evaluated_view(self.values@),
            total: self.total as int,
        }
    }
}

/// The terms of a sequence of evaluated terms.
pub open spec fn terms_of(ev: Seq<(DieRollTerm, Seq<i32>)>) -> Seq<DieRollTerm> {
    ev.map_values(|p: (DieRollTerm, Seq<i32>)| p.0)
}

/// `ev` evaluates the terms `ts`, one for one and in order.
pub open spec fn evaluates(ts: Seq<DieRollTerm>, ev: Seq<(DieRollTerm, Seq<i32>)>) -> bool {
    &&& ev.len() == ts.len()
    &&& forall|k: int|
        0 <= k < ev.len() ==> (#[trigger] ev[k]).0 == ts[k] && is_evaluation(ts[k], ev[k].1)
}

/// A die roll with dice to roll but no sides to roll them on.
pub open spec fn is_sideless(t: DieRollTerm) -> bool {
    t matches DieRollTerm::DieRoll { multiplier, sides } && multiplier != 0 && sides == 0
}

pub open spec fn has_sideless(ts: Seq<DieRollTerm>) -> bool {
    exists|k: int| 0 <= k < ts.len() && is_sideless(#[trigger] ts[k])
}

/// `v` is a possible roll of `expression`: its text is the normalized
/// expression, its terms are the parsed terms each with a possible evaluation,
/// and its total is the sum of their contributions.
pub open spec fn is_roll_of(expression: Seq<char>, v: RollView) -> bool {
    &&& parse_spec(expression) matches Ok(ts)
    &&& ts.len() > 0
    &&& v.expression == strip_white_space(expression)
    &&& evaluates(ts, v.evaluated)
    &&& v.total == total_of_terms(v.evaluated)
}

/// Two rolls of one expression record the same normalized text and the same
/// terms in the same order; only the rolled values may differ.
pub proof fn lemma_rolls_agree_on_terms(expression: Seq<char>, a: RollView, b: RollView)
    requires
        is_roll_of(expression, a),
        is_roll_of(expression, b),
    ensures
        a.expression == b.expression,
        terms_of(a.evaluated) == terms_of(b.evaluated),
{
    let ts = parse_spec(expression)->Ok_0;
    assert(terms_of(a.evaluated) =~= ts);
    assert(terms_of(b.evaluated) =~= ts);
}

impl DieRollTerm {
    /// Rolls the term: a modifier gives its own value, a die roll `|multiplier|`
    /// values in `[1, sides]`. Dice with no sides give `InvalidRange`.
    pub fn evaluate(self) -> (r: Result<(DieRollTerm, Vec<i32>), RollError>)
        ensures
            match r {
                Ok(v) => v.0 == self && is_evaluation(self, v.1@),
                Err(e) => e == RollError::InvalidRange && is_sideless(self),
            },
            !is_sideless(self) ==> r is Ok,
    {
        match self {
            DieRollTerm::Modifier(n) => {
                let values = vec![n as i32];
                assert(values@ =~= seq![n as i32]);
                Ok((self, values))
            },
            DieRollTerm::DieRoll { multiplier, sides } => {
                let count: u8 = if multiplier < 0 {
                    (0 - (multiplier as i16)) as u8
                } else {
                    multiplier as u8
                };
                let mut values: Vec<i32> = Vec::new();
                let mut k: u8 = 0;
                while k < count
                    invariant
                        k <= count,
                        self == (DieRollTerm::DieRoll { multiplier, sides }),
                        count as int == dice_count(multiplier),
                        values.len() == k,
                        forall|j: int| 0 <= j < values.len() ==> 1 <= #[trigger] values@[j] <= sides,
                    decreases count - k,
                {
                    match roll_range(1, sides as i32) {
                        Ok(v) => values.push(v),
                        Err(e) => {
                            return Err(e);
                        },
                    }
                    k = k + 1;
                }
                Ok((self, values))
            },
        }
    }
}

fn evaluate_terms(terms: &Vec<DieRollTerm>) -> (r: Result<Vec<(DieRollTerm, Vec<i32>)>, RollError>)
    ensures
        match r {
            Ok(ev) => evaluates(terms@, evaluated_view(ev@)),
            Err(e) => e == RollError::InvalidRange && has_sideless(terms@),
        },
        !has_sideless(terms@) ==> r is Ok,
{
    let mut out: Vec<(DieRollTerm, Vec<i32>)> = Vec::new();
    let mut k: usize = 0;
    while k < terms.len()
        invariant
            k <= terms.len(),
            evaluates(terms@.subrange(0, k as int), evaluated_view(out@)),
        decreases terms.len() - k,
    {
        match terms[k].evaluate() {
            Ok(v) => {
                let ghost before = out@;
                out.push(v);
                proof {
                    let ev = evaluated_view(out@);
                    let ts = terms@.subrange(0, k as int + 1);
                    assert forall|j: int| 0 <= j < ev.len() implies (#[trigger] ev[j]).0 == ts[j]
                        && is_evaluation(ts[j], ev[j].1) by {
                        if j < k {
                            assert(out@[j] == before[j]);
                            assert(ev[j] == evaluated_view(before)[j]);
                        }
                    }
                }
            },
            Err(e) => {
                assert(is_sideless(terms@[k as int]));
                return Err(e);
            },
        }
        k = k + 1;
    }
    assert(terms@.subrange(0, k as int) =~= terms@);
    Ok(out)
}

/// The total of evaluated terms: the sum of their contributions, or
/// `TotalOverflow` when that sum does not fit an `i32`.
pub fn sum_terms(evaluated: &Vec<(DieRollTerm, Vec<i32>)>) -> (r: Result<i32, RollError>)
    requires
        forall|k: int|
            0 <= k < evaluated.len() ==> is_evaluation(
                (#[trigger] evaluated@[k]).0,
                evaluated@[k].1@,
            ),
    ensures
        ({
            let t = total_of_terms(evaluated_view(evaluated@));
            if i32::MIN <= t <= i32::MAX {
                r == Ok::<i32, RollError>(t as i32)
            } else {
                r == Err::<i32, RollError>(RollError::TotalOverflow)
            }
        }),
        evaluated.len() * TERM_BOUND <= i32::MAX ==> r is Ok,
{
    let ghost ev = evaluated_view(evaluated@);
    let mut acc: i128 = 0;
    let mut k: usize = 0;
    assert(ev.subrange(0, 0) =~= Seq::<(DieRollTerm, Seq<i32>)>::empty());
    while k < evaluated.len()
        invariant
            k <= evaluated.len(),
            ev == evaluated_view(evaluated@),
            forall|j: int|
                0 <= j < evaluated.len() ==> is_evaluation(
                    (#[trigger] evaluated@[j]).0,
                    evaluated@[j].1@,
                ),
            acc == total_of_terms(ev.subrange(0, k as int)),
            -(k * TERM_BOUND) <= acc <= k * TERM_BOUND,
        decreases evaluated.len() - k,
    {
        let c = DieRollTerm::calculate(&evaluated[k]);
        proof {
            lemma_contribution_bounded(evaluated@[k as int].0, evaluated@[k as int].1@);
            assert(ev.subrange(0, k as int + 1).drop_last() =~= ev.subrange(0, k as int));
            assert(ev[k as int] == (evaluated@[k as int].0, evaluated@[k as int].1@));
            assert((k + 1) * TERM_BOUND == k * TERM_BOUND + TERM_BOUND) by (nonlinear_arith);
            assert(k * TERM_BOUND <= usize::MAX * TERM_BOUND) by (nonlinear_arith)
                requires k <= usize::MAX;
        }
        acc = acc + c as i128;
        k = k + 1;
    }
    assert(ev.subrange(0, k as int) =~= ev);
    if acc < i32::MIN as i128 || acc > i32::MAX as i128 {
        Err(RollError::TotalOverflow)
    } else {
        Ok(acc as i32)
    }
}

/// What `roll_dice` gives for `expression`: the first parse error, else
/// `EmptyExpression` for no terms, else `InvalidRange` for dice with no sides,
/// else a roll of the expression. It fails with `TotalOverflow` only where
/// there are so many terms that their total may leave `i32`.
pub open spec fn roll_outcome(expression: Seq<char>, r: Result<Roll, RollError>) -> bool {
    match parse_spec(expression) {
        Err(e) => r == Err::<Roll, RollError>(e),
        Ok(ts) => if ts.len() == 0 {
            r == Err::<Roll, RollError>(RollError::EmptyExpression)
        } else if has_sideless(ts) {
            r == Err::<Roll, RollError>(RollError::InvalidRange)
        } else {
            match r {
                Ok(roll) => is_roll_of(expression, roll@),
                Err(e) => e == RollError::TotalOverflow && ts.len() * TERM_BOUND > i32::MAX,
            }
        },
    }
}

/// Rolls the die roll expression `s` (such as `3d6 + 4`).
pub fn roll_dice(s: String) -> (r: Result<Roll, RollError>)
    ensures
        roll_outcome(s@, r),
{
    let (drex, chars) = normalized_chars(s.as_str());
    let terms = match scan_terms(&chars) {
        Ok(terms) => terms,
        Err(e) => {
            return Err(e);
        },
    };
    if terms.len() == 0 {
        return Err(RollError::EmptyExpression);
    }
    let values = match evaluate_terms(&terms) {
        Ok(values) => values,
        Err(e) => {
            return Err(e);
        },
    };
    assert forall|k: int| 0 <= k < values.len() implies is_evaluation(
        (#[trigger] values@[k]).0,
        values@[k].1@,
    ) by {
        assert(evaluated_view(values@)[k] == (values@[k].0, values@[k].1@));
    }
    assert(values.len() == terms.len());
    assert forall|k: int| 0 <= k < terms.len() implies !is_sideless(#[trigger] terms@[k]) by {
        let ev = evaluated_view(values@);
        assert(ev[k].0 == terms@[k] && is_evaluation(terms@[k], ev[k].1));
        if is_sideless(terms@[k]) {
            assert(1 <= ev[k].1[0]);
        }
    }
    let total = match sum_terms(&values) {
        Ok(total) => total,
        Err(e) => {
            return Err(e);
        },
    };
    let roll = Roll { drex, values, total };
    Ok(roll)
}

impl Roll {
    /// The normalized expression that was rolled.
    pub fn expression(&self) -> (r: &String)
        ensures
            r@ == self@.expression,
    {
        &self.drex
    }

    /// Each term with the values it rolled, left to right.
    pub fn values(&self) -> (r: &Vec<(DieRollTerm, Vec<i32>)>)
        ensures
            evaluated_view(r@) == self@.evaluated,
    {
        &self.values
    }

    /// The total of the roll.
    pub fn total(&self) -> (r: i32)
        ensures
            r == self@.total,
    {
        self.total
    }
}

} // verus!
