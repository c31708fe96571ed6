//! The evaluation abstraction of the search: a totally ordered value closed
//! under adding a reward, with an averaging operator over the pieces a bag
//! may produce next. A missing child contributes a fixed low sentinel to the
//! average, as the search contract demands of every evaluator. Fixed-point
//! values carry thousandths: one thousand units stand for one point of an
//! evaluator's scale.

use vstd::prelude::*;

verus! {

/// What the search needs of an evaluation type: a total order, addition of a
/// reward, and a bag-average over optional per-piece bests.
pub trait Evaluation: Sized + Copy {
    type Reward: Copy;

    /// The order the search maximises: `self` is no better than `other`.
    spec fn le(self, other: Self) -> bool;

    /// The value of this evaluation with a reward added.
    spec fn add_spec(self, r: Self::Reward) -> Self;

    /// The average of a collection of optional evaluations, one per piece a
    /// bag may produce; an absent entry stands for a missing child.
    spec fn avg_spec(s: Seq<Option<Self>>) -> Self;

    /// The evaluation of a freshly created root node.
    spec fn default_spec() -> Self;

    /// The order is total.
    proof fn lemma_le_total(a: Self, b: Self)
        ensures
            a.le(b) || b.le(a),
    ;

    /// The order is transitive.
    proof fn lemma_le_trans(a: Self, b: Self, c: Self)
        requires
            a.le(b),
            b.le(c),
        ensures
            a.le(c),
    ;

    /// Decide the order.
    fn le_exec(&self, other: &Self) -> (r: bool)
        ensures
            r == self.le(*other),
    ;

    /// Add a reward.
    fn add(&self, r: &Self::Reward) -> (s: Self)
        ensures
            s == self.add_spec(*r),
    ;

    /// Average the entries of `items`.
    fn average(items: &Vec<Option<Self>>) -> (r: Self)
        ensures
            r == Self::avg_spec(items@),
    ;

    /// The evaluation of a fresh root.
    fn default_eval() -> (r: Self)
        ensures
            r == Self::default_spec(),
    ;
}

/// The sentinel an absent child contributes to an average: minus one
/// thousand points, in fixed-point thousandths.
pub const MISSING_CHILD_VALUE: i64 = -1000000;

/// `a + b` clamped to the `i64` range.
pub open spec fn sat_add_i64(a: int, b: int) -> int {
    if a + b > i64::MAX {
        i64::MAX as int
    } else if a + b < i64::MIN {
        i64::MIN as int
    } else {
        a + b
    }
}

/// Quotient of `a` by `n`, rounded toward negative infinity.
pub open spec fn div_floor_spec(a: int, n: int) -> int {
    if a >= 0 {
        a / n
    } else {
        -((-a + n - 1) / n)
    }
}

/// A fixed-point evaluation: a plain signed value, ordered numerically.
#[derive(Clone, Copy, Debug, PartialEq, Eq, Structural, Hash)]
pub struct IntEval {
    pub value: i64,
}

/// A fixed-point reward, added to an evaluation saturating at the range ends.
#[derive(Clone, Copy, Debug, PartialEq, Eq, Structural, Hash)]
pub struct IntReward {
    pub value: i64,
}

/// Sum of the entries of `s`, a missing entry counting as the sentinel, each
/// addition saturating.
pub open spec fn sum_with_missing(s: Seq<Option<IntEval>>) -> int
    decreases s.len(),
{
    if s.len() == 0 {
        0
    } else {
        sat_add_i64(
            sum_with_missing(s.drop_last()),
            match s.last() {
                Some(e) => e.value as int,
                None => MISSING_CHILD_VALUE as int,
            },
        )
    }
}

/// `a + b` on machine integers, clamped to the `i64` range.
pub fn sat_add(a: i64, b: i64) -> (r: i64)
    ensures
        r as int == sat_add_i64(a as int, b as int),
{
    match a.checked_add(b) {
        Some(v) => v,
        None => {
            if a >= 0 {
                i64::MAX
            } else {
                i64::MIN
            }
        },
    }
}

/// Quotient of `a` by `n`, rounded toward negative infinity.
pub fn div_floor(a: i64, n: u64) -> (r: i64)
    requires
        n >= 1,
    ensures
        r as int == div_floor_spec(a as int, n as int),
{
    if a >= 0 {
        ((a as u64) / n) as i64
    } else {
        let na: u128 = (-(a as i128)) as u128;
        let nd: u128 = n as u128;
        let q: u128 = (na + nd - 1) / nd;
        proof {
            assert(q <= na) by (nonlinear_arith)
                requires
                    na >= 1,
                    nd >= 1,
                    q as int == (na as int + nd as int - 1) / (nd as int),
            ;
        }
        (-(q as i128)) as i64
    }
}

impl Evaluation for IntEval {
    type Reward = IntReward;

    open spec fn le(self, other: Self) -> bool {
        self.value <= other.value
    }

    open spec fn add_spec(self, r: IntReward) -> Self {
        IntEval { value: sat_add_i64(self.value as int, r.value as int) as i64 }
    }

    open spec fn avg_spec(s: Seq<Option<Self>>) -> Self {
        if s.len() == 0 {
            IntEval { value: 0 }
        } else {
            IntEval { value: div_floor_spec(sum_with_missing(s), s.len() as int) as i64 }
        }
    }

    open spec fn default_spec() -> Self {
        IntEval { value: 0 }
    }

    proof fn lemma_le_total(a: Self, b: Self) {
    }

    proof fn lemma_le_trans(a: Self, b: Self, c: Self) {
    }

    fn le_exec(&self, other: &Self) -> (r: bool) {
        self.value <= other.value
    }

    fn add(&self, r: &IntReward) -> (s: Self) {
        IntEval { value: sat_add(self.value, r.value) }
    }

    fn average(items: &Vec<Option<Self>>) -> (r: Self) {
        let mut sum: i64 = 0;
        let mut i: usize = 0;
        while i < items.len()
            invariant
                i <= items@.len(),
                sum as int == sum_with_missing(items@.take(i as int)),
            decreases items@.len() - i,
        {
            let v = match items[i] {
                Some(e) => e.value,
                None => MISSING_CHILD_VALUE,
            };
            proof {
                assert(items@.take(i as int + 1).drop_last() =~= items@.take(i as int));
                assert(items@.take(i as int + 1).last() == items@[i as int]);
            }
            sum = sat_add(sum, v);
            i = i + 1;
        }
        proof {
            assert(items@.take(items@.len() as int) =~= items@);
        }
        if items.len() == 0 {
            IntEval { value: 0 }
        } else {
            IntEval { value: div_floor(sum, items.len() as u64) }
        }
    }

    fn default_eval() -> (r: Self) {
        IntEval { value: 0 }
    }
}

} // verus!
