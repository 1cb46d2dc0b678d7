//! Lead-fire decisions: which case an intercept problem falls under, and
//! which root of its quadratic is the time of the intercept. The arithmetic
//! on positions and speeds is left to the caller; only signs are needed
//! here.

use vstd::prelude::*;

verus! {

/// Sign of a number.
#[derive(Copy, Clone, Debug, PartialEq, Eq, Structural)]
pub enum Sign {
    Negative,
    Zero,
    Positive,
}

/// How an intercept problem is to be answered.
#[derive(Copy, Clone, Debug, PartialEq, Eq, Structural)]
pub enum InterceptCase {
    /// Shooter and target are at the same place: the intercept is here and
    /// now.
    Immediate,
    /// The shooter does not move forward: there is no intercept.
    Impossible,
    /// The target stands still: aim straight at it.
    Direct,
    /// The target moves: the intercept time is a root of the quadratic.
    Solve,
}

/// The real roots of the intercept quadratic by their signs, in ascending
/// order.
#[derive(Copy, Clone, Debug, PartialEq, Eq, Structural)]
pub enum RootSigns {
    No,
    One(Sign),
    Two(Sign, Sign),
    /// More roots than a quadratic has.
    More,
}

/// The case of an intercept problem. The same place comes first, then a
/// shooter without forward speed, then a target at rest.
pub open spec fn case_of(same_position: bool, shooter_speed: Sign, target_at_rest: bool) -> InterceptCase {
    if same_position {
        InterceptCase::Immediate
    } else if shooter_speed != Sign::Positive {
        InterceptCase::Impossible
    } else if target_at_rest {
        InterceptCase::Direct
    } else {
        InterceptCase::Solve
    }
}

/// Which root is the intercept time, if any. A single root serves unless it
/// is negative. Of two roots, both in the past give nothing; if both lie in
/// the future the earlier one is taken, otherwise the later one.
pub open spec fn root_choice(roots: RootSigns) -> Option<usize> {
    match roots {
        RootSigns::No => None,
        RootSigns::One(s) => if s == Sign::Negative {
            None
        } else {
            Some(0usize)
        },
        RootSigns::Two(a, b) => if a == Sign::Negative && b == Sign::Negative {
            None
        } else if a == Sign::Positive && b == Sign::Positive {
            Some(0usize)
        } else {
            Some(1usize)
        },
        RootSigns::More => None,
    }
}

/// Sorts an intercept problem into its case.
pub fn intercept_case(same_position: bool, shooter_speed: Sign, target_at_rest: bool) -> (c: InterceptCase)
    ensures
        c == case_of(same_position, shooter_speed, target_at_rest),
{
    if same_position {
        return InterceptCase::Immediate;
    }
    match shooter_speed {
        Sign::Positive => {},
        _ => {
            return InterceptCase::Impossible;
        },
    }
    if target_at_rest {
        InterceptCase::Direct
    } else {
        InterceptCase::Solve
    }
}

/// Picks the root that is the intercept time: its position among the roots
/// in ascending order, or `None` when no root will do.
pub fn choose_root(roots: RootSigns) -> (r: Option<usize>)
    ensures
        r == root_choice(roots),
{
    match roots {
        RootSigns::No => None,
        RootSigns::One(one) => {
            match one {
                Sign::Negative => None,
                _ => Some(0),
            }
        },
        RootSigns::Two(first, second) => {
            match (first, second) {
                (Sign::Negative, Sign::Negative) => None,
                (Sign::Positive, Sign::Positive) => Some(0),
                _ => Some(1),
            }
        },
        RootSigns::More => None,
    }
}

/// The sign of the root at position `i`.
pub open spec fn sign_at(roots: RootSigns, i: int) -> Sign {
    match roots {
        RootSigns::One(s) => s,
        RootSigns::Two(a, b) => if i == 0 {
            a
        } else {
            b
        },
        _ => Sign::Zero,
    }
}

/// Whether the roots are given in ascending order, as far as their signs
/// show.
pub open spec fn ascending(roots: RootSigns) -> bool {
    match roots {
        RootSigns::Two(a, b) => a == Sign::Negative || b == Sign::Positive || (a == Sign::Zero && b
            == Sign::Zero),
        _ => true,
    }
}

/// Of roots in ascending order the one chosen is not in the past, the later
/// one is chosen only when the earlier one is not strictly ahead, and none
/// is chosen only when there is none or all are in the past.
pub proof fn lemma_chosen_root_is_earliest_ahead(roots: RootSigns)
    requires
        ascending(roots),
        roots != RootSigns::More,
    ensures
        match root_choice(roots) {
            Some(i) => sign_at(roots, i as int) != Sign::Negative && (i == 1 ==> (roots
                is Two && sign_at(roots, 0) != Sign::Positive)),
            None => sign_at(roots, 0) == Sign::Negative && sign_at(roots, 1) == Sign::Negative
                || roots == RootSigns::No,
        },
{
}

} // verus!
