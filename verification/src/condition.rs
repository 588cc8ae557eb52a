//! Conditions on a scalar, which a pattern places on the attributes of a node.

use crate::value::Value;
use vstd::prelude::*;
use vstd::string::StringExecFns;

verus! {

/// A predicate over a scalar.
///
/// A bound and a scalar are compared as the numbers they stand for,
/// whatever their types: the integer 2 and the float 2.0 are the same
/// number. No condition holds where a NaN stands on either side.
#[derive(Debug, Clone, Copy, PartialEq, Eq, Structural)]
pub enum Condition {
    Equals(Value),
    LessThan(Value),
    GreaterThan(Value),
    LessThanOrEquals(Value),
    GreaterThanOrEquals(Value),
    /// From the first bound to the second, both bounds included.
    Range(Value, Value),
}

impl Condition {
    /// Whether the condition holds of a scalar.
    pub open spec fn holds(self, value: Value) -> bool {
        match self {
            Condition::Equals(bound) => value.is_same_number(bound),
            Condition::LessThan(bound) => value.is_less(bound),
            Condition::GreaterThan(bound) => bound.is_less(value),
            Condition::LessThanOrEquals(bound) => value.is_at_most(bound),
            Condition::GreaterThanOrEquals(bound) => bound.is_at_most(value),
            Condition::Range(low, high) => low.is_at_most(value) && value.is_at_most(high),
        }
    }

    /// Checks whether the given scalar fulfils the condition.
    pub fn check(&self, value: Value) -> (r: bool)
        ensures
            r == self.holds(value),
    {
        match self {
            Condition::Equals(bound) => value.same_number(bound),
            Condition::LessThan(bound) => value.less_than(bound),
            Condition::GreaterThan(bound) => bound.less_than(&value),
            Condition::LessThanOrEquals(bound) => value.at_most(bound),
            Condition::GreaterThanOrEquals(bound) => bound.at_most(&value),
            Condition::Range(low, high) => low.at_most(&value) && value.at_most(high),
        }
    }

    /// The condition that a designator and a bound stand for: `eq`, `lt`,
    /// `gt`, `lte` or `gte`. Other designators stand for none.
    pub open spec fn designated(designator: Seq<char>, value: Value) -> Option<Condition> {
        if designator == "eq"@ {
            Some(Condition::Equals(value))
        } else if designator == "lt"@ {
            Some(Condition::LessThan(value))
        } else if designator == "gt"@ {
            Some(Condition::GreaterThan(value))
        } else if designator == "lte"@ {
            Some(Condition::LessThanOrEquals(value))
        } else if designator == "gte"@ {
            Some(Condition::GreaterThanOrEquals(value))
        } else {
            None
        }
    }

    /// Reads a condition of one bound from its designator.
    pub fn parse_condition(designator: &str, value: Value) -> (r: Option<Condition>)
        ensures
            r == Condition::designated(designator@, value),
    {
        let name = String::from_str(designator);
        if name == String::from_str("eq") {
            Some(Condition::Equals(value))
        } else if name == String::from_str("lt") {
            Some(Condition::LessThan(value))
        } else if name == String::from_str("gt") {
            Some(Condition::GreaterThan(value))
        } else if name == String::from_str("lte") {
            Some(Condition::LessThanOrEquals(value))
        } else if name == String::from_str("gte") {
            Some(Condition::GreaterThanOrEquals(value))
        } else {
            None
        }
    }

    /// A range holds exactly of the scalars from its lower to its upper
    /// bound, both included: it holds of each bound that is a number, given
    /// that the lower is not above the upper.
    pub proof fn lemma_range_includes_bounds(low: Value, high: Value)
        requires
            low.is_at_most(high),
        ensures
            Condition::Range(low, high).holds(low),
            Condition::Range(low, high).holds(high),
            forall|v: Value|
                Condition::Range(low, high).holds(v) <==> (low.is_at_most(v) && v.is_at_most(high)),
    {
    }
}

} // verus!
