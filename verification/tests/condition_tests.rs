use rgg::condition::Condition;
use rgg::value::Value;

fn whole(i: i32) -> Value {
    Value::new_int(i)
}

fn fraction(f: f32) -> Value {
    Value::new_float_bits(f.to_bits())
}

#[test]
fn range_includes_both_bounds() {
    let range = Condition::Range(whole(0), whole(2));
    assert!(range.check(whole(0)));
    assert!(range.check(whole(1)));
    assert!(range.check(whole(2)));
    assert!(!range.check(whole(-1)));
    assert!(!range.check(whole(3)));
    assert!(!range.check(fraction(2.0001)));
    // An integer bound and a float are compared as numbers.
    assert!(range.check(fraction(0.0)));
    assert!(range.check(fraction(1.5)));
    assert!(range.check(fraction(2.0)));
    assert!(!range.check(fraction(-0.0001)));
    assert!(!range.check(fraction(f32::NAN)));
}

#[test]
fn float_range_includes_both_bounds() {
    let range = Condition::Range(fraction(0.0), fraction(2.0));
    assert!(range.check(fraction(0.0)));
    assert!(range.check(fraction(-0.0)));
    assert!(range.check(fraction(2.0)));
    assert!(range.check(fraction(1.25)));
    assert!(!range.check(fraction(2.0001)));
    assert!(!range.check(fraction(-1.0)));
    assert!(!range.check(fraction(f32::NAN)));
    assert!(range.check(whole(0)));
    assert!(range.check(whole(1)));
    assert!(range.check(whole(2)));
    assert!(!range.check(whole(3)));
    assert!(!range.check(whole(-1)));
}

#[test]
fn every_condition_on_integers() {
    assert!(Condition::Equals(whole(3)).check(whole(3)));
    assert!(!Condition::Equals(whole(3)).check(whole(4)));
    assert!(Condition::Equals(whole(3)).check(fraction(3.0)));
    assert!(!Condition::Equals(whole(3)).check(fraction(3.0000002)));
    assert!(Condition::LessThan(whole(3)).check(whole(2)));
    assert!(Condition::LessThan(whole(3)).check(fraction(2.9999998)));
    assert!(Condition::GreaterThan(fraction(2.5)).check(whole(3)));
    assert!(!Condition::LessThan(whole(3)).check(whole(3)));
    assert!(Condition::GreaterThan(whole(3)).check(whole(4)));
    assert!(!Condition::GreaterThan(whole(3)).check(whole(3)));
    assert!(Condition::LessThanOrEquals(whole(3)).check(whole(3)));
    assert!(!Condition::LessThanOrEquals(whole(3)).check(whole(4)));
    assert!(Condition::GreaterThanOrEquals(whole(-3)).check(whole(-3)));
    assert!(!Condition::GreaterThanOrEquals(whole(-3)).check(whole(-4)));
}

#[test]
fn every_condition_on_floats() {
    assert!(Condition::Equals(fraction(0.0)).check(fraction(-0.0)));
    assert!(!Condition::Equals(fraction(f32::NAN)).check(fraction(f32::NAN)));
    assert!(Condition::LessThan(fraction(2.0)).check(fraction(1.5)));
    assert!(Condition::LessThan(fraction(2.0)).check(fraction(-3.0)));
    assert!(!Condition::LessThan(fraction(2.0)).check(fraction(2.0)));
    assert!(Condition::GreaterThan(fraction(3.0)).check(fraction(f32::INFINITY)));
    assert!(!Condition::GreaterThan(fraction(3.0)).check(fraction(3.0)));
    assert!(Condition::LessThanOrEquals(fraction(-1.0)).check(fraction(-1.0)));
    assert!(!Condition::LessThanOrEquals(fraction(-1.0)).check(fraction(-0.5)));
    assert!(Condition::GreaterThanOrEquals(fraction(-1.0)).check(fraction(-0.5)));
    assert!(!Condition::GreaterThanOrEquals(fraction(-1.0)).check(fraction(-1.5)));
}

#[test]
fn designators() {
    let v = whole(3);
    assert_eq!(Condition::parse_condition("eq", v), Some(Condition::Equals(v)));
    assert_eq!(Condition::parse_condition("lt", v), Some(Condition::LessThan(v)));
    assert_eq!(Condition::parse_condition("gt", v), Some(Condition::GreaterThan(v)));
    assert_eq!(Condition::parse_condition("lte", v), Some(Condition::LessThanOrEquals(v)));
    assert_eq!(Condition::parse_condition("gte", v), Some(Condition::GreaterThanOrEquals(v)));
    assert_eq!(Condition::parse_condition("range", v), None);
    assert_eq!(Condition::parse_condition("", v), None);
}
