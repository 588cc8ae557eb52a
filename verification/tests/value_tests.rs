use rgg::value::{RGGType, Value};

#[test]
fn test_get_i32() {
    let v = Value::new(RGGType::Int);
    assert_eq!(v.get_i32(), Some(0));
}

#[test]
fn test_get_f32() {
    let v = Value::new(RGGType::Float);
    assert_eq!(f32::from_bits(v.get_f32_bits().unwrap()), 0f32);
}

#[test]
fn test_set_i32() {
    let mut v = Value::new(RGGType::Int);
    v.set_i32(3142);
    assert_eq!(v.get_i32(), Some(3142));
}

#[test]
fn test_set_f32() {
    let mut v = Value::new(RGGType::Float);
    v.set_f32_bits(3142.1f32.to_bits());
    assert_eq!(f32::from_bits(v.get_f32_bits().unwrap()), 3142.1);
}

#[test]
fn accessors_are_checked() {
    let i = Value::new_int(7);
    assert_eq!(i.rgg_type(), RGGType::Int);
    assert_eq!(i.get_i32(), Some(7));
    assert_eq!(i.get_f32_bits(), None);
    let f = Value::new_float_bits(1.5f32.to_bits());
    assert_eq!(f.rgg_type(), RGGType::Float);
    assert_eq!(f.get_i32(), None);
    assert_eq!(f.get_f32_bits(), Some(1.5f32.to_bits()));
}

#[test]
fn float_bits_round_trip() {
    for x in [0.0f32, -0.0, 1.0, -1.0, 3142.1, f32::MAX, f32::MIN, f32::INFINITY, f32::NEG_INFINITY, 1.0e-45] {
        let v = Value::new_float_bits(x.to_bits());
        assert_eq!(v.get_f32_bits(), Some(x.to_bits()));
    }
    let nan = Value::new_float_bits(f32::NAN.to_bits());
    assert_eq!(nan.get_f32_bits(), Some(f32::NAN.to_bits()));
}

#[test]
fn negative_integers_round_trip() {
    for i in [-1, i32::MIN, i32::MAX, -3142] {
        assert_eq!(Value::new_int(i).get_i32(), Some(i));
        assert_eq!(Value::from(i), Value::new_int(i));
    }
}

#[test]
fn equality_compares_tag_and_bits() {
    assert_eq!(Value::new_int(3), Value::new_int(3));
    assert_ne!(Value::new_int(3), Value::new_int(4));
    assert_ne!(Value::new(RGGType::Int), Value::new(RGGType::Float));
    assert_ne!(
        Value::new_float_bits(0.0f32.to_bits()),
        Value::new_float_bits((-0.0f32).to_bits())
    );
}

#[test]
fn set_changes_the_tag() {
    let mut v = Value::new(RGGType::Float);
    v.set_i32(5);
    assert_eq!(v.get_i32(), Some(5));
    v.set_f32_bits(2.5f32.to_bits());
    assert_eq!(v.get_i32(), None);
    assert_eq!(f32::from_bits(v.get_f32_bits().unwrap()), 2.5);
}

#[test]
fn order_agrees_with_floats() {
    let samples = [
        f32::NEG_INFINITY, f32::MIN, -2.0001, -2.0, -1.0, -1.0e-45, -0.0, 0.0, 1.0e-45, 0.5, 1.0,
        2.0, 2.0001, f32::MAX, f32::INFINITY, f32::NAN,
    ];
    for a in samples {
        for b in samples {
            let x = Value::new_float_bits(a.to_bits());
            let y = Value::new_float_bits(b.to_bits());
            assert_eq!(x.less_than(&y), a < b, "{} < {}", a, b);
            assert_eq!(x.at_most(&y), a <= b, "{} <= {}", a, b);
            assert_eq!(x.same_number(&y), a == b, "{} == {}", a, b);
        }
    }
}

#[test]
fn order_of_integers() {
    let samples = [i32::MIN, -2, -1, 0, 1, 2, i32::MAX];
    for a in samples {
        for b in samples {
            let x = Value::new_int(a);
            let y = Value::new_int(b);
            assert_eq!(x.less_than(&y), a < b);
            assert_eq!(x.at_most(&y), a <= b);
            assert_eq!(x.same_number(&y), a == b);
        }
    }
}

fn sign_of(a: f64, b: f64) -> Option<i8> {
    if a < b {
        Some(-1)
    } else if a == b {
        Some(0)
    } else if a > b {
        Some(1)
    } else {
        None
    }
}

#[test]
fn relation_of_floats() {
    let samples = [
        f32::NEG_INFINITY, f32::MIN, -2.0, -1.0e-45, -0.0, 0.0, 1.0e-45, 1.1754942e-38,
        1.17549435e-38, 0.5, 2.0, f32::MAX, f32::INFINITY, f32::NAN,
    ];
    for a in samples {
        for b in samples {
            let x = Value::new_float_bits(a.to_bits());
            let y = Value::new_float_bits(b.to_bits());
            assert_eq!(x.relation(&y), sign_of(a as f64, b as f64), "{} ? {}", a, b);
        }
    }
    assert!(Value::new_float_bits(f32::NAN.to_bits()).is_nan());
    assert!(Value::new_float_bits(0x7f80_0001).is_nan());
    assert!(Value::new_float_bits(0xffff_ffff).is_nan());
    assert!(!Value::new_float_bits(f32::INFINITY.to_bits()).is_nan());
    assert!(!Value::new_float_bits(f32::NEG_INFINITY.to_bits()).is_nan());
    assert!(!Value::new_int(0x7fc0_0000).is_nan());
}

#[test]
fn mixed_types_compare_as_numbers() {
    let ints = [
        i32::MIN, i32::MIN + 1, -16777217, -16777216, -16777215, -3, -2, -1, 0, 1, 2, 3, 16777215,
        16777216, 16777217, 2147483520, 2147483583, 2147483584, i32::MAX - 1, i32::MAX,
    ];
    let floats = [
        f32::NEG_INFINITY, f32::MIN, -4294967296.0, -2147483904.0, -2147483648.0, -2147483520.0,
        -16777216.0, -16777215.0, -3.0, -2.5, -2.0001, -2.0, -1.9999999, -1.0, -0.5, -1.0e-45,
        -0.0, 0.0, 1.0e-45, 1.17549435e-38, 5.9604645e-8, 0.5, 0.99999994, 1.0, 1.0000001, 1.5,
        2.0, 2.0001, 3.0, 8388607.5, 8388608.0, 16777215.0, 16777216.0, 16777218.0, 2147483520.0,
        2147483648.0, 4294967296.0, f32::MAX, f32::INFINITY,
    ];
    for i in ints {
        for f in floats {
            let x = Value::new_int(i);
            let y = Value::new_float_bits(f.to_bits());
            let expected = sign_of(i as f64, f as f64);
            assert_eq!(x.relation(&y), expected, "{} ? {}", i, f);
            assert_eq!(y.relation(&x), expected.map(|s| -s), "{} ? {}", f, i);
            assert_eq!(x.less_than(&y), (i as f64) < (f as f64));
            assert_eq!(y.at_most(&x), (f as f64) <= (i as f64));
            assert_eq!(x.same_number(&y), (i as f64) == (f as f64));
        }
        let nan = Value::new_float_bits(f32::NAN.to_bits());
        assert_eq!(Value::new_int(i).relation(&nan), None);
        assert_eq!(nan.relation(&Value::new_int(i)), None);
        assert!(!Value::new_int(i).at_most(&nan));
    }
}

#[test]
fn the_same_number_need_not_be_the_same_value() {
    let i = Value::new_int(2);
    let f = Value::new_float_bits(2.0f32.to_bits());
    assert!(i.same_number(&f));
    assert_ne!(i, f);
    let zero = Value::new_float_bits(0.0f32.to_bits());
    let minus_zero = Value::new_float_bits((-0.0f32).to_bits());
    assert!(zero.same_number(&minus_zero));
    assert!(zero.same_number(&Value::new_int(0)));
    assert_ne!(zero, minus_zero);
}
