use gml::binary64::Real;
use gml::symbol::Symbol;
use gml::vm::array::{Array, Heap, StoreError, MAX_INDEX};
use gml::vm::value::{TryFromValueError, CANONICAL_NAN};
use gml::vm::{Data, Type, Value};
use std::convert::TryFrom;

fn real_of(value: f64) -> Real {
    Real::from_bits(value.to_bits())
}

#[test]
fn reals_round_trip() {
    let values =
        [0.0, -0.0, 1.0, -1.5, 0.1, 1e300, -1e300, 5e-324, f64::MAX, f64::MIN, f64::INFINITY];
    for value in values {
        let made = Value::from(real_of(value));
        assert_eq!(made.to_bits(), value.to_bits());
        assert_eq!(made.data(), Data::Real(real_of(value)));
        assert_eq!(Real::try_from(made), Ok(real_of(value)));
        assert_eq!(made.data().ty(), Type::Real);
    }
}

#[test]
fn reals_that_are_no_numbers_become_the_canonical_one() {
    for bits in [
        f64::NAN.to_bits(),
        (-f64::NAN).to_bits(),
        0x7ff0_0000_0000_0001,
        0x7fff_ffff_ffff_ffff,
        0xfff0_0000_0000_0001,
        0xfff1_0000_0000_0000,
        0xffff_ffff_ffff_ffff,
    ] {
        let made = Value::from_real(Real::from_bits(bits));
        assert_eq!(made.to_bits(), CANONICAL_NAN);
        assert!(matches!(made.data(), Data::Real(_)));
    }
}

#[test]
fn negative_infinity_has_no_word_of_its_own() {
    let made = Value::from_real(real_of(f64::NEG_INFINITY));
    assert_eq!(made.to_bits(), CANONICAL_NAN);
    assert_eq!(made.data().ty(), Type::Real);
}

#[test]
fn strings_round_trip() {
    for index in [0u32, 1, 34, 1000, u32::MAX] {
        let made = Value::from(Symbol(index));
        assert_eq!(made.to_bits(), 0xfff0_0000_0000_0000 | index as u64);
        assert_eq!(made.data(), Data::String(Symbol(index)));
        assert_eq!(Symbol::try_from(made), Ok(Symbol(index)));
        assert_eq!(made.data().ty(), Type::String);
    }
}

#[test]
fn arrays_round_trip() {
    for index in [0u64, 1, 1 << 32, MAX_INDEX] {
        let made = Value::from_array(Array { index });
        assert_eq!(made.to_bits(), 0xfff1_0000_0000_0000 | index);
        assert_eq!(made.data(), Data::Array(Array { index }));
        assert_eq!(made.data().ty(), Type::Array);
        assert!(made.is_array());
    }
}

#[test]
fn a_value_is_of_one_kind() {
    let values = [
        Value::from(real_of(1.5)),
        Value::from(Symbol(7)),
        Value::from_array(Array { index: 7 }),
    ];
    for value in values.iter() {
        let as_real = Real::try_from(*value).is_ok();
        let as_string = Symbol::try_from(*value).is_ok();
        let as_array = value.is_array();
        assert_eq!(as_real as u8 + as_string as u8 + as_array as u8, 1);
    }
}

#[test]
fn conversions_to_another_kind_fail() {
    let string = Value::from(Symbol(3));
    let array = Value::from_array(Array { index: 3 });
    let number = Value::from(real_of(3.0));
    assert_eq!(Real::try_from(string), Err(TryFromValueError(())));
    assert_eq!(Real::try_from(array), Err(TryFromValueError(())));
    assert_eq!(Symbol::try_from(number), Err(TryFromValueError(())));
    assert_eq!(Symbol::try_from(array), Err(TryFromValueError(())));
    assert_eq!(i32::try_from(string), Err(TryFromValueError(())));
    assert_eq!(u32::try_from(array), Err(TryFromValueError(())));
    assert_eq!(bool::try_from(string), Err(TryFromValueError(())));
    assert_eq!(string.to_real(), Err(TryFromValueError(())));
    assert_eq!(number.to_symbol(), Err(TryFromValueError(())));
}

#[test]
fn integers_and_truth_values_are_reals() {
    assert_eq!(Value::from(3i32).data(), Data::Real(real_of(3.0)));
    assert_eq!(Value::from(-3i32).data(), Data::Real(real_of(-3.0)));
    assert_eq!(Value::from(3u32).data(), Data::Real(real_of(3.0)));
    assert_eq!(Value::from(u32::MAX).data(), Data::Real(real_of(4294967295.0)));
    assert_eq!(Value::from(true).data(), Data::Real(real_of(1.0)));
    assert_eq!(Value::from(false).data(), Data::Real(real_of(0.0)));
    assert_eq!(Value::from(()).data(), Data::Real(real_of(0.0)));
    assert_eq!(Value::zero(), Value::from(real_of(0.0)));
}

#[test]
fn reals_convert_to_integers_and_truth_values() {
    assert_eq!(i32::try_from(Value::from(real_of(-7.9))), Ok(-7));
    assert_eq!(i32::try_from(Value::from(real_of(1e10))), Ok(i32::MAX));
    assert_eq!(u32::try_from(Value::from(real_of(7.9))), Ok(7));
    assert_eq!(u32::try_from(Value::from(real_of(-7.9))), Ok(0));
    assert_eq!(bool::try_from(Value::from(real_of(0.5))), Ok(false));
    assert_eq!(bool::try_from(Value::from(real_of(0.6))), Ok(true));
    assert_eq!(bool::try_from(Value::from(real_of(-1.0))), Ok(false));
    assert_eq!(i32::try_from(Value::from(42i32)), Ok(42));
    assert_eq!(i32::try_from(Value::from(i32::MIN)), Ok(i32::MIN));
    assert_eq!(u32::try_from(Value::from(u32::MAX)), Ok(u32::MAX));
}

#[test]
fn words_that_are_no_values() {
    assert!(Value::from_bits(0).is_some());
    assert!(Value::from_bits(0x7ff8_0000_0000_0000).is_some());
    assert!(Value::from_bits(0xffef_ffff_ffff_ffff).is_some());
    assert!(Value::from_bits(0xfff0_0000_0000_0000).is_some());
    assert!(Value::from_bits(0xfff0_0000_ffff_ffff).is_some());
    assert!(Value::from_bits(0xfff0_0001_0000_0000).is_none());
    assert!(Value::from_bits(0xfff1_ffff_ffff_ffff).is_some());
    assert!(Value::from_bits(0xfff2_0000_0000_0000).is_none());
    assert!(Value::from_bits(0xffff_ffff_ffff_ffff).is_none());
    assert_eq!(
        Value::from_bits(0xfff1_0000_0000_0005).unwrap().data(),
        Data::Array(Array { index: 5 })
    );
}

#[test]
fn a_scalar_is_promoted_to_an_array() {
    let mut heap = Heap::new();
    let a = heap.allocate(Value::from(1i32)).unwrap();
    let a = heap.store(a, 0, 2, Value::from(3i32)).unwrap();
    assert_eq!(heap.load(a, 0, 2), Value::from(3i32));
    assert_eq!(heap.load(a, 0, 1), Value::from(0i32));
    assert_eq!(heap.load(a, 0, 0), Value::from(1i32));
    assert_eq!(heap.load(a, 0, 3), Value::zero());
    assert_eq!(heap.load(a, 5, 0), Value::zero());
}

#[test]
fn rows_grow_on_demand() {
    let mut heap = Heap::new();
    let a = heap.allocate(Value::from(Symbol(40))).unwrap();
    let a = heap.store(a, 3, 1, Value::from(9i32)).unwrap();
    assert_eq!(heap.load(a, 3, 1), Value::from(9i32));
    assert_eq!(heap.load(a, 3, 0), Value::zero());
    assert_eq!(heap.load(a, 2, 0), Value::zero());
    assert_eq!(heap.load(a, 0, 0), Value::from(Symbol(40)));
    let a = heap.store(a, 3, 1, Value::from(8i32)).unwrap();
    assert_eq!(heap.load(a, 3, 1), Value::from(8i32));
}

#[test]
fn a_shared_array_is_copied_before_it_is_written() {
    let mut heap = Heap::new();
    let a = heap.allocate(Value::from(1i32)).unwrap();
    assert!(heap.retain(a));
    assert_eq!(heap.refs(a), 2);
    let b = heap.store(a, 0, 0, Value::from(2i32)).unwrap();
    assert_ne!(a, b);
    assert_eq!(heap.load(a, 0, 0), Value::from(1i32));
    assert_eq!(heap.load(b, 0, 0), Value::from(2i32));
    assert_eq!(heap.refs(a), 1);
    assert_eq!(heap.refs(b), 1);
    let c = heap.store(b, 0, 1, Value::from(3i32)).unwrap();
    assert_eq!(b, c);
    assert_eq!(heap.len(), 2);
}

#[test]
fn an_array_is_freed_with_its_last_reference() {
    let mut heap = Heap::new();
    let a = heap.allocate(Value::zero()).unwrap();
    assert!(heap.is_live(a));
    assert!(heap.retain(a));
    assert!(!heap.release(a));
    assert!(heap.is_live(a));
    assert!(heap.release(a));
    assert!(!heap.is_live(a));
    assert!(!heap.is_live(Array { index: 99 }));
}

#[test]
fn releasing_a_value_releases_its_array() {
    let mut heap = Heap::new();
    let a = heap.allocate(Value::zero()).unwrap();
    let held = Value::from_array(a);
    Value::from(real_of(1.0)).release(&mut heap);
    Value::from(Symbol(1)).release(&mut heap);
    assert!(heap.is_live(a));
    assert_eq!(heap.refs(a), 1);
    held.release(&mut heap);
    assert!(!heap.is_live(a));
}

#[test]
fn arrays_hold_no_arrays() {
    let mut heap = Heap::new();
    let a = heap.allocate(Value::zero()).unwrap();
    let b = heap.allocate(Value::zero()).unwrap();
    assert_eq!(heap.store(a, 0, 0, Value::from_array(b)), Err(StoreError::Nested));
    assert_eq!(heap.allocate(Value::from_array(a)), None);
    assert_eq!(heap.load(a, 0, 0), Value::zero());
    assert_eq!(heap.len(), 2);
}
