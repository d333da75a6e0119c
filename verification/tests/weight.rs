use harmonic_grid::weight::{duplicate, extend_zeros};
use harmonic_grid::Weight;

#[test]
fn extend_zeros_appends_positive_zeros() {
    let mut data = vec![Weight { bits: 0x3f80_0000 }];
    extend_zeros(&mut data, 3);
    assert_eq!(data.len(), 4);
    assert_eq!(f32::from_bits(data[0].bits), 1.0);
    for weight in &data[1..] {
        assert_eq!(weight.bits, 0);
        assert!(f32::from_bits(weight.bits).is_sign_positive());
    }
    extend_zeros(&mut data, 0);
    assert_eq!(data.len(), 4);
}

#[test]
fn duplicate_copies_every_weight() {
    let data: Vec<Weight> = (0..5).map(|bits| Weight { bits: bits * 3 }).collect();
    let copy = duplicate(&data);
    assert_eq!(copy, data);
    assert!(duplicate(&Vec::new()).is_empty());
}

#[test]
fn weights_are_equal_bit_for_bit() {
    let plus = Weight { bits: 0.0f32.to_bits() };
    let minus = Weight { bits: (-0.0f32).to_bits() };
    assert_ne!(plus, minus);
    let nan = Weight { bits: f32::NAN.to_bits() };
    assert_eq!(nan, nan);
}
