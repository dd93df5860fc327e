use pixel_programs::{SampleError, WeightedSample};
use rand::{SeedableRng, XorShiftRng};

#[derive(Clone, Copy, Debug, PartialEq, Eq)]
enum Ab {
    A,
    B,
}

#[test]
fn ranges_follow_registration_order() {
    let mut ws = WeightedSample::new();
    ws.option(2, 'a');
    ws.option(0, 'b');
    ws.option(3, 'c');
    assert_eq!(ws.total(), 5);
    assert_eq!(ws.select(0), Some(0));
    assert_eq!(ws.select(1), Some(0));
    assert_eq!(ws.select(2), Some(2));
    assert_eq!(ws.select(4), Some(2));
    assert_eq!(ws.select(5), None);
    assert_eq!(ws.select(u32::MAX), None);
}

#[test]
fn empty_sampler_reports_no_weight() {
    let ws: WeightedSample<u8> = WeightedSample::new();
    let mut rng = XorShiftRng::new_unseeded();
    assert_eq!(ws.total(), 0);
    assert_eq!(ws.select(0), None);
    assert_eq!(ws.sample(&mut rng), Err(SampleError::NoWeight));

    let mut zeros = WeightedSample::new();
    zeros.option(0, 1u8);
    zeros.option(0, 2u8);
    assert_eq!(zeros.sample(&mut rng), Err(SampleError::NoWeight));
}

#[test]
fn single_alternative_is_always_drawn() {
    let mut ws = WeightedSample::new();
    ws.option(0, 7u8);
    ws.option(1, 9u8);
    let mut rng = XorShiftRng::new_unseeded();
    for _ in 0..1000 {
        assert_eq!(ws.sample(&mut rng), Ok(9));
    }
}

#[test]
fn draws_follow_the_weights() {
    let mut ws = WeightedSample::new();
    ws.option(1, Ab::A);
    ws.option(3, Ab::B);
    let mut rng = XorShiftRng::from_seed([1, 2, 3, 4]);
    let mut a = 0u32;
    let mut b = 0u32;
    for _ in 0..100_000 {
        match ws.sample(&mut rng).unwrap() {
            Ab::A => a += 1,
            Ab::B => b += 1,
        }
    }
    assert_eq!(a + b, 100_000);
    let ratio = b as f64 / a as f64;
    assert!(ratio > 2.85 && ratio < 3.15, "ratio {}", ratio);
}
