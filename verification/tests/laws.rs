use wisard::bits::Bits;
use wisard::encode::permute::Permute;
use wisard::encode::shuffle::Shuffle;
use wisard::encode::therm::{LinearThermometer, LogThermometer};
use wisard::encode::SampleEncoder;
use wisard::filter::lut::{LUTFilter, PackedLUTFilter, PackedLUTFilterBuilder};
use wisard::filter::{CountingFilter, Filter};
use wisard::model::disc::Discriminator;
use wisard::sample::Sample;

fn bits(values: &[u8]) -> Bits {
    Bits::from_bools(&values.iter().map(|v| *v != 0).collect::<Vec<bool>>())
}

fn word(value: usize, width: usize) -> Vec<bool> {
    (0..width).map(|i| (value >> i) & 1 == 1).collect()
}

fn set_bits(sample: &Sample<usize>) -> usize {
    sample.iter_bits().iter().filter(|b| **b).count()
}

#[test]
fn values_rejoin_to_the_bits() {
    let raw = [1, 0, 1, 1, 0, 0, 0, 1, 1, 1, 0, 1];
    let sample = Sample::from_raw_parts(bits(&raw), 4, 7usize);
    let values = sample.iter_values();
    assert_eq!(values.len(), 3);
    let mut joined = Vec::new();
    for value in values.iter() {
        assert_eq!(value.len(), 4);
        joined.extend(value.to_bools());
    }
    assert_eq!(joined, sample.iter_bits());
    assert_eq!(values[1].to_bools(), vec![false, false, false, true]);
}

#[test]
fn permute_keeps_every_bit() {
    let mut seed = [0u8; 32];
    for case in 0..20u8 {
        seed[0] = case;
        seed[17] = case.wrapping_mul(31);
        let raw = word(0b0000_1111_0101_0011 + case as usize, 16);
        let sample = Sample::from_raw_parts(Bits::from_bools(&raw), 2, 0usize);
        let encoder = Permute::with_seed(seed);
        let once = encoder.encode(sample.clone());
        let twice = encoder.encode(sample.clone());
        assert_eq!(once, twice);
        assert_eq!(once.len(), 16);
        assert_eq!(once.vsize(), 2);
        assert_eq!(set_bits(&once), set_bits(&sample));
    }
}

#[test]
fn permute_moves_positions_one_to_one() {
    let seed = [9u8; 32];
    let encoder = Permute::with_seed(seed);
    let mut reached = vec![false; 12];
    for position in 0..12 {
        let raw: Vec<bool> = (0..12).map(|i| i == position).collect();
        let sample = Sample::from_raw_parts(Bits::from_bools(&raw), 1, 0usize);
        let encoded = encoder.encode(sample).iter_bits();
        let places: Vec<usize> = (0..12).filter(|i| encoded[*i]).collect();
        assert_eq!(places.len(), 1);
        assert!(!reached[places[0]]);
        reached[places[0]] = true;
    }
    assert!(reached.iter().all(|r| *r));
}

#[test]
fn shuffle_keeps_every_bit() {
    for seed in 0..20u64 {
        let raw = word(0b1010_0011_1000_0111, 16);
        let sample = Sample::from_raw_parts(Bits::from_bools(&raw), 4, 0usize);
        let encoder = Shuffle::with_seed(seed);
        let once = encoder.encode(sample.clone());
        let twice = Shuffle::with_seed(seed).encode(sample.clone());
        assert_eq!(once, twice);
        assert_eq!(once.vsize(), 4);
        assert_eq!(set_bits(&once), set_bits(&sample));
    }
}

#[test]
fn shuffle_moves_positions_one_to_one() {
    let encoder = Shuffle::with_seed(0xFEED);
    let mut reached = vec![false; 9];
    for position in 0..9 {
        let raw: Vec<bool> = (0..9).map(|i| i == position).collect();
        let sample = Sample::from_raw_parts(Bits::from_bools(&raw), 3, 0usize);
        let encoded = encoder.encode(sample).iter_bits();
        let places: Vec<usize> = (0..9).filter(|i| encoded[*i]).collect();
        assert_eq!(places.len(), 1);
        assert!(!reached[places[0]]);
        reached[places[0]] = true;
    }
    assert!(reached.iter().all(|r| *r));
}

#[test]
fn log_thermometer_levels() {
    let code = |value: usize, width: usize, resolution: u8| {
        let sample = Sample::from_raw_parts(Bits::from_bools(&word(value, width)), width, 0usize);
        LogThermometer::with_resolution(resolution).encode(sample).iter_bits()
    };
    assert_eq!(code(5, 4, 8), word(0b0011_1111, 8));
    assert_eq!(code(0, 4, 8), word(0, 8));
    assert_eq!(code(15, 4, 8), word(0b1111_1111, 8));
    assert_eq!(code(15, 4, 2), word(0b11, 2));
    assert_eq!(code(3, 4, 2), word(0b01, 2));
    assert_eq!(code(1, 4, 2), word(0b00, 2));
    assert_eq!(code(200, 8, 8), word(0b1111_1111, 8));
    assert_eq!(code(100, 8, 8), word(0b0111_1111, 8));
}

#[test]
fn log_thermometer_is_monotonic() {
    for resolution in [1u8, 2, 4, 8, 16, 32, 64] {
        let mut before = 0;
        for value in 0..256usize {
            let sample = Sample::from_raw_parts(Bits::from_bools(&word(value, 8)), 8, 0usize);
            let encoded = LogThermometer::with_resolution(resolution).encode(sample);
            assert_eq!(encoded.len(), resolution as usize);
            let ones = set_bits(&encoded);
            assert!(ones >= before);
            before = ones;
        }
        assert_eq!(before, resolution as usize);
    }
}

#[test]
fn linear_thermometer_levels() {
    let code = |value: usize, width: usize, resolution: u8| {
        let sample = Sample::from_raw_parts(Bits::from_bools(&word(value, width)), width, 0usize);
        LinearThermometer::with_resolution(resolution).encode(sample).iter_bits()
    };
    assert_eq!(code(5, 4, 8), word(0b0000_0111, 8));
    assert_eq!(code(5, 4, 1), word(0b1, 1));
    assert_eq!(code(4, 4, 1), word(0b0, 1));
    assert_eq!(code(12, 4, 1), word(0b1, 1));
    assert_eq!(code(0, 4, 8), word(0, 8));
    assert_eq!(code(15, 4, 8), word(0b1111_1111, 8));
    assert_eq!(code(8, 4, 3), word(0b011, 3));
    assert_eq!(code(255, 8, 5), word(0b11111, 5));
    assert_eq!(code(128, 8, 5), word(0b00111, 5));
}

#[test]
fn linear_thermometer_is_monotonic() {
    for resolution in [1u8, 3, 7, 8, 20, 63, 64] {
        let mut before = 0;
        for value in 0..256usize {
            let sample = Sample::from_raw_parts(Bits::from_bools(&word(value, 8)), 8, 0usize);
            let encoded = LinearThermometer::with_resolution(resolution).encode(sample);
            assert_eq!(encoded.len(), resolution as usize);
            let ones = set_bits(&encoded);
            assert!(ones >= before);
            before = ones;
        }
        assert_eq!(before, resolution as usize);
    }
}

#[test]
fn thermometer_of_full_width() {
    let sample = Sample::from_raw_parts(Bits::from_bools(&vec![true; 64]), 64, 0usize);
    let log = LogThermometer::with_resolution(64).encode(sample.clone());
    assert_eq!(log.iter_bits(), vec![true; 64]);
    let linear = LinearThermometer::with_resolution(64).encode(sample);
    assert_eq!(linear.iter_bits(), vec![true; 64]);
}

#[test]
fn lut_filter_is_exact() {
    for threshold in [0u8, 1, 5, 200] {
        let mut filter = LUTFilter::new(3, threshold);
        for seen in 0..=threshold as usize {
            assert_eq!(filter.counter(&5), Some(seen));
            assert!(!filter.contains(&5));
            assert!(filter.include_item(&5));
        }
        assert_eq!(filter.counter(&5), Some(threshold as usize + 1));
        for address in 0..8usize {
            assert_eq!(filter.contains(&address), address == 5);
            if address != 5 {
                assert_eq!(filter.counter(&address), Some(0));
            }
        }
    }
}

#[test]
fn lut_filter_saturates() {
    let mut filter = LUTFilter::new(1, 0u8);
    for seen in 0..300usize {
        assert_eq!(filter.counter(&1), Some(seen.min(255)));
        filter.include_item(&1);
    }
    assert_eq!(filter.counter(&1), Some(255));
    assert_eq!(filter.counter(&0), Some(0));
    let mut wide = LUTFilter::new(0, 0u16);
    for _ in 0..300 {
        wide.include_item(&0);
    }
    assert_eq!(wide.counter(&0), Some(300));
}

#[test]
fn packed_lut_filter_is_exact() {
    for threshold in [0usize, 1, 6] {
        let mut filter = PackedLUTFilter::new(2, 3, threshold);
        for seen in 0..=threshold {
            assert_eq!(filter.counter(&2), Some(seen));
            assert!(!filter.contains(&2));
            assert!(filter.include_item(&2));
        }
        for address in 0..4usize {
            assert_eq!(filter.contains(&address), address == 2);
            assert_eq!(filter.counter(&address), Some(if address == 2 { threshold + 1 } else { 0 }));
        }
    }
}

#[test]
fn packed_lut_counter_saturates() {
    for count_size in 1..=5usize {
        let mut filter = PackedLUTFilter::new(2, count_size, 0);
        let limit = (1usize << count_size) - 1;
        for _ in 0..(1usize << count_size) {
            filter.include_item(&1);
        }
        assert_eq!(filter.counter(&1), Some(limit));
        filter.include_item(&1);
        assert_eq!(filter.counter(&1), Some(limit));
        assert_eq!(filter.counter(&0), Some(0));
        assert_eq!(filter.counter(&2), Some(0));
        assert_eq!(filter.counter(&3), Some(0));
    }
}

#[test]
fn score_is_bounded_by_the_chunks() {
    let builder = PackedLUTFilterBuilder::new(3, 1, 0);
    let mut disc = Discriminator::from_filter_builder(8, 3, &builder);
    let first = Sample::from_raw_parts(bits(&[1, 0, 1, 1, 0, 0, 1, 1]), 1, 0usize);
    let second = Sample::from_raw_parts(bits(&[1, 0, 1, 0, 1, 0, 1, 1]), 1, 0usize);
    let short = Sample::from_raw_parts(bits(&[1, 0, 1, 0]), 1, 0usize);
    assert_eq!(disc.score(&first), 0);
    disc.fit(&first);
    assert_eq!(disc.score(&first), 3);
    assert_eq!(disc.score(&second), 2);
    assert_eq!(disc.score(&short), 1);
    disc.fit(&short);
    assert_eq!(disc.score(&short), 2);
    assert_eq!(disc.score(&second), 2);
}

#[test]
fn raw_parts_round_trip() {
    let raw = word(0xDEAD_BEEF, 32);
    let sample = Sample::from_raw_parts(Bits::from_bools(&raw), 8, "label");
    let copy = sample.clone();
    let (buffer, vsize, label) = sample.into_raw_parts();
    assert_eq!(buffer.to_bools(), raw);
    assert_eq!(vsize, 8);
    assert_eq!(label, "label");
    let again = Sample::from_raw_parts(buffer, vsize, label);
    assert_eq!(again, copy);
}

#[test]
fn training_never_lowers_a_score() {
    let builder = PackedLUTFilterBuilder::new(2, 1, 0);
    let mut disc = Discriminator::from_filter_builder(8, 2, &builder);
    let probes: Vec<Sample<usize>> = (0..256usize)
        .step_by(7)
        .map(|value| Sample::from_raw_parts(Bits::from_bools(&word(value, 8)), 2, 0usize))
        .collect();
    let mut before: Vec<usize> = probes.iter().map(|probe| disc.score(probe)).collect();
    for value in [3usize, 200, 77, 255, 0, 129] {
        let sample = Sample::from_raw_parts(Bits::from_bools(&word(value, 8)), 2, 0usize);
        disc.fit(&sample);
        assert_eq!(disc.score(&sample), 4);
        let after: Vec<usize> = probes.iter().map(|probe| disc.score(probe)).collect();
        for (was, now) in before.iter().zip(after.iter()) {
            assert!(now >= was);
            assert!(*now <= 4);
        }
        before = after;
    }
}
