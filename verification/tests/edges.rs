use std::collections::hash_map::RandomState;
use wisard::bits::Bits;
use wisard::dataset::Dataset;
use wisard::encode::permute::Permute;
use wisard::encode::shuffle::Shuffle;
use wisard::encode::slice::Slice;
use wisard::encode::therm::{linear_quantize, LinearThermometer};
use wisard::encode::SampleEncoder;
use wisard::filter::bloom_filter::{BloomFilter, BloomFilterBuilder};
use wisard::filter::lut::{
    power_of_two, LUTFilter, LUTFilterBuilder, PackedLUTFilter, PackedLUTFilterBuilder,
};
use wisard::filter::{BuildFilter, CountingFilter, Filter};
use wisard::label::{collect_distinct, position};
use wisard::model::disc::Discriminator;
use wisard::model::wisard::{BinaryWisard, WisardBase};
use wisard::sample::Sample;
use wisard::util::{raw_index, Counter, RawIntHasher};
use wisard::utils::PrimitiveHasher;
use wisard::word::{thermometer_word, word_bit_length};

fn bits(values: &[u8]) -> Bits {
    Bits::from_bools(&values.iter().map(|v| *v != 0).collect::<Vec<bool>>())
}

#[test]
fn bloom_filter_single() {
    let value = 0usize;
    let hasher_one = RandomState::new();
    let hasher_two = RandomState::new();
    let entries = bloom::needed_bits(0.01, 1 << 1);
    let hashes = bloom::optimal_num_hashes(entries, 1 << 1);
    let builder =
        BloomFilterBuilder::with_size_and_hashers(2, 1, entries, hashes, hasher_one, hasher_two);
    let mut filter = builder.build_filter();
    assert_eq!(filter.counter(&value), Some(0));
    assert!(!filter.contains(&value));
    filter.include_item(&value);
    assert_eq!(filter.counter(&value), Some(1));
    assert!(!filter.contains(&value));
    filter.include_item(&value);
    assert_eq!(filter.counter(&value), Some(2));
    assert!(filter.contains(&value));
}

#[test]
fn bloom_filter_never_undercounts() {
    let one = RandomState::new();
    let two = RandomState::new();
    let mut filter = BloomFilter::with_size_and_hashers(4, 2, 64, 3, one, two);
    for address in 0..40usize {
        assert_eq!(filter.counter(&address), Some(0));
    }
    for round in 1..=5usize {
        for address in 0..10usize {
            let before = filter.counter(&address).unwrap();
            assert!(filter.include_item(&address));
            assert!(filter.counter(&address).unwrap() >= before.min(14) + 1);
        }
        for address in 0..10usize {
            assert!(filter.counter(&address).unwrap() >= round);
            assert_eq!(filter.contains(&address), filter.counter(&address).unwrap() > 2);
        }
    }
    for _ in 0..40 {
        filter.include_item(&3);
    }
    assert_eq!(filter.counter(&3), Some(15));
}

#[test]
fn bits_hold_what_they_are_given() {
    let empty = Bits::new();
    assert_eq!(empty.len(), 0);
    assert!(empty.is_empty());
    assert_eq!(empty.to_bools(), Vec::<bool>::new());
    assert_eq!(empty.get(0), None);
    assert_eq!(empty.value(), Some(0));
    let some = bits(&[1, 0, 1, 1]);
    assert_eq!(some.len(), 4);
    assert!(!some.is_empty());
    assert_eq!(some.get(0), Some(true));
    assert_eq!(some.get(1), Some(false));
    assert_eq!(some.get(3), Some(true));
    assert_eq!(some.get(4), None);
    assert_eq!(some.value(), Some(0b1101));
    assert_eq!(some.clone(), some);
    let long = Bits::from_bools(&vec![true; 65]);
    assert_eq!(long.value(), None);
    let full = Bits::from_bools(&vec![true; 64]);
    assert_eq!(full.value(), Some(u64::MAX as usize));
}

#[test]
fn words_and_their_digits() {
    assert_eq!(word_bit_length(0), 0);
    assert_eq!(word_bit_length(1), 1);
    assert_eq!(word_bit_length(2), 2);
    assert_eq!(word_bit_length(3), 2);
    assert_eq!(word_bit_length(4), 3);
    assert_eq!(word_bit_length(255), 8);
    assert_eq!(word_bit_length(256), 9);
    assert_eq!(word_bit_length(usize::MAX), usize::BITS as usize);
    assert_eq!(thermometer_word(0), 0);
    assert_eq!(thermometer_word(1), 1);
    assert_eq!(thermometer_word(5), 0b11111);
    assert_eq!(thermometer_word(63), usize::MAX >> 1);
    assert_eq!(thermometer_word(64), usize::MAX);
    assert_eq!(thermometer_word(1000), usize::MAX);
    assert_eq!(power_of_two(0), 1);
    assert_eq!(power_of_two(10), 1024);
    assert_eq!(linear_quantize(2, 2, 2), 1);
    assert_eq!(linear_quantize(3, 2, 4), 4);
    assert_eq!(linear_quantize(0, 0, 7), 0);
    assert_eq!(linear_quantize(usize::MAX, 64, 64), 65);
    assert_eq!(linear_quantize(5, 4, 1), 1);
    assert_eq!(linear_quantize(5, 4, 8), 3);
    assert_eq!(linear_quantize(8, 4, 1), 1);
    assert_eq!(linear_quantize(4, 4, 1), 0);
}

#[test]
fn sample_setters() {
    let mut sample = Sample::from_raw_parts(bits(&[1, 0, 0, 1, 1, 1]), 3, 1usize);
    assert_eq!(sample.len(), 6);
    assert!(!sample.is_empty());
    assert_eq!(sample.vsize(), 3);
    assert_eq!(*sample.label(), 1);
    assert_eq!(sample.raw_bits().to_bools(), vec![true, false, false, true, true, true]);
    sample.set_vsize(2);
    assert_eq!(sample.vsize(), 2);
    assert_eq!(sample.iter_values().len(), 3);
    sample.set_label(9);
    assert_eq!(*sample.label(), 9);
    sample.set_raw_bits(bits(&[0, 1, 1, 0]));
    assert_eq!(sample.iter_bits(), vec![false, true, true, false]);
    sample.swap_bits(0, 1);
    assert_eq!(sample.iter_bits(), vec![true, false, true, false]);
    sample.swap_bits(2, 2);
    assert_eq!(sample.iter_bits(), vec![true, false, true, false]);
    sample.set_values(bits(&[1, 1, 1]), 3);
    assert_eq!(sample.vsize(), 3);
    assert_eq!(sample.len(), 3);
    let empty = Sample::from_raw_parts(Bits::new(), 5, 0usize);
    assert!(empty.is_empty());
    assert_eq!(empty.iter_values().len(), 0);
    assert_eq!(empty.iter_bits(), Vec::<bool>::new());
}

#[test]
fn slice_pads_with_zeros() {
    let mut sample = Sample::from_raw_parts(bits(&[1, 1, 0, 1]), 2, 0usize);
    Slice::new(1, 4).encode_inplace(&mut sample);
    assert_eq!(sample.vsize(), 3);
    assert_eq!(sample.iter_bits(), vec![true, false, false, true, false, false]);
    let mut whole = Sample::from_raw_parts(bits(&[1, 0, 1, 0, 1, 1]), 3, 0usize);
    Slice::new(0, 3).encode_inplace(&mut whole);
    assert_eq!(whole.iter_bits(), vec![true, false, true, false, true, true]);
}

#[test]
fn encoders_on_one_bit() {
    let single = Sample::from_raw_parts(bits(&[1]), 1, 3usize);
    let sliced = Slice::new(0, 1).encode(single.clone());
    assert_eq!(sliced, single);
    let linear = LinearThermometer::with_resolution(2).encode(single.clone());
    assert_eq!(linear.iter_bits(), vec![true, false]);
    assert_eq!(linear.vsize(), 2);
    assert_eq!(Permute::with_seed([1u8; 32]).encode(single.clone()), single);
    assert_eq!(Shuffle::with_seed(1).encode(single.clone()), single);
}

#[test]
fn seeds_are_kept() {
    let seed = [7u8; 32];
    assert_eq!(Permute::with_seed(seed).seed(), &seed);
    assert_eq!(Shuffle::with_seed(77).seed(), 77);
    let fresh = Permute::new();
    assert_eq!(Permute::with_seed(*fresh.seed()).seed(), fresh.seed());
    let other = Shuffle::default();
    assert_eq!(Shuffle::with_seed(other.seed()).seed(), other.seed());
    let model: BinaryWisard<usize> = BinaryWisard::with_seed(8, 2, vec![0, 1], seed);
    assert_eq!(model.seed(), seed);
}

#[test]
fn filters_refuse_addresses_out_of_range() {
    let mut exact = LUTFilter::new(2, 0u8);
    assert!(exact.include_item(&3));
    assert!(!exact.include_item(&4));
    assert!(!exact.contains(&4));
    assert_eq!(exact.counter(&4), None);
    assert_eq!(exact.counter(&usize::MAX), None);
    assert_eq!(exact.counter(&3), Some(1));
    let mut packed = PackedLUTFilter::new(2, 2, 0);
    assert!(packed.include_item(&3));
    assert!(!packed.include_item(&4));
    assert!(!packed.contains(&4));
    assert_eq!(packed.counter(&4), None);
    assert_eq!(packed.counter(&usize::MAX), None);
    assert_eq!(packed.counter(&3), Some(1));
    assert_eq!(packed.counter(&2), Some(0));
    let mut narrow = PackedLUTFilter::new(1, 0, 0);
    assert!(narrow.include_item(&1));
    assert_eq!(narrow.counter(&1), Some(0));
    assert!(!narrow.contains(&1));
    assert_eq!(narrow.counter(&2), None);
}

#[test]
fn packed_counters_do_not_disturb_neighbours() {
    let mut filter = PackedLUTFilter::new(3, 3, 0);
    let times = [0usize, 5, 1, 7, 9, 2, 0, 3];
    for (address, n) in times.iter().enumerate() {
        for _ in 0..*n {
            filter.include_item(&address);
        }
    }
    for (address, n) in times.iter().enumerate() {
        assert_eq!(filter.counter(&address), Some((*n).min(7)));
    }
}

#[test]
fn builders_make_fresh_filters() {
    let builder = LUTFilterBuilder::new(2, 0u16);
    let mut first = builder.build_filter();
    let second = builder.build_filter();
    first.include_item(&1);
    assert_eq!(first.counter(&1), Some(1));
    assert_eq!(second.counter(&1), Some(0));
    let packed = PackedLUTFilterBuilder::new(2, 2, 1);
    let mut third = packed.build_filter();
    let fourth = packed.build_filter();
    third.include_item(&0);
    third.include_item(&0);
    assert!(third.contains(&0));
    assert!(!fourth.contains(&0));
}

#[test]
fn counters_saturate() {
    assert_eq!(<u8 as Counter>::zero(), 0);
    assert_eq!(Counter::saturating_succ(7u8), 8);
    assert_eq!(Counter::saturating_succ(u8::MAX), u8::MAX);
    assert_eq!(Counter::saturating_succ(u16::MAX), u16::MAX);
    assert_eq!(Counter::saturating_succ(usize::MAX), usize::MAX);
    assert_eq!(Counter::saturating_succ(41usize), 42);
    assert!(Counter::exceeds(3u16, 2u16));
    assert!(!Counter::exceeds(2u16, 2u16));
    assert_eq!(Counter::into_usize(300u16), 300);
}

#[test]
fn hashers_give_back_the_integer() {
    let mut raw = RawIntHasher::default();
    raw.write_u32(77);
    assert_eq!(raw.finish(), 77);
    let mut raw = RawIntHasher::default();
    raw.write_u8(7);
    assert_eq!(raw.finish(), 7);
    let mut raw = RawIntHasher::default();
    raw.write_u16(700);
    assert_eq!(raw.finish(), 700);
    let mut raw = RawIntHasher::default();
    raw.write_u64(u64::MAX);
    assert_eq!(raw.finish(), u64::MAX);
    assert_eq!(raw_index(12345), 12345);
    let mut primitive = PrimitiveHasher::default();
    primitive.write_usize(99);
    assert_eq!(primitive.finish(), 99);
    let mut primitive = PrimitiveHasher::default();
    primitive.write_u8(9);
    assert_eq!(primitive.finish(), 9);
    let mut primitive = PrimitiveHasher::default();
    primitive.write_u16(900);
    assert_eq!(primitive.finish(), 900);
    let mut primitive = PrimitiveHasher::default();
    primitive.write_u32(90000);
    assert_eq!(primitive.finish(), 90000);
}

#[test]
fn discriminator_with_a_short_last_chunk() {
    let builder = PackedLUTFilterBuilder::new(2, 1, 0);
    let mut disc = Discriminator::from_filter_builder(5, 2, &builder);
    assert_eq!(disc.input_size(), 5);
    assert_eq!(disc.addr_size(), 2);
    let sample = Sample::from_raw_parts(bits(&[1, 1, 0, 1, 1]), 1, 0usize);
    let other = Sample::from_raw_parts(bits(&[1, 1, 0, 1, 0]), 1, 0usize);
    let third = Sample::from_raw_parts(bits(&[0, 1, 1, 0, 1]), 1, 0usize);
    disc.fit(&sample);
    assert_eq!(disc.score(&sample), 3);
    assert_eq!(disc.score(&other), 2);
    assert_eq!(disc.score(&third), 1);
    let nothing = Sample::from_raw_parts(Bits::new(), 1, 0usize);
    assert_eq!(disc.score(&nothing), 0);
}

#[test]
fn filters_are_not_interchangeable_across_chunks() {
    let builder = LUTFilterBuilder::new(2, 0u8);
    let mut disc = Discriminator::from_filter_builder(4, 2, &builder);
    disc.fit(&Sample::from_raw_parts(bits(&[1, 0, 0, 1]), 2, 0usize));
    assert_eq!(disc.score(&Sample::from_raw_parts(bits(&[1, 0, 0, 1]), 2, 0usize)), 2);
    assert_eq!(disc.score(&Sample::from_raw_parts(bits(&[0, 1, 1, 0]), 2, 0usize)), 0);
    assert_eq!(disc.score(&Sample::from_raw_parts(bits(&[1, 0, 1, 0]), 2, 0usize)), 1);
}

#[test]
fn base_model_scores_and_ties() {
    let builder = PackedLUTFilterBuilder::new(2, 2, 0);
    let mut model = WisardBase::from_filter_builder(4, 2, vec![5usize, 3, 5, 8, 3], &builder);
    let sample = Sample::from_raw_parts(bits(&[1, 0, 1, 1]), 2, 3usize);
    assert_eq!(model.scores(&sample), vec![(0, 5), (0, 3), (0, 8)]);
    assert_eq!(model.predict(&sample), 5);
    model.fit(&sample);
    assert_eq!(model.scores(&sample), vec![(0, 5), (2, 3), (0, 8)]);
    assert_eq!(model.predict(&sample), 3);
    let mut late = sample.clone();
    late.set_label(8);
    model.fit(&late);
    assert_eq!(model.scores(&sample), vec![(0, 5), (2, 3), (2, 8)]);
    assert_eq!(model.predict(&sample), 3);
    let half = Sample::from_raw_parts(bits(&[1, 0, 0, 0]), 2, 5usize);
    assert_eq!(model.scores(&half), vec![(0, 5), (1, 3), (1, 8)]);
}

#[test]
fn binary_model_with_a_fixed_seed() {
    let seed = [3u8; 32];
    let mut model = BinaryWisard::with_seed(8, 2, vec!["cold", "hot"], seed);
    let cold = Sample::from_raw_parts(bits(&[1, 1, 1, 0, 0, 0, 0, 0]), 2, "cold");
    let hot = Sample::from_raw_parts(bits(&[0, 0, 0, 0, 1, 1, 1, 1]), 2, "hot");
    assert_eq!(model.scores(&cold), vec![(0, "cold"), (0, "hot")]);
    assert_eq!(model.predict(&cold), "cold");
    model.fit(&hot);
    assert_eq!(model.scores(&hot), vec![(0, "cold"), (4, "hot")]);
    assert_eq!(model.predict(&hot), "hot");
    model.fit(&cold);
    assert_eq!(model.scores(&cold)[0], (4, "cold"));
    assert_eq!(model.predict(&cold), "cold");
    let permuted = Permute::with_seed(seed).encode(cold.clone());
    let builder = PackedLUTFilterBuilder::new(2, 1, 0);
    let mut base = WisardBase::from_filter_builder(8, 2, vec!["cold", "hot"], &builder);
    base.fit(&Permute::with_seed(seed).encode(hot.clone()));
    base.fit(&permuted);
    assert_eq!(base.scores(&permuted), model.scores(&cold));
}

#[test]
fn labels_are_told_apart() {
    assert_eq!(collect_distinct(&vec![3, 1, 3, 2, 1]), vec![3, 1, 2]);
    assert_eq!(collect_distinct(&Vec::<u8>::new()), Vec::<u8>::new());
    assert_eq!(position(&vec!["a", "b", "a"], &"a"), Some(0));
    assert_eq!(position(&vec!["a", "b", "a"], &"b"), Some(1));
    assert_eq!(position(&vec!["a", "b", "a"], &"c"), None);
}

#[test]
fn datasets_keep_their_order() {
    let mut dataset: Dataset<usize> = Dataset::new();
    assert!(dataset.is_empty());
    assert_eq!(dataset.len(), 0);
    assert!(dataset.get(0).is_none());
    dataset.push(Sample::from_raw_parts(bits(&[1, 0]), 2, 4));
    dataset.push(Sample::from_raw_parts(bits(&[0, 1]), 2, 2));
    dataset.push(Sample::from_raw_parts(bits(&[1, 1]), 2, 4));
    assert_eq!(dataset.len(), 3);
    assert!(!dataset.is_empty());
    assert_eq!(dataset.labels(), vec![4, 2]);
    assert_eq!(dataset.get(1).unwrap().iter_bits(), vec![false, true]);
    assert!(dataset.get(3).is_none());
    assert_eq!(dataset.iter().len(), 3);
    let copy = Dataset::from_samples(dataset.iter().clone());
    assert_eq!(copy.len(), 3);
    assert_eq!(copy.get(2), dataset.get(2));
    let empty: Dataset<u8> = Dataset::default();
    assert_eq!(empty.labels(), Vec::<u8>::new());
}

#[test]
fn packed_counters_of_full_word_width() {
    let width = usize::BITS as usize;
    let mut filter = PackedLUTFilter::new(1, width, 2);
    assert_eq!(filter.counter(&0), Some(0));
    assert_eq!(filter.counter(&1), Some(0));
    for seen in 0..5usize {
        assert_eq!(filter.counter(&1), Some(seen));
        assert_eq!(filter.contains(&1), seen > 2);
        assert!(filter.include_item(&1));
    }
    assert_eq!(filter.counter(&1), Some(5));
    assert_eq!(filter.counter(&0), Some(0));
    assert!(!filter.include_item(&2));
    let built = PackedLUTFilterBuilder::new(0, width, 0).build_filter();
    assert_eq!(built.counter(&0), Some(0));
}

#[test]
fn linear_thermometer_rounds_to_the_nearest_level() {
    let code = |value: u8, resolution: u8| {
        let raw: Vec<bool> = (0..4).map(|i| (value >> i) & 1 == 1).collect();
        let sample = Sample::from_raw_parts(Bits::from_bools(&raw), 4, 0usize);
        let encoded = LinearThermometer::with_resolution(resolution).encode(sample);
        encoded.iter_bits().iter().filter(|b| **b).count()
    };
    assert_eq!(code(5, 1), 1);
    assert_eq!(code(3, 1), 0);
    assert_eq!(code(4, 1), 0);
    assert_eq!(code(8, 1), 1);
    assert_eq!(code(5, 8), 3);
    assert_eq!(code(6, 8), 3);
    assert_eq!(code(7, 8), 4);
    for value in 0..16u8 {
        for resolution in 1..=16u8 {
            let exact = (resolution as usize + 1) * value as usize;
            let level = (2 * exact + 15) / 32;
            assert_eq!(code(value, resolution), level.min(resolution as usize));
        }
    }
}
