use wisard::bits::Bits;
use wisard::encode::permute::Permute;
use wisard::encode::shuffle::Shuffle;
use wisard::encode::slice::Slice;
use wisard::encode::therm::{LinearThermometer, LogThermometer};
use wisard::encode::SampleEncoder;
use wisard::sample::Sample;

fn bits(values: &[u8]) -> Bits {
    Bits::from_bools(&values.iter().map(|v| *v != 0).collect::<Vec<bool>>())
}

#[test]
fn permute_fixed_seed() {
    let sample_1 = Sample::from_raw_parts(bits(&[0, 0, 0, 0, 1, 1, 1, 1]), 1, 0usize);
    let sample_2 = Sample::from_raw_parts(bits(&[0, 1, 0, 1, 0, 1, 0, 1]), 1, 0usize);
    let sample_1_perm = Sample::from_raw_parts(bits(&[1, 1, 1, 0, 0, 0, 1, 0]), 1, 0usize);
    let sample_2_perm = Sample::from_raw_parts(bits(&[0, 0, 1, 1, 0, 0, 1, 1]), 1, 0usize);
    let seed = 0xBAD_5EED_u32.to_le_bytes().repeat(8).try_into().unwrap();
    let permute = Permute::with_seed(seed);
    assert_eq!(permute.encode(sample_1), sample_1_perm);
    assert_eq!(permute.encode(sample_2), sample_2_perm);
}

#[test]
fn shuffle_fixed_seed() {
    let sample_1 = Sample::from_raw_parts(bits(&[0, 0, 0, 0, 1, 1, 1, 1]), 1, 0usize);
    let sample_2 = Sample::from_raw_parts(bits(&[0, 1, 0, 1, 0, 1, 0, 1]), 1, 0usize);
    let sample_1_shuf = Sample::from_raw_parts(bits(&[1, 0, 0, 1, 0, 0, 1, 1]), 1, 0usize);
    let sample_2_shuf = Sample::from_raw_parts(bits(&[0, 1, 0, 1, 1, 0, 0, 1]), 1, 0usize);
    let shuffle = Shuffle::with_seed(7);
    assert_eq!(shuffle.encode(sample_1), sample_1_shuf);
    assert_eq!(shuffle.encode(sample_2), sample_2_shuf);
}

#[test]
fn slice_in2_out1() {
    let mut sample = Sample::from_raw_parts(
        bits(&[
            0, 0, //
            1, 0, //
            0, 1, //
            1, 1, //
        ]),
        2,
        0usize,
    );
    let sample_slice = Sample::from_raw_parts(
        bits(&[
            0, //
            0, //
            1, //
            1, //
        ]),
        1,
        0usize,
    );
    Slice::new(1, 2).encode_inplace(&mut sample);
    assert_eq!(sample, sample_slice);
}

#[test]
fn slice_in3_out1() {
    let mut sample = Sample::from_raw_parts(
        bits(&[
            0, 0, 0, //
            0, 1, 0, //
            0, 0, 1, //
            0, 1, 1, //
        ]),
        3,
        0usize,
    );
    let sample_slice = Sample::from_raw_parts(
        bits(&[
            0, //
            1, //
            0, //
            1, //
        ]),
        1,
        0usize,
    );
    Slice::new(1, 2).encode_inplace(&mut sample);
    assert_eq!(sample, sample_slice);
}

fn four_values() -> Sample<usize> {
    Sample::from_raw_parts(
        bits(&[
            0, 0, //
            1, 0, //
            0, 1, //
            1, 1, //
        ]),
        2,
        0usize,
    )
}

#[test]
fn log_therm_in2_out1() {
    let mut sample = four_values();
    let sample_therm = Sample::from_raw_parts(
        bits(&[
            0, //
            0, //
            1, //
            1, //
        ]),
        1,
        0usize,
    );
    LogThermometer::with_resolution(1).encode_inplace(&mut sample);
    assert_eq!(sample, sample_therm);
}

#[test]
fn log_therm_in2_out2() {
    let mut sample = four_values();
    let sample_therm = Sample::from_raw_parts(
        bits(&[
            0, 0, //
            1, 0, //
            1, 1, //
            1, 1, //
        ]),
        2,
        0usize,
    );
    LogThermometer::with_resolution(2).encode_inplace(&mut sample);
    assert_eq!(sample, sample_therm);
}

#[test]
fn log_therm_in2_out4() {
    let mut sample = four_values();
    let sample_therm = Sample::from_raw_parts(
        bits(&[
            0, 0, 0, 0, //
            1, 1, 0, 0, //
            1, 1, 1, 1, //
            1, 1, 1, 1, //
        ]),
        4,
        0usize,
    );
    LogThermometer::with_resolution(4).encode_inplace(&mut sample);
    assert_eq!(sample, sample_therm);
}

#[test]
fn linear_therm_in2_out1() {
    let mut sample = four_values();
    let sample_therm = Sample::from_raw_parts(
        bits(&[
            0, //
            0, //
            1, //
            1, //
        ]),
        1,
        0usize,
    );
    LinearThermometer::with_resolution(1).encode_inplace(&mut sample);
    assert_eq!(sample, sample_therm);
}

#[test]
fn linear_therm_in2_out2() {
    let mut sample = four_values();
    let sample_therm = Sample::from_raw_parts(
        bits(&[
            0, 0, //
            1, 0, //
            1, 0, //
            1, 1, //
        ]),
        2,
        0usize,
    );
    LinearThermometer::with_resolution(2).encode_inplace(&mut sample);
    assert_eq!(sample, sample_therm);
}

#[test]
fn linear_therm_in2_out3() {
    let mut sample = four_values();
    let sample_therm = Sample::from_raw_parts(
        bits(&[
            0, 0, 0, //
            1, 0, 0, //
            1, 1, 0, //
            1, 1, 1, //
        ]),
        3,
        0usize,
    );
    LinearThermometer::with_resolution(3).encode_inplace(&mut sample);
    assert_eq!(sample, sample_therm);
}

#[test]
fn linear_therm_in2_out4() {
    let mut sample = four_values();
    let sample_therm = Sample::from_raw_parts(
        bits(&[
            0, 0, 0, 0, //
            1, 0, 0, 0, //
            1, 1, 0, 0, //
            1, 1, 1, 1, //
        ]),
        4,
        0usize,
    );
    LinearThermometer::with_resolution(4).encode_inplace(&mut sample);
    assert_eq!(sample, sample_therm);
}
