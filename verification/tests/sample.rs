use wisard::bits::Bits;
use wisard::sample::Sample;

fn bits(values: &[u8]) -> Bits {
    Bits::from_bools(&values.iter().map(|v| *v != 0).collect::<Vec<bool>>())
}

#[test]
fn from_into_parts() {
    let buffer = bits(&[0, 1]);
    let vsize = 2usize;
    let label = 0usize;
    let sample = Sample::from_raw_parts(buffer, vsize, label);
    let buffer = bits(&[0, 1]);
    let parts = sample.into_raw_parts();
    assert_eq!(parts.0, buffer);
    assert_eq!(parts.1, vsize);
    assert_eq!(parts.2, label);
}

#[test]
fn into_bits() {
    let sample = Sample::from_raw_parts(bits(&[0, 1, 0, 1, 0, 1]), 3, 0);
    let bits = sample.iter_bits();
    assert_eq!(bits, vec![false, true, false, true, false, true]);
}

#[test]
fn into_values() {
    let sample = Sample::from_raw_parts(bits(&[0, 1, 0, 1, 0, 1]), 3, 0);
    let bits = sample
        .iter_values()
        .iter()
        .map(|b| b.value().unwrap() as u8)
        .collect::<Vec<u8>>();
    assert_eq!(bits, vec![0b010, 0b101]);
}
