use wisard::bits::Bits;
use wisard::filter::lut::PackedLUTFilterBuilder;
use wisard::model::disc::Discriminator;
use wisard::model::wisard::BinaryWisard;
use wisard::sample::Sample;

fn bits(values: &[u8]) -> Bits {
    Bits::from_bools(&values.iter().map(|v| *v != 0).collect::<Vec<bool>>())
}

fn simple_disc_test(input_size: usize, addr_size: usize, samples: Vec<Bits>) -> Vec<usize> {
    let builder = PackedLUTFilterBuilder::new(addr_size, 4, 0);
    let mut disc = Discriminator::from_filter_builder(input_size, addr_size, &builder);
    let samples = samples
        .into_iter()
        .map(|v| Sample::from_raw_parts(v, addr_size, 0usize))
        .collect::<Vec<_>>();

    for sample in samples.iter() {
        disc.fit(sample);
    }

    samples.iter().map(|sample| disc.score(sample)).collect()
}

#[test]
fn discriminator_1ram_4size() {
    let input_size = 4;
    let addr_size = 4;
    let samples = vec![
        bits(&[0, 0, 0, 0]),
        bits(&[1, 0, 0, 0]),
        bits(&[0, 1, 0, 0]),
        bits(&[1, 1, 0, 0]),
        bits(&[0, 0, 1, 0]),
        bits(&[1, 0, 1, 0]),
        bits(&[0, 1, 1, 0]),
        bits(&[1, 1, 1, 0]),
        bits(&[0, 0, 0, 1]),
        bits(&[1, 0, 0, 1]),
        bits(&[0, 1, 0, 1]),
        bits(&[1, 1, 0, 1]),
        bits(&[0, 0, 1, 1]),
        bits(&[1, 0, 1, 1]),
        bits(&[0, 1, 1, 1]),
        bits(&[1, 1, 1, 1]),
    ];
    let expected = vec![1, 1, 1, 1, 1, 1, 1, 1, 1, 1, 1, 1, 1, 1, 1, 1];
    let found = simple_disc_test(input_size, addr_size, samples);
    assert_eq!(expected, found);
}

#[test]
fn discriminator_2ram_4size() {
    let input_size = 4;
    let addr_size = 2;
    let samples = vec![bits(&[0, 0, 0, 0]), bits(&[1, 1, 1, 1])];
    let expected = vec![2, 2];
    let found = simple_disc_test(input_size, addr_size, samples);
    assert_eq!(expected, found);
}

#[test]
fn discriminator_4ram_4size() {
    let input_size = 4;
    let addr_size = 1;
    let samples = vec![
        bits(&[1, 1, 0, 0]),
        bits(&[0, 1, 1, 0]),
        bits(&[0, 0, 1, 1]),
        bits(&[1, 0, 0, 1]),
    ];
    let expected = vec![4, 4, 4, 4];
    let found = simple_disc_test(input_size, addr_size, samples);
    assert_eq!(expected, found);
}

#[test]
fn binary_wisard_hot_cold() {
    let input_size = 8;
    let addr_size = 2;
    let labels = vec!["cold", "hot"];
    let mut model = BinaryWisard::new(input_size, addr_size, labels);

    let samples = vec![
        (bits(&[1, 1, 1, 0, 0, 0, 0, 0]), "cold"),
        (bits(&[1, 1, 1, 1, 0, 0, 0, 0]), "cold"),
        (bits(&[0, 0, 0, 0, 1, 1, 1, 1]), "hot"),
        (bits(&[0, 0, 0, 0, 0, 1, 1, 1]), "hot"),
    ];

    let encoded_samples = samples
        .into_iter()
        .map(|(v, l)| Sample::from_raw_parts(v, addr_size, l))
        .collect::<Vec<_>>();

    for sample in encoded_samples.iter() {
        model.fit(sample);
    }

    for sample in encoded_samples.iter() {
        let pred = model.predict(sample);
        assert_eq!(&pred, sample.label());
    }
}
