//! Datasets: samples in the order in which they were added.

use crate::label::{collect_distinct, distinct};
use crate::sample::{Sample, SampleView};
use vstd::laws_eq::obeys_concrete_eq;
use vstd::prelude::*;

verus! {

/// `std::io::Error`, carried as an opaque value.
#[verifier::external_type_specification]
#[verifier::external_body]
pub struct ExIoError(std::io::Error);

/// What can go wrong where a dataset is read or written.
#[non_exhaustive]
pub enum DatasetError {
    /// Reading or writing failed.
    IO(std::io::Error),
}

/// The result of reading or writing a dataset.
pub type DatasetResult<T> = Result<T, DatasetError>;

/// An ordered collection of samples.
#[derive(Clone, Debug)]
pub struct Dataset<L: Copy + PartialEq> {
    samples: Vec<Sample<L>>,
}

impl<L: Copy + PartialEq> View for Dataset<L> {
    type V = Seq<SampleView<L>>;

    closed spec fn view(&self) -> Seq<SampleView<L>> {
        self.samples@.map_values(|sample: Sample<L>| sample@)
    }
}

impl<L: Copy + PartialEq> Dataset<L> {
    /// The samples themselves, in their order.
    pub closed spec fn items(&self) -> Seq<Sample<L>> {
        self.samples@
    }

    /// The labels of the samples, in the order of the samples.
    pub open spec fn labels_of(&self) -> Seq<L> {
        self@.map_values(|sample: SampleView<L>| sample.label)
    }

    /// A dataset without samples.
    pub fn new() -> (dataset: Self)
        ensures
            dataset@ == Seq::<SampleView<L>>::empty(),
    {
        let dataset = Self { samples: Vec::new() };
        assert(dataset@ =~= Seq::<SampleView<L>>::empty());
        dataset
    }

    /// The dataset of `samples`, in their order.
    pub fn from_samples(samples: Vec<Sample<L>>) -> (dataset: Self)
        ensures
            dataset.items() == samples@,
            dataset@ == samples@.map_values(|sample: Sample<L>| sample@),
    {
        Self { samples }
    }

    /// Adds a sample after all others.
    pub fn push(&mut self, sample: Sample<L>)
        ensures
            final(self).items() == old(self).items().push(sample),
            final(self)@ == old(self)@.push(sample@),
    {
        self.samples.push(sample);
        assert(self@ =~= old(self)@.push(sample@));
    }

    /// The number of samples.
    pub fn len(&self) -> (n: usize)
        ensures
            n == self@.len(),
    {
        self.samples.len()
    }

    /// Whether the dataset holds no sample.
    pub fn is_empty(&self) -> (empty: bool)
        ensures
            empty == (self@.len() == 0),
    {
        self.samples.len() == 0
    }

    /// The samples, to be gone through in their order.
    pub fn iter(&self) -> (samples: &Vec<Sample<L>>)
        ensures
            samples@ == self.items(),
    {
        &self.samples
    }

    /// The sample at `index`, or nothing where the dataset ends before it.
    pub fn get(&self, index: usize) -> (sample: Option<&Sample<L>>)
        ensures
            match sample {
                Some(found) => index < self@.len() && *found == self.items()[index as int]
                    && found@ == self@[index as int],
                None => index >= self@.len(),
            },
    {
        if index < self.samples.len() {
            Some(&self.samples[index])
        } else {
            None
        }
    }

    /// The distinct labels of the samples, each where it first occurs.
    pub fn labels(&self) -> (labels: Vec<L>)
        requires
            obeys_concrete_eq::<L>(),
        ensures
            labels@ == distinct(self.labels_of()),
    {
        let mut all: Vec<L> = Vec::new();
        let mut i: usize = 0;
        while i < self.samples.len()
            invariant
                i <= self.samples.len(),
                all@ == self.labels_of().take(i as int),
            decreases self.samples.len() - i,
        {
            all.push(*self.samples[i].label());
            i += 1;
            assert(all@ =~= self.labels_of().take(i as int));
        }
        assert(self.labels_of().take(i as int) =~= self.labels_of());
        collect_distinct(&all)
    }
}

impl<L: Copy + PartialEq> Default for Dataset<L> {
    fn default() -> (dataset: Self)
        ensures
            dataset@ == Seq::<SampleView<L>>::empty(),
    {
        Self::new()
    }
}

} // verus!
