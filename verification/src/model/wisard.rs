//! WiSARD models: one discriminator for every label, trained on the samples
//! of that label, and asked together for the label that a sample looks most
//! like.

use crate::encode::permute::{lemma_permute_is_permutation, permuted, Permute};
use crate::encode::SampleEncoder;
use crate::filter::lut::{lemma_packed_first_occurrence, PackedLUTFilter, PackedLUTFilterBuilder};
use crate::filter::{BuildFilter, Filter};
use crate::label::{collect_distinct, distinct, lemma_distinct, position};
use crate::model::disc::{
    address_at, chunk_count, hits, lemma_address_in_range, lemma_hits_bounded, Discriminator,
};
use crate::rng::random_seed;
use crate::sample::Sample;
use vstd::laws_eq::obeys_concrete_eq;
use vstd::prelude::*;

verus! {

/// Whether `scores[k]` is the highest score and the first to be so high.
pub open spec fn is_first_max(scores: Seq<nat>, k: int) -> bool {
    &&& 0 <= k < scores.len()
    &&& forall|j: int| 0 <= j < scores.len() ==> scores[j] <= scores[k]
    &&& forall|j: int| 0 <= j < k ==> scores[j] < scores[k]
}

/// The base for a WiSARD model that only includes the discriminators.
///
/// Labels are told apart with `==`, which must be equality itself
/// (`obeys_concrete_eq`). The integer types, `bool` and tuples of them are
/// known to meet this; of string slices nothing is known, so a caller with
/// such labels cannot be verified against the contracts below.
#[derive(Clone, Debug)]
pub struct WisardBase<L: Copy + PartialEq, F: Filter> {
    labels: Vec<L>,
    discs: Vec<Discriminator<F>>,
}

impl<L: Copy + PartialEq, F: Filter> WisardBase<L, F> {
    /// The labels that the model knows, in the order in which they were
    /// first given.
    pub closed spec fn labels(&self) -> Seq<L> {
        self.labels@
    }

    /// The discriminators, each in the place of its label.
    pub closed spec fn discs(&self) -> Seq<Discriminator<F>> {
        self.discs@
    }

    /// Whether every label has its own discriminator in good state.
    pub open spec fn wf(&self) -> bool {
        &&& self.labels().len() == self.discs().len()
        &&& self.labels().no_duplicates()
        &&& forall|k: int| 0 <= k < self.discs().len() ==> (#[trigger] self.discs()[k]).wf()
    }

    /// Whether every discriminator can take a sample of these bits.
    pub open spec fn takes(&self, bits: Seq<bool>) -> bool {
        forall|k: int| 0 <= k < self.discs().len() ==> (#[trigger] self.discs()[k]).takes(bits)
    }

    /// Whether the discriminator of `label` can take a sample of these bits.
    pub open spec fn takes_for(&self, label: L, bits: Seq<bool>) -> bool {
        forall|k: int|
            0 <= k < self.discs().len() && self.labels()[k] == label ==> (#[trigger] self.discs()[
                k
            ]).takes(bits)
    }

    /// The score of every label for a sample of these bits, in the order of
    /// the labels.
    pub open spec fn scores_of(&self, bits: Seq<bool>) -> Seq<nat> {
        Seq::new(self.discs().len(), |k: int| self.discs()[k].score_of(bits))
    }

    /// Whether `label` is the one predicted for a sample of these bits: the
    /// first of the labels with the highest score.
    pub open spec fn predicts(&self, bits: Seq<bool>, label: L) -> bool {
        exists|k: int| is_first_max(self.scores_of(bits), k) && self.labels()[k] == label
    }

    /// Whether the model is what `before` becomes by training on a sample
    /// of these bits with this label: the label's discriminator is trained
    /// on it, and no other has changed.
    pub open spec fn fitted(&self, before: &Self, label: L, bits: Seq<bool>) -> bool {
        &&& self.labels() == before.labels()
        &&& self.discs().len() == before.discs().len()
        &&& forall|k: int|
            0 <= k < self.discs().len() ==> if self.labels()[k] == label {
                (#[trigger] self.discs()[k]).fitted(&before.discs()[k], bits)
            } else {
                self.discs()[k] == before.discs()[k]
            }
    }

    /// Creates a model with one fresh discriminator for every distinct label
    /// of `labels`.
    pub fn from_filter_builder<B>(
        input_size: usize,
        addr_size: usize,
        labels: Vec<L>,
        builder: &B,
    ) -> (model: Self)
        where B: BuildFilter<Filter = F>
        requires
            obeys_concrete_eq::<L>(),
            addr_size > 0,
            input_size + addr_size <= usize::MAX,
            builder.wf(),
        ensures
            model.wf(),
            model.labels() == distinct(labels@),
            forall|k: int|
                0 <= k < model.discs().len() ==> {
                    &&& (#[trigger] model.discs()[k]).spec_input_size() == input_size
                    &&& model.discs()[k].spec_addr_size() == addr_size
                    &&& forall|i: int|
                        0 <= i < model.discs()[k].filters().len() ==> builder.builds(
                            #[trigger] &model.discs()[k].filters()[i],
                        )
                },
    {
        let kept = collect_distinct(&labels);
        let mut discs: Vec<Discriminator<F>> = Vec::new();
        let mut k: usize = 0;
        while k < kept.len()
            invariant
                k <= kept.len(),
                addr_size > 0,
                input_size + addr_size <= usize::MAX,
                builder.wf(),
                discs.len() == k,
                forall|j: int|
                    0 <= j < discs.len() ==> {
                        &&& (#[trigger] discs[j]).wf()
                        &&& discs[j].spec_input_size() == input_size
                        &&& discs[j].spec_addr_size() == addr_size
                        &&& forall|f: int|
                            0 <= f < discs[j].filters().len() ==> builder.builds(
                                #[trigger] &discs[j].filters()[f],
                            )
                    },
            decreases kept.len() - k,
        {
            discs.push(Discriminator::from_filter_builder(input_size, addr_size, builder));
            k += 1;
        }
        proof {
            lemma_distinct(labels@);
        }
        Self { labels: kept, discs }
    }

    /// Fits (trains) the model with a given input sample, whose label the
    /// model must know.
    pub fn fit(&mut self, sample: &Sample<L>)
        requires
            obeys_concrete_eq::<L>(),
            old(self).wf(),
            old(self).labels().contains(sample@.label),
            old(self).takes_for(sample@.label, sample@.bits),
        ensures
            final(self).wf(),
            final(self).fitted(old(self), sample@.label, sample@.bits),
    {
        let place = position(&self.labels, sample.label());
        match place {
            Some(k) => {
                self.discs[k].fit(sample);
                proof {
                    assert forall|j: int| 0 <= j < self.discs().len() implies if self.labels()[j]
                        == sample@.label {
                        (#[trigger] self.discs()[j]).fitted(&old(self).discs()[j], sample@.bits)
                    } else {
                        self.discs()[j] == old(self).discs()[j]
                    } by {
                        if j != k {
                            assert(self.labels()[j] != self.labels()[k as int]);
                        }
                    }
                }
            },
            None => {},
        }
    }

    /// Returns the model scores for a given input sample: one pair of score
    /// and label for every label, in the order of the labels.
    pub fn scores(&self, sample: &Sample<L>) -> (scores: Vec<(usize, L)>)
        requires
            self.wf(),
            self.takes(sample@.bits),
        ensures
            scores.len() == self.labels().len(),
            forall|k: int|
                0 <= k < scores.len() ==> (#[trigger] scores[k]).0 == self.scores_of(
                    sample@.bits,
                )[k] && scores[k].1 == self.labels()[k],
    {
        let mut scores: Vec<(usize, L)> = Vec::new();
        let mut k: usize = 0;
        while k < self.labels.len()
            invariant
                k <= self.labels.len(),
                self.wf(),
                self.takes(sample@.bits),
                scores.len() == k,
                forall|j: int|
                    0 <= j < k ==> (#[trigger] scores[j]).0 == self.scores_of(sample@.bits)[j]
                        && scores[j].1 == self.labels()[j],
            decreases self.labels.len() - k,
        {
            assert(self.discs()[k as int].wf());
            assert(self.discs()[k as int].takes(sample@.bits));
            scores.push((self.discs[k].score(sample), self.labels[k]));
            k += 1;
        }
        scores
    }

    /// Returns the model prediction for a given input sample: of the labels
    /// with the highest score, the one that was given first.
    pub fn predict(&self, sample: &Sample<L>) -> (label: L)
        requires
            self.wf(),
            self.takes(sample@.bits),
            self.labels().len() > 0,
        ensures
            self.predicts(sample@.bits, label),
    {
        let scores = self.scores(sample);
        let ghost all = self.scores_of(sample@.bits);
        let mut best: usize = 0;
        let mut k: usize = 1;
        while k < scores.len()
            invariant
                1 <= k <= scores.len(),
                best < k,
                scores.len() == self.labels().len(),
                all == self.scores_of(sample@.bits),
                all.len() == scores.len(),
                forall|j: int|
                    0 <= j < scores.len() ==> (#[trigger] scores[j]).0 == all[j] && scores[j].1
                        == self.labels()[j],
                forall|j: int| 0 <= j < k ==> all[j] <= all[best as int],
                forall|j: int| 0 <= j < best ==> all[j] < all[best as int],
            decreases scores.len() - k,
        {
            if scores[k].0 > scores[best].0 {
                best = k;
            }
            k += 1;
        }
        assert(is_first_max(all, best as int));
        scores[best].1
    }
}

/// A wrapper around [`WisardBase`] for a traditional WiSARD model, using
/// boolean values to store its internal state: one bit for every address,
/// set once the address has been seen, and a permutation of the sample bits
/// that is fixed when the model is made.
///
/// Labels are told apart with `==`, which must be equality itself
/// (`obeys_concrete_eq`). The integer types, `bool` and tuples of them are
/// known to meet this; of string slices nothing is known, so a caller with
/// such labels cannot be verified against the contracts below.
#[derive(Clone, Debug)]
pub struct BinaryWisard<L: Copy + PartialEq> {
    base: WisardBase<L, PackedLUTFilter>,
    seed: [u8; 32],
}

impl<L: Copy + PartialEq> BinaryWisard<L> {
    /// The model of discriminators that the permuted samples go to.
    pub closed spec fn base(&self) -> WisardBase<L, PackedLUTFilter> {
        self.base
    }

    /// The seed of the permutation.
    pub closed spec fn spec_seed(&self) -> Seq<u8> {
        self.seed@
    }

    /// Whether every filter of `base` holds one bit for every address of the
    /// width that its discriminator cuts, set once the address has been seen.
    pub open spec fn single_bit(base: WisardBase<L, PackedLUTFilter>) -> bool {
        forall|k: int, i: int|
            0 <= k < base.discs().len() && 0 <= i < base.discs()[k].filters().len() ==> {
                &&& (#[trigger] base.discs()[k].filters()[i]).addr_size()
                    == base.discs()[k].spec_addr_size()
                &&& base.discs()[k].filters()[i].count_size() == 1
                &&& base.discs()[k].filters()[i].threshold() == 0
            }
    }

    /// Whether the model is in a state that its constructors and its own
    /// methods can have left.
    pub open spec fn wf(&self) -> bool {
        self.base().wf() && Self::single_bit(self.base())
    }

    /// Whether the model can take a sample of these bits for scoring: there
    /// is at least one bit, and every discriminator can take them.
    pub open spec fn takes(&self, bits: Seq<bool>) -> bool {
        bits.len() > 0 && self.base().takes(bits)
    }

    /// Whether the model can take a sample of these bits for training on
    /// `label`: there is at least one bit, and the discriminator of the
    /// label can take them.
    pub open spec fn takes_for(&self, label: L, bits: Seq<bool>) -> bool {
        bits.len() > 0 && self.base().takes_for(label, bits)
    }

    /// Creates a model with a permutation seed drawn from the process-wide
    /// random source.
    ///
    /// The `input_size` value determines the total number of input bits.
    /// The `addr_size` value corresponds to the address size of the RAMs.
    /// The `labels` must contain all the expected sample labels.
    pub fn new(input_size: usize, addr_size: usize, labels: Vec<L>) -> (model: Self)
        requires
            obeys_concrete_eq::<L>(),
            addr_size > 0,
            input_size + addr_size <= usize::MAX,
            PackedLUTFilter::fits(addr_size as nat, 1),
        ensures
            model.wf(),
            model.base().labels() == distinct(labels@),
            Self::fresh(model.base(), input_size as nat, addr_size as nat),
    {
        Self::with_seed(input_size, addr_size, labels, random_seed())
    }

    /// Whether every discriminator of `base` is for inputs of these sizes
    /// and has seen nothing yet.
    pub open spec fn fresh(
        base: WisardBase<L, PackedLUTFilter>,
        input_size: nat,
        addr_size: nat,
    ) -> bool {
        forall|k: int|
            0 <= k < base.discs().len() ==> {
                &&& (#[trigger] base.discs()[k]).spec_input_size() == input_size
                &&& base.discs()[k].spec_addr_size() == addr_size
                &&& forall|i: int|
                    0 <= i < base.discs()[k].filters().len() ==> {
                        &&& (#[trigger] base.discs()[k].filters()[i]).addr_size() == addr_size
                        &&& base.discs()[k].filters()[i].count_size() == 1
                        &&& base.discs()[k].filters()[i].threshold() == 0
                        &&& base.discs()[k].filters()[i].counts() == crate::filter::no_counts(
                            vstd::arithmetic::power2::pow2(addr_size),
                        )
                    }
            }
    }

    /// Creates a model with a given permutation seed.
    ///
    /// The `input_size` value determines the total number of input bits.
    /// The `addr_size` value corresponds to the address size of the RAMs.
    /// The `labels` must contain all the expected sample labels.
    /// The `seed` value determines the permutation seed.
    pub fn with_seed(
        input_size: usize,
        addr_size: usize,
        labels: Vec<L>,
        seed: [u8; 32],
    ) -> (model: Self)
        requires
            obeys_concrete_eq::<L>(),
            addr_size > 0,
            input_size + addr_size <= usize::MAX,
            PackedLUTFilter::fits(addr_size as nat, 1),
        ensures
            model.spec_seed() == seed@,
            model.wf(),
            model.base().labels() == distinct(labels@),
            Self::fresh(model.base(), input_size as nat, addr_size as nat),
    {
        let builder = PackedLUTFilterBuilder::new(addr_size, 1, 0);
        let base = WisardBase::from_filter_builder(input_size, addr_size, labels, &builder);
        Self { base, seed }
    }

    /// Returns the internal random seed for the model.
    pub fn seed(&self) -> (seed: [u8; 32])
        ensures
            seed@ == self.spec_seed(),
    {
        self.seed
    }

    /// Fits (trains) the model with a given input sample.
    pub fn fit(&mut self, sample: &Sample<L>)
        requires
            obeys_concrete_eq::<L>(),
            old(self).wf(),
            sample.wf(),
            old(self).base().labels().contains(sample@.label),
            old(self).takes_for(sample@.label, sample@.bits),
        ensures
            final(self).spec_seed() == old(self).spec_seed(),
            final(self).wf(),
            final(self).base().fitted(
                &old(self).base(),
                sample@.label,
                permuted(sample@.bits, old(self).spec_seed()),
            ),
    {
        let encoder = Permute::with_seed(self.seed);
        proof {
            lemma_permute_is_permutation(sample@.bits, self.spec_seed());
        }
        let sample = encoder.encode(sample.clone());
        self.base.fit(&sample);
        proof {
            assert forall|k: int, i: int|
                0 <= k < self.base().discs().len() && 0 <= i < self.base().discs()[k].filters().len()
                implies {
                &&& (#[trigger] self.base().discs()[k].filters()[i]).addr_size()
                    == self.base().discs()[k].spec_addr_size()
                &&& self.base().discs()[k].filters()[i].count_size() == 1
                &&& self.base().discs()[k].filters()[i].threshold() == 0
            } by {
                let was = old(self).base().discs()[k];
                let now = self.base().discs()[k];
                assert(was.filters()[i].count_size() == 1);
                if self.base().labels()[k] == sample@.label {
                    assert(now.fitted(&was, sample@.bits));
                    if i < chunk_count(sample@.bits.len(), now.spec_addr_size()) {
                        assert(now.filters()[i].follows(
                            &was.filters()[i],
                            address_at(sample@.bits, now.spec_addr_size(), i),
                        ));
                    }
                } else {
                    assert(now == was);
                }
            }
        }
    }

    /// Returns the model scores for a given input sample.
    pub fn scores(&self, sample: &Sample<L>) -> (scores: Vec<(usize, L)>)
        requires
            self.wf(),
            sample.wf(),
            self.takes(sample@.bits),
        ensures
            scores.len() == self.base().labels().len(),
            forall|k: int|
                0 <= k < scores.len() ==> (#[trigger] scores[k]).0 == self.base().scores_of(
                    permuted(sample@.bits, self.spec_seed()),
                )[k] && scores[k].1 == self.base().labels()[k],
    {
        let encoder = Permute::with_seed(self.seed);
        proof {
            lemma_permute_is_permutation(sample@.bits, self.spec_seed());
        }
        let sample = encoder.encode(sample.clone());
        self.base.scores(&sample)
    }

    /// Returns the model prediction for a given input sample.
    pub fn predict(&self, sample: &Sample<L>) -> (label: L)
        requires
            self.wf(),
            sample.wf(),
            self.takes(sample@.bits),
            self.base().labels().len() > 0,
        ensures
            self.base().predicts(permuted(sample@.bits, self.spec_seed()), label),
    {
        let encoder = Permute::with_seed(self.seed);
        proof {
            lemma_permute_is_permutation(sample@.bits, self.spec_seed());
        }
        let sample = encoder.encode(sample.clone());
        self.base.predict(&sample)
    }
}

/// A discriminator of single-bit filters that is trained on a sample finds
/// every chunk of that sample in its filter.
pub proof fn lemma_trained_hits(
    before: Discriminator<PackedLUTFilter>,
    after: Discriminator<PackedLUTFilter>,
    bits: Seq<bool>,
    chunks: nat,
)
    requires
        before.wf(),
        before.takes(bits),
        after.fitted(&before, bits),
        chunks <= chunk_count(bits.len(), before.spec_addr_size()),
        forall|i: int|
            0 <= i < before.filters().len() ==> {
                &&& (#[trigger] before.filters()[i]).addr_size() == before.spec_addr_size()
                &&& before.filters()[i].count_size() == 1
                &&& before.filters()[i].threshold() == 0
            },
    ensures
        hits(after.filters(), bits, after.spec_addr_size(), chunks) == chunks,
    decreases chunks,
{
    if chunks > 0 {
        let i = chunks - 1;
        let size = before.spec_addr_size();
        lemma_trained_hits(before, after, bits, i as nat);
        let was = before.filters()[i];
        let now = after.filters()[i];
        assert(was.wf());
        assert(was.addr_size() == size);
        lemma_address_in_range(bits, size, i as nat);
        let address = address_at(bits, size, i);
        assert(now.follows(&was, address));
        lemma_packed_first_occurrence(was, now, address);
    }
}

impl<L: Copy + PartialEq> BinaryWisard<L> {
    /// Whether `after` is what `before` becomes by training on a sample of
    /// these bits with this label.
    pub open spec fn trained_on(before: Self, after: Self, label: L, bits: Seq<bool>) -> bool {
        &&& before.wf()
        &&& before.takes_for(label, bits)
        &&& after.spec_seed() == before.spec_seed()
        &&& after.base().fitted(&before.base(), label, permuted(bits, before.spec_seed()))
    }

    /// Training on one sample lowers no label's score for any other, and
    /// leaves the model able to take what it could take before.
    pub proof fn lemma_memory_kept(
        &self,
        before: &Self,
        label: L,
        bits: Seq<bool>,
        later_label: L,
        later_bits: Seq<bool>,
    )
        requires
            Self::trained_on(*before, *self, later_label, later_bits),
            before.takes_for(label, bits),
        ensures
            self.takes_for(label, bits),
            self.base().labels() == before.base().labels(),
            forall|k: int|
                0 <= k < self.base().labels().len() && self.base().labels()[k] == label ==> {
                    &&& #[trigger] self.base().scores_of(permuted(bits, self.spec_seed()))[k]
                        >= before.base().scores_of(permuted(bits, self.spec_seed()))[k]
                    &&& self.base().discs()[k].spec_addr_size()
                        == before.base().discs()[k].spec_addr_size()
                },
    {
        let mixed = permuted(bits, self.spec_seed());
        let later = permuted(later_bits, before.spec_seed());
        lemma_permute_is_permutation(bits, self.spec_seed());
        assert(mixed.len() == bits.len());
        assert forall|k: int|
            0 <= k < self.base().labels().len() && self.base().labels()[k] == label implies {
            &&& #[trigger] self.base().scores_of(mixed)[k] >= before.base().scores_of(mixed)[k]
            &&& self.base().discs()[k].spec_addr_size()
                == before.base().discs()[k].spec_addr_size()
            &&& self.base().discs()[k].takes(bits)
        } by {
            let was = before.base().discs()[k];
            let now = self.base().discs()[k];
            assert(was.wf());
            assert(was.takes(bits));
            if self.base().labels()[k] == later_label {
                assert(now.fitted(&was, later));
                now.lemma_fit_keeps_score(&was, later, mixed);
            } else {
                assert(now == was);
            }
        }
    }

    /// What the model has once been trained on it goes on scoring in full
    /// for its label, whatever it is trained on afterwards: after any run
    /// of training, every sample of the run scores, for its own label, as
    /// many hits as it has chunks, and no label scores more.
    pub proof fn lemma_memorizes_for_good(
        states: Seq<Self>,
        labels: Seq<L>,
        samples: Seq<Seq<bool>>,
        i: int,
    )
        requires
            states.len() == samples.len() + 1,
            labels.len() == samples.len(),
            0 <= i < samples.len(),
            forall|t: int|
                0 <= t < samples.len() ==> #[trigger] Self::trained_on(
                    states[t],
                    states[t + 1],
                    labels[t],
                    samples[t],
                ),
        ensures
            states.last().takes_for(labels[i], samples[i]),
            forall|k: int|
                0 <= k < states.last().base().labels().len() && states.last().base().labels()[k]
                    == labels[i] ==> #[trigger] states.last().base().scores_of(
                    permuted(samples[i], states.last().spec_seed()),
                )[k] == chunk_count(
                    samples[i].len(),
                    states.last().base().discs()[k].spec_addr_size(),
                ),
            forall|j: int|
                0 <= j < states.last().base().labels().len() ==> #[trigger] states.last().base().scores_of(
                    permuted(samples[i], states.last().spec_seed()),
                )[j] <= chunk_count(
                    samples[i].len(),
                    states.last().base().discs()[j].spec_addr_size(),
                ),
        decreases states.len(),
    {
        let n = samples.len() as int;
        let last = states[n];
        let prev = states[n - 1];
        assert(states.last() == last);
        assert(Self::trained_on(states[n - 1], states[n - 1 + 1], labels[n - 1], samples[n - 1]));
        if i == n - 1 {
            last.lemma_memorizes(&prev, labels[i], samples[i]);
            last.lemma_memory_kept(&prev, labels[i], samples[i], labels[i], samples[i]);
        } else {
            let front = states.drop_last();
            assert forall|t: int| 0 <= t < samples.drop_last().len() implies #[trigger] Self::trained_on(
                front[t],
                front[t + 1],
                labels.drop_last()[t],
                samples.drop_last()[t],
            ) by {
                assert(Self::trained_on(states[t], states[t + 1], labels[t], samples[t]));
            }
            Self::lemma_memorizes_for_good(front, labels.drop_last(), samples.drop_last(), i);
            assert(front.last() == prev);
            last.lemma_memory_kept(&prev, labels[i], samples[i], labels[n - 1], samples[n - 1]);
            let mixed = permuted(samples[i], last.spec_seed());
            lemma_permute_is_permutation(samples[i], last.spec_seed());
            assert forall|j: int| 0 <= j < last.base().labels().len() implies #[trigger] last.base().scores_of(
                mixed,
            )[j] <= chunk_count(samples[i].len(), last.base().discs()[j].spec_addr_size()) by {
                let now = last.base().discs()[j];
                lemma_hits_bounded(
                    now.filters(),
                    mixed,
                    now.spec_addr_size(),
                    chunk_count(mixed.len(), now.spec_addr_size()),
                );
            }
        }
    }

    /// A sample that the model has been trained on scores, for its own
    /// label, as many hits as it has chunks, and no label scores more: the
    /// model predicts the sample's label, or one given before it that
    /// scores as much.
    pub proof fn lemma_memorizes(&self, before: &Self, label: L, bits: Seq<bool>)
        requires
            before.wf(),
            before.takes_for(label, bits),
            self.spec_seed() == before.spec_seed(),
            self.base().fitted(&before.base(), label, permuted(bits, before.spec_seed())),
        ensures
            forall|k: int|
                0 <= k < self.base().labels().len() && self.base().labels()[k] == label
                    ==> #[trigger] self.base().scores_of(permuted(bits, self.spec_seed()))[k]
                    == chunk_count(bits.len(), self.base().discs()[k].spec_addr_size()),
            forall|j: int|
                0 <= j < self.base().labels().len() ==> #[trigger] self.base().scores_of(
                    permuted(bits, self.spec_seed()),
                )[j] <= chunk_count(bits.len(), self.base().discs()[j].spec_addr_size()),
    {
        let mixed = permuted(bits, self.spec_seed());
        lemma_permute_is_permutation(bits, self.spec_seed());
        assert(mixed.len() == bits.len());
        assert forall|k: int|
            0 <= k < self.base().labels().len() && self.base().labels()[k] == label implies
            #[trigger] self.base().scores_of(mixed)[k] == chunk_count(
            bits.len(),
            self.base().discs()[k].spec_addr_size(),
        ) by {
            let was = before.base().discs()[k];
            let now = self.base().discs()[k];
            assert(was.wf());
            assert(was.takes(bits));
            assert(now.fitted(&was, mixed));
            assert forall|i: int| 0 <= i < was.filters().len() implies {
                &&& (#[trigger] was.filters()[i]).addr_size() == was.spec_addr_size()
                &&& was.filters()[i].count_size() == 1
                &&& was.filters()[i].threshold() == 0
            } by {
                assert(before.base().discs()[k].filters()[i].count_size() == 1);
            }
            lemma_trained_hits(was, now, mixed, chunk_count(mixed.len(), was.spec_addr_size()));
        }
        assert forall|j: int| 0 <= j < self.base().labels().len() implies #[trigger] self.base().scores_of(
            mixed,
        )[j] <= chunk_count(bits.len(), self.base().discs()[j].spec_addr_size()) by {
            let now = self.base().discs()[j];
            lemma_hits_bounded(
                now.filters(),
                mixed,
                now.spec_addr_size(),
                chunk_count(mixed.len(), now.spec_addr_size()),
            );
        }
    }
}

} // verus!
