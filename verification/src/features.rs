//! The descriptor set of one device-initialisation attempt, and the steps of
//! the negotiation that work on it: building it from a probe, linking its
//! descriptors into a chain, taking in what the feature query answered,
//! clearing the links, and attaching a fresh chain for device creation.

use vstd::prelude::*;
use crate::adapter::adapter_advertises;
use crate::chain::{
    lemma_answered_keeps, lemma_chain_distinct, lemma_filled, lemma_fresh, lemma_linked_keeps,
    lemma_relinked, lemma_sanitized_keeps, lemma_walk_is_run,
};
use crate::descriptor::{zeroed, DescriptorView, FeatureDescriptor, FeaturesView};
use crate::probe::{
    advertised_by, contains_extension, names, resolve, resolved, ProbeResult,
};
use crate::registry::{
    mandatory, mandatory_categories, optional_registry, registry, Category, OptionalExtension,
};

verus! {

/// Why a step of the negotiation was refused.
#[derive(Clone, Copy, Debug, PartialEq, Eq, Structural)]
pub enum FeatureError {
    /// A chain was to be built while a descriptor still had a link from an
    /// earlier chain.
    InvalidChainState,
    /// The feature query did not answer for the chain it was given.
    NativeQueryFailure,
}

/// The first descriptor of a chain.
#[derive(Clone, Copy, Debug, PartialEq, Eq, Structural)]
pub struct ChainHead {
    pub index: usize,
}

/// What device creation is configured with, as far as the negotiation adds
/// to it: the chain of feature descriptors to request.
#[derive(Clone, Copy, Debug, PartialEq, Eq)]
pub struct DeviceCreateInfo {
    pub next: Option<ChainHead>,
}

/// The answers of a feature query as mathematical values.
pub open spec fn answers(reported: Seq<Vec<bool>>) -> Seq<Seq<bool>> {
    reported.map_values(|flags: Vec<bool>| flags@)
}

/// The descriptor set of one device-initialisation attempt, with the list of
/// extensions to enable.
#[derive(Debug)]
pub struct ExtendedFeatures {
    descriptors: Vec<FeatureDescriptor>,
    extensions: Vec<String>,
}

impl View for ExtendedFeatures {
    type V = FeaturesView;

    closed spec fn view(&self) -> FeaturesView {
        FeaturesView {
            descriptors: self.descriptors@.map_values(|descriptor: FeatureDescriptor| descriptor@),
            extensions: names(self.extensions@),
        }
    }
}

/// A copy of the flags.
fn copy_flags(flags: &Vec<bool>) -> (copy: Vec<bool>)
    ensures
        copy@ == flags@,
{
    let mut copy: Vec<bool> = Vec::new();
    let mut i: usize = 0;
    while i < flags.len()
        invariant
            i <= flags.len(),
            copy@ == flags@.take(i as int),
        decreases flags.len() - i,
    {
        copy.push(flags[i]);
        assert(flags@.take(i + 1) =~= flags@.take(i as int).push(flags@[i as int]));
        i += 1;
    }
    assert(flags@.take(i as int) =~= flags@);
    copy
}

/// A descriptor of the category with all its flags cleared and no link.
fn blank(category: Category) -> (descriptor: FeatureDescriptor)
    ensures
        descriptor@ == zeroed(category),
{
    let count = category.flag_count();
    let mut flags: Vec<bool> = Vec::new();
    let mut i: usize = 0;
    while i < count
        invariant
            i <= count,
            flags@ == Seq::new(i as nat, |flag: int| false),
        decreases count - i,
    {
        flags.push(false);
        assert(flags@ =~= Seq::new((i + 1) as nat, |flag: int| false));
        i += 1;
    }
    FeatureDescriptor { category, flags, link: None }
}

impl Default for ExtendedFeatures {
    /// The set of an adapter that implies no extension and advertises none:
    /// the mandatory descriptors, zeroed and without links, and an empty
    /// extension list.
    fn default() -> (set: ExtendedFeatures)
        ensures
            set@ == FeaturesView::fresh(Seq::empty(), Set::empty()),
            set.wf(),
            set@.detached(),
    {
        let probe = ProbeResult { extensions: Vec::new(), supported: Vec::new() };
        assert(probe@.extensions =~= Seq::empty());
        assert(probe@.supported.to_set() =~= Set::empty());
        ExtendedFeatures::build(probe)
    }
}

impl ExtendedFeatures {
    /// Whether the set is well-formed: it holds the mandatory descriptors and
    /// the optional ones in selection order, each of the shape of its
    /// category, and each link is empty or leads to the next descriptor.
    pub open spec fn wf(&self) -> bool {
        self@.wf()
    }

    /// Builds the descriptor set for what a probe found: a zeroed descriptor
    /// for each mandatory category and for each supported optional extension,
    /// none of them linked, and the probe's extension list.
    pub fn build(probe: ProbeResult) -> (set: ExtendedFeatures)
        ensures
            set@ == FeaturesView::fresh(probe@.extensions, probe@.supported.to_set()),
            set.wf(),
            set@.detached(),
            forall|extension: OptionalExtension|
                set@.has_optional(extension) <==> probe@.supported.contains(extension),
    {
        let ghost supported = probe@.supported.to_set();
        let ghost keep = |extension: OptionalExtension| supported.contains(extension);
        let ghost wrap = |extension: OptionalExtension| Category::Optional(extension);
        let ghost clear = |category: Category| zeroed(category);
        let ghost model = |descriptor: FeatureDescriptor| descriptor@;
        let fixed = mandatory();
        let mut descriptors: Vec<FeatureDescriptor> = Vec::new();
        let mut i: usize = 0;
        while i < fixed.len()
            invariant
                i <= fixed.len(),
                fixed@ == mandatory_categories(),
                clear == |category: Category| zeroed(category),
                model == |descriptor: FeatureDescriptor| descriptor@,
                descriptors@.map_values(model) == fixed@.take(i as int).map_values(clear),
            decreases fixed.len() - i,
        {
            let descriptor = blank(fixed[i]);
            proof {
                assert(fixed@.take(i + 1) =~= fixed@.take(i as int).push(fixed@[i as int]));
                assert(descriptors@.push(descriptor).map_values(model) =~= descriptors@.map_values(
                    model,
                ).push(descriptor@));
                assert(fixed@.take(i as int).push(fixed@[i as int]).map_values(clear)
                    =~= fixed@.take(i as int).map_values(clear).push(zeroed(fixed@[i as int])));
            }
            descriptors.push(descriptor);
            i += 1;
        }
        let table = registry();
        let mut j: usize = 0;
        proof {
            reveal(Seq::filter);
            assert(fixed@.take(i as int) =~= fixed@);
            assert(table@.take(0).filter(keep).map_values(wrap) =~= Seq::empty());
            assert(fixed@ + table@.take(0).filter(keep).map_values(wrap) =~= fixed@);
        }
        while j < table.len()
            invariant
                j <= table.len(),
                table@ == optional_registry(),
                fixed@ == mandatory_categories(),
                supported == probe@.supported.to_set(),
                keep == |extension: OptionalExtension| supported.contains(extension),
                wrap == |extension: OptionalExtension| Category::Optional(extension),
                clear == |category: Category| zeroed(category),
                model == |descriptor: FeatureDescriptor| descriptor@,
                descriptors@.map_values(model) == (fixed@ + table@.take(j as int).filter(
                    keep,
                ).map_values(wrap)).map_values(clear),
            decreases table.len() - j,
        {
            let extension = table[j];
            proof {
                assert(table@.take(j + 1) =~= table@.take(j as int).push(extension));
                table@.take(j as int).lemma_filter_push(extension, keep);
            }
            if contains_extension(&probe.supported, extension) {
                let descriptor = blank(Category::Optional(extension));
                proof {
                    let kept = table@.take(j as int).filter(keep);
                    assert(descriptors@.push(descriptor).map_values(model)
                        =~= descriptors@.map_values(model).push(descriptor@));
                    assert((fixed@ + kept.push(extension).map_values(wrap)).map_values(clear) =~= (
                    fixed@ + kept.map_values(wrap)).map_values(clear).push(
                        zeroed(Category::Optional(extension)),
                    ));
                }
                descriptors.push(descriptor);
            }
            j += 1;
        }
        proof {
            assert(table@.take(j as int) =~= table@);
        }
        let ghost found = probe@;
        let set = ExtendedFeatures { descriptors, extensions: probe.extensions };
        proof {
            lemma_fresh(found.extensions, supported);
            assert forall|extension: OptionalExtension|
                set@.has_optional(extension) <==> found.supported.contains(extension) by {
                assert(supported.contains(extension) == found.supported.contains(extension));
            }
        }
        set
    }

    /// Probes the adapter for the requested features and builds the
    /// descriptor set for what it found. The set is not linked and its flags
    /// are cleared: the feature query comes next.
    pub fn from_adapter(adapter: &wgpu::hal::vulkan::Adapter, features: wgpu::Features) -> (set:
        ExtendedFeatures)
        ensures
            set@ == FeaturesView::fresh(
                resolved(*adapter, features).extensions,
                advertised_by(*adapter),
            ),
            set.wf(),
            set@.detached(),
            set@.extensions.no_duplicates(),
            forall|extension: OptionalExtension|
                set@.has_optional(extension) <==> adapter_advertises(
                    *adapter,
                    extension.name_spec(),
                ),
            forall|i: int|
                0 <= i < set@.extensions.len() ==> adapter_advertises(
                    *adapter,
                    #[trigger] set@.extensions[i],
                ),
    {
        let probe = resolve(adapter, features);
        proof {
            assert(probe@.supported.to_set() =~= advertised_by(*adapter));
        }
        ExtendedFeatures::build(probe)
    }

    /// Whether no descriptor of the set is part of a chain.
    pub fn is_detached(&self) -> (detached: bool)
        ensures
            detached == self@.detached(),
    {
        let mut i: usize = 0;
        while i < self.descriptors.len()
            invariant
                i <= self.descriptors.len(),
                forall|k: int| 0 <= k < i ==> (#[trigger] self@.descriptors[k]).link is None,
            decreases self.descriptors.len() - i,
        {
            if self.descriptors[i].link.is_some() {
                assert(self@.descriptors[i as int].link is Some);
                return false;
            }
            assert(self@.descriptors[i as int].link is None);
            i += 1;
        }
        true
    }

    /// Builds a chain over the set: links each descriptor to the next one in
    /// selection order and the last one to nothing, and returns the first.
    ///
    /// A chain can only be built while no descriptor has a link. Otherwise the
    /// set is left as it is and the call fails with `InvalidChainState`.
    pub fn link(&mut self) -> (outcome: Result<ChainHead, FeatureError>)
        requires
            old(self).wf(),
        ensures
            final(self).wf(),
            old(self)@.detached() ==> outcome == Ok::<ChainHead, FeatureError>(
                ChainHead { index: 0 },
            ) && final(self)@ == old(self)@.linked(),
            !old(self)@.detached() ==> outcome == Err::<ChainHead, FeatureError>(
                FeatureError::InvalidChainState,
            ) && final(self)@ == old(self)@,
    {
        if !self.is_detached() {
            return Err(FeatureError::InvalidChainState);
        }
        let count = self.descriptors.len();
        let mut i: usize = 0;
        while i < count
            invariant
                i <= count,
                count == self.descriptors.len(),
                count == old(self).descriptors.len(),
                self.extensions == old(self).extensions,
                forall|k: int|
                    0 <= k < count ==> (#[trigger] self.descriptors[k])@ == (if k < i {
                        old(self)@.linked().descriptors[k]
                    } else {
                        old(self).descriptors[k]@
                    }),
            decreases count - i,
        {
            let next = if i + 1 < count {
                Some(i + 1)
            } else {
                None
            };
            self.descriptors[i].link = next;
            i += 1;
        }
        proof {
            assert(self@.descriptors =~= old(self)@.linked().descriptors);
            lemma_linked_keeps(old(self)@);
        }
        Ok(ChainHead { index: 0 })
    }

    /// Clears the link of every descriptor of the set, so that the
    /// descriptors can be linked into another chain.
    pub fn zero_pointers(&mut self)
        requires
            old(self).wf(),
        ensures
            final(self)@ == old(self)@.sanitized(),
            final(self)@.detached(),
            final(self).wf(),
    {
        let count = self.descriptors.len();
        let mut i: usize = 0;
        while i < count
            invariant
                i <= count,
                count == self.descriptors.len(),
                count == old(self).descriptors.len(),
                self.extensions == old(self).extensions,
                forall|k: int|
                    0 <= k < count ==> (#[trigger] self.descriptors[k])@ == (if k < i {
                        old(self)@.sanitized().descriptors[k]
                    } else {
                        old(self).descriptors[k]@
                    }),
            decreases count - i,
        {
            self.descriptors[i].link = None;
            i += 1;
        }
        proof {
            assert(self@.descriptors =~= old(self)@.sanitized().descriptors);
            lemma_sanitized_keeps(old(self)@);
        }
    }

    /// The chain that starts at `head`: the indices of the descriptors that
    /// the links lead through, in order. A head outside the set has no chain.
    pub fn chain(&self, head: ChainHead) -> (order: Vec<usize>)
        requires
            self.wf(),
        ensures
            order@.map_values(|i: usize| i as int) == self@.chain(head.index as int),
    {
        let ghost to_int = |i: usize| i as int;
        let count = self.descriptors.len();
        let mut order: Vec<usize> = Vec::new();
        if head.index >= count {
            assert(order@.map_values(to_int) =~= self@.chain(head.index as int));
            return order;
        }
        let mut at: usize = head.index;
        let mut more: bool = true;
        assert(order@.map_values(to_int) + self@.walk(Some(head.index as int), count as nat)
            =~= self@.chain(head.index as int));
        while more
            invariant
                self.wf(),
                count == self.descriptors.len(),
                to_int == |i: usize| i as int,
                head.index + order.len() <= count,
                more ==> at == head.index + order.len() && at < count,
                self@.chain(head.index as int) == order@.map_values(to_int) + self@.walk(
                    if more {
                        Some(at as int)
                    } else {
                        None
                    },
                    (count - order.len()) as nat,
                ),
            decreases count - order.len() + if more { 1int } else { 0int },
        {
            let ghost before = order@;
            let ghost link = self@.descriptors[at as int].link;
            proof {
                assert(link is None || (link == Some(at + 1) && at + 1 < count));
                assert(self@.walk(Some(at as int), (count - before.len()) as nat) == seq![at as int]
                    + self@.walk(link, (count - before.len() - 1) as nat));
                assert(before.push(at).map_values(to_int) =~= before.map_values(to_int)
                    + seq![at as int]);
                assert(before.map_values(to_int) + (seq![at as int] + self@.walk(
                    link,
                    (count - before.len() - 1) as nat,
                )) =~= before.push(at).map_values(to_int) + self@.walk(
                    link,
                    (count - before.len() - 1) as nat,
                ));
            }
            order.push(at);
            match self.descriptors[at].link {
                Some(next) => {
                    at = next;
                },
                None => {
                    more = false;
                },
            }
        }
        assert(self@.walk(None, (count - order.len()) as nat) =~= Seq::empty());
        assert(order@.map_values(to_int) + Seq::<int>::empty() =~= order@.map_values(to_int));
        order
    }

    /// Takes in what the feature query answered for the chain that starts at
    /// `head`: `reported` holds the flags of each descriptor of the chain, in
    /// chain order. The flags of each descriptor of the chain are overwritten
    /// with the answer; the links stay, and so does every descriptor outside
    /// the chain.
    ///
    /// Where `reported` does not hold one answer of the right shape for each
    /// descriptor of the chain, or `head` is no descriptor of the set, the
    /// set is left as it is and the call fails with `NativeQueryFailure`.
    pub fn query_features(&mut self, head: ChainHead, reported: &Vec<Vec<bool>>) -> (outcome:
        Result<(), FeatureError>)
        requires
            old(self).wf(),
        ensures
            final(self).wf(),
            old(self)@.fits(head.index as int, answers(reported@)) ==> outcome == Ok::<
                (),
                FeatureError,
            >(()) && final(self)@ == old(self)@.answered(head.index as int, answers(reported@)),
            !old(self)@.fits(head.index as int, answers(reported@)) ==> outcome == Err::<
                (),
                FeatureError,
            >(FeatureError::NativeQueryFailure) && final(self)@ == old(self)@,
    {
        let ghost start = head.index as int;
        let ghost given = answers(reported@);
        let ghost before = self@;
        let order = self.chain(head);
        let ghost chain = before.chain(start);
        if head.index >= self.descriptors.len() || order.len() != reported.len() {
            assert(order@.map_values(|i: usize| i as int).len() == order.len());
            return Err(FeatureError::NativeQueryFailure);
        }
        proof {
            lemma_chain_distinct(before, start);
            assert(order@.map_values(|i: usize| i as int).len() == order.len());
            assert forall|k: int| 0 <= k < order.len() implies order@[k] as int
                == #[trigger] chain[k] by {
                assert(order@.map_values(|i: usize| i as int)[k] == order@[k] as int);
            }
        }
        let mut k: usize = 0;
        while k < order.len()
            invariant
                k <= order.len(),
                order.len() == reported.len(),
                self@ == before,
                before == old(self)@,
                before.wf(),
                given == answers(reported@),
                start == head.index as int,
                0 <= start < before.descriptors.len(),
                chain == before.chain(start),
                forall|n: int| 0 <= n < order.len() ==> order@[n] as int == #[trigger] chain[n],
                forall|n: int|
                    0 <= n < chain.len() ==> 0 <= #[trigger] chain[n] < before.descriptors.len(),
                chain.len() == order.len(),
                forall|n: int|
                    0 <= n < k ==> (#[trigger] given[n]).len()
                        == before.descriptors[chain[n]].category.flag_count_spec(),
            decreases order.len() - k,
        {
            assert(chain[k as int] == order@[k as int] as int);
            let i = order[k];
            let ghost shape = before.descriptors[chain[k as int]].category.flag_count_spec();
            if reported[k].len() != self.descriptors[i].category.flag_count() {
                assert(given[k as int].len() != shape);
                return Err(FeatureError::NativeQueryFailure);
            }
            assert(given[k as int].len() == shape);
            k += 1;
        }
        proof {
            assert(before.fits(start, given));
            lemma_walk_is_run(before, start, before.descriptors.len());
            lemma_chain_distinct(before, start);
        }
        let mut k: usize = 0;
        while k < order.len()
            invariant
                k <= order.len(),
                order.len() == reported.len(),
                before == old(self)@,
                before.wf(),
                before.fits(start, given),
                given == answers(reported@),
                start == head.index as int,
                chain == before.chain(start),
                chain.len() == order.len(),
                forall|n: int| 0 <= n < order.len() ==> order@[n] as int == #[trigger] chain[n],
                forall|n: int| 0 <= n < chain.len() ==> #[trigger] chain[n] == start + n,
                forall|i: int| chain.contains(i) <==> start <= i < start + chain.len(),
                forall|i: int|
                    start <= i < start + chain.len() ==> chain.index_of(i) == i - start,
                0 <= start,
                start + chain.len() <= before.descriptors.len(),
                self.descriptors.len() == before.descriptors.len(),
                self.extensions == old(self).extensions,
                forall|i: int|
                    0 <= i < before.descriptors.len() ==> (#[trigger] self.descriptors[i])@ == (
                    if start <= i < start + k {
                        before.answered(start, given).descriptors[i]
                    } else {
                        before.descriptors[i]
                    }),
            decreases order.len() - k,
        {
            assert(chain[k as int] == order@[k as int] as int);
            let i = order[k];
            let flags = copy_flags(&reported[k]);
            proof {
                assert(chain.contains(i as int));
                assert(chain.index_of(i as int) == k);
                assert(given[k as int] == reported@[k as int]@);
            }
            self.descriptors[i].flags = flags;
            k += 1;
        }
        proof {
            assert forall|i: int| 0 <= i < before.descriptors.len() implies (
            #[trigger] self@.descriptors[i]) == before.answered(start, given).descriptors[i] by {
                assert(self@.descriptors[i] == self.descriptors[i]@);
                if !(start <= i < start + chain.len()) {
                    assert(!chain.contains(i));
                }
            }
            assert(self@.descriptors =~= before.answered(start, given).descriptors);
            lemma_answered_keeps(before, start, given);
        }
        Ok(())
    }

    /// The feature query on a set without links, given what the adapter
    /// answers for the descriptors of the set, in selection order: builds the
    /// query chain over the whole set, takes in the answers along it, and
    /// clears the links again.
    ///
    /// Fails with `InvalidChainState` where a descriptor still has a link,
    /// and with `NativeQueryFailure` where `reported` does not hold one answer
    /// of the right shape for each descriptor. A failed call leaves the set
    /// as it was.
    pub fn fill_features(&mut self, reported: &Vec<Vec<bool>>) -> (outcome: Result<
        (),
        FeatureError,
    >)
        requires
            old(self).wf(),
        ensures
            final(self).wf(),
            outcome == (if !old(self)@.detached() {
                Err::<(), FeatureError>(FeatureError::InvalidChainState)
            } else if !old(self)@.linked().fits(0, answers(reported@)) {
                Err::<(), FeatureError>(FeatureError::NativeQueryFailure)
            } else {
                Ok::<(), FeatureError>(())
            }),
            outcome is Ok ==> final(self)@ == old(self)@.linked().answered(
                0,
                answers(reported@),
            ).sanitized() && final(self)@.detached(),
            outcome is Ok ==> final(self)@.descriptors == Seq::new(
                old(self)@.descriptors.len(),
                |i: int|
                    DescriptorView {
                        category: old(self)@.descriptors[i].category,
                        flags: reported@[i]@,
                        link: None,
                    },
            ),
            outcome is Err ==> final(self)@ == old(self)@,
    {
        let head = match self.link() {
            Ok(head) => head,
            Err(error) => {
                return Err(error);
            },
        };
        let answered = self.query_features(head, reported);
        self.zero_pointers();
        proof {
            lemma_relinked(old(self)@);
            lemma_filled(old(self)@, answers(reported@));
            if answered is Ok {
                assert(self@.descriptors =~= Seq::new(
                    old(self)@.descriptors.len(),
                    |i: int|
                        DescriptorView {
                            category: old(self)@.descriptors[i].category,
                            flags: reported@[i]@,
                            link: None,
                        },
                ));
            }
        }
        answered
    }

    /// Builds a fresh chain over the set and attaches it to the device
    /// creation info: the info that is returned starts the chain at the
    /// first descriptor of the set. The flags of the descriptors stay as the
    /// feature query left them.
    ///
    /// Fails with `InvalidChainState`, and leaves the set as it is, where a
    /// descriptor still has a link.
    pub fn add_to_device_create(&mut self, info: DeviceCreateInfo) -> (outcome: Result<
        DeviceCreateInfo,
        FeatureError,
    >)
        requires
            old(self).wf(),
        ensures
            final(self).wf(),
            old(self)@.detached() ==> outcome == Ok::<DeviceCreateInfo, FeatureError>(
                DeviceCreateInfo { next: Some(ChainHead { index: 0 }) },
            ) && final(self)@ == old(self)@.linked(),
            !old(self)@.detached() ==> outcome == Err::<DeviceCreateInfo, FeatureError>(
                FeatureError::InvalidChainState,
            ) && final(self)@ == old(self)@,
    {
        match self.link() {
            Ok(head) => {
                let mut info = info;
                info.next = Some(head);
                Ok(info)
            },
            Err(error) => Err(error),
        }
    }

    /// The names of the extensions to enable at device creation.
    pub fn extensions(&self) -> (list: &Vec<String>)
        ensures
            names(list@) == self@.extensions,
    {
        &self.extensions
    }

    /// The descriptors of the set, in selection order.
    pub fn descriptors(&self) -> (all: &Vec<FeatureDescriptor>)
        ensures
            all@.map_values(|descriptor: FeatureDescriptor| descriptor@) == self@.descriptors,
    {
        &self.descriptors
    }

    /// The descriptor of the category, if the set holds one: the first of
    /// that category in selection order.
    pub fn descriptor(&self, category: Category) -> (found: Option<&FeatureDescriptor>)
        ensures
            found is Some <==> self@.categories().contains(category),
            found matches Some(descriptor) ==> exists|i: int|
                0 <= i < self@.descriptors.len() && #[trigger] self@.descriptors[i] == descriptor@
                    && descriptor.category == category && forall|k: int|
                    0 <= k < i ==> #[trigger] self@.categories()[k] != category,
    {
        let mut i: usize = 0;
        while i < self.descriptors.len()
            invariant
                i <= self.descriptors.len(),
                forall|k: int| 0 <= k < i ==> #[trigger] self@.categories()[k] != category,
            decreases self.descriptors.len() - i,
        {
            if self.descriptors[i].category == category {
                assert(self@.categories()[i as int] == category);
                assert(self@.descriptors[i as int] == self.descriptors[i as int]@);
                return Some(&self.descriptors[i]);
            }
            assert(self@.categories()[i as int] != category);
            i += 1;
        }
        None
    }
}

} // verus!
