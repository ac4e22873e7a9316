//! What holds of chains: how linking, answering and sanitizing change a
//! descriptor set, and what the chains built over one set have in common.

use vstd::prelude::*;
use crate::descriptor::{selection_order, DescriptorView, FeaturesView};
use crate::registry::{
    lemma_supported_in_order, supported_in_order, Category, OptionalExtension,
};

verus! {

/// In a set whose links are in order, the chain from a descriptor is a run of
/// consecutive indices: each descriptor of the run but the last links to the
/// next, and the last has no link.
pub proof fn lemma_walk_is_run(set: FeaturesView, start: int, fuel: nat)
    requires
        set.links_in_order(),
        0 <= start < set.descriptors.len(),
        fuel >= set.descriptors.len() - start,
    ensures
        1 <= set.walk(Some(start), fuel).len() <= set.descriptors.len() - start,
        forall|k: int|
            0 <= k < set.walk(Some(start), fuel).len() ==> #[trigger] set.walk(Some(start), fuel)[k]
                == start + k,
        forall|k: int|
            0 <= k < set.walk(Some(start), fuel).len() - 1 ==> (#[trigger] set.descriptors[start
                + k]).link == Some(start + k + 1),
        set.descriptors[start + set.walk(Some(start), fuel).len() - 1].link is None,
    decreases fuel,
{
    let run = set.walk(Some(start), fuel);
    let link = set.descriptors[start].link;
    let rest = set.walk(link, (fuel - 1) as nat);
    assert(run == seq![start] + rest);
    if link is None {
        assert(rest.len() == 0);
    } else {
        assert(link == Some(start + 1));
        lemma_walk_is_run(set, start + 1, (fuel - 1) as nat);
        assert forall|k: int| 0 <= k < run.len() implies #[trigger] run[k] == start + k by {
            if k > 0 {
                assert(run[k] == rest[k - 1]);
            }
        }
        assert forall|k: int| 0 <= k < run.len() - 1 implies (#[trigger] set.descriptors[start
            + k]).link == Some(start + k + 1) by {
            if k > 0 {
                assert(set.descriptors[(start + 1) + (k - 1)].link == Some(
                    (start + 1) + (k - 1) + 1,
                ));
            }
        }
    }
}

/// A chain never visits a descriptor twice, and stays inside the arena.
pub proof fn lemma_chain_distinct(set: FeaturesView, head: int)
    requires
        set.links_in_order(),
        0 <= head < set.descriptors.len(),
    ensures
        set.chain(head).no_duplicates(),
        forall|k: int|
            0 <= k < set.chain(head).len() ==> 0 <= #[trigger] set.chain(head)[k]
                < set.descriptors.len(),
        forall|i: int|
            set.chain(head).contains(i) <==> head <= i < head + set.chain(head).len(),
        forall|i: int|
            head <= i < head + set.chain(head).len() ==> set.chain(head).index_of(i) == i - head,
{
    let chain = set.chain(head);
    lemma_walk_is_run(set, head, set.descriptors.len());
    assert forall|i: int| head <= i < head + chain.len() implies chain.contains(i)
        && chain.index_of(i) == i - head by {
        assert(chain[i - head] == i);
        let found = chain.index_of(i);
        assert(0 <= found < chain.len() && chain[found] == i);
    }
}

/// Linking keeps the categories, the flags and the extension list, and
/// leaves a well-formed set well-formed.
pub proof fn lemma_linked_keeps(set: FeaturesView)
    ensures
        set.linked().categories() == set.categories(),
        set.linked().extensions == set.extensions,
        set.linked().optional_present() == set.optional_present(),
        set.wf() ==> set.linked().wf(),
{
    assert(set.linked().categories() =~= set.categories());
    assert(set.linked().optional_present() =~= set.optional_present());
}

/// Sanitizing keeps the categories, the flags and the extension list, leaves
/// a well-formed set well-formed, and leaves every link empty.
pub proof fn lemma_sanitized_keeps(set: FeaturesView)
    ensures
        set.sanitized().categories() == set.categories(),
        set.sanitized().extensions == set.extensions,
        set.sanitized().optional_present() == set.optional_present(),
        set.sanitized().detached(),
        set.wf() ==> set.sanitized().wf(),
{
    assert(set.sanitized().categories() =~= set.categories());
    assert(set.sanitized().optional_present() =~= set.optional_present());
}

/// Answering keeps the categories, the links and the extension list. Where
/// the answers fit the chain, a well-formed set stays well-formed.
pub proof fn lemma_answered_keeps(set: FeaturesView, head: int, reported: Seq<Seq<bool>>)
    ensures
        set.answered(head, reported).categories() == set.categories(),
        set.answered(head, reported).extensions == set.extensions,
        set.answered(head, reported).optional_present() == set.optional_present(),
        set.answered(head, reported).detached() == set.detached(),
        set.wf() && set.fits(head, reported) ==> set.answered(head, reported).wf(),
{
    let after = set.answered(head, reported);
    assert(after.categories() =~= set.categories());
    assert(after.optional_present() =~= set.optional_present());
    assert(after.detached() == set.detached()) by {
        if set.detached() {
            assert forall|i: int| 0 <= i < after.descriptors.len() implies (
            #[trigger] after.descriptors[i]).link is None by {
                assert(set.descriptors[i].link is None);
            }
        }
        if after.detached() {
            assert forall|i: int| 0 <= i < set.descriptors.len() implies (
            #[trigger] set.descriptors[i]).link is None by {
                assert(after.descriptors[i].link is None);
            }
        }
    }
    if set.wf() && set.fits(head, reported) {
        lemma_chain_distinct(set, head);
        let chain = set.chain(head);
        assert forall|i: int| 0 <= i < after.descriptors.len() implies (
        #[trigger] after.descriptors[i]).flags.len()
            == after.descriptors[i].category.flag_count_spec() by {
            if chain.contains(i) {
                let k = chain.index_of(i);
                assert(chain[k] == i);
                assert(reported[k].len() == set.descriptors[chain[k]].category.flag_count_spec());
            } else {
                assert(set.descriptors[i].flags.len()
                    == set.descriptors[i].category.flag_count_spec());
            }
        }
        assert forall|i: int| 0 <= i < after.descriptors.len() implies {
            let link = (#[trigger] after.descriptors[i]).link;
            link is None || (link == Some(i + 1) && i + 1 < after.descriptors.len())
        } by {
            let link = set.descriptors[i].link;
            assert(link is None || (link == Some(i + 1) && i + 1 < set.descriptors.len()));
        }
    }
}

/// The chain over a linked set starts at the first descriptor and visits
/// every descriptor once, in selection order.
pub proof fn lemma_chain_of_linked(set: FeaturesView)
    requires
        set.descriptors.len() > 0,
    ensures
        set.linked().chain(0) == Seq::new(set.descriptors.len(), |i: int| i),
        set.linked().chain_categories(0) == set.categories(),
{
    let linked = set.linked();
    let chain = linked.chain(0);
    lemma_walk_is_run(linked, 0, linked.descriptors.len());
    if chain.len() < linked.descriptors.len() {
        assert(linked.descriptors[0 + chain.len() - 1].link is None);
    }
    assert(chain =~= Seq::new(set.descriptors.len(), |i: int| i));
    assert(linked.chain_categories(0) =~= set.categories());
}

/// A well-formed set holds the five mandatory descriptors, so it is never
/// empty.
pub proof fn lemma_wf_not_empty(set: FeaturesView)
    requires
        set.wf(),
    ensures
        set.descriptors.len() >= 5,
{
    assert(set.categories().len() == set.descriptors.len());
}

/// The chain that is built for the feature query and the chain that is built
/// afterwards for device creation visit the same descriptors, in the same
/// order, whatever the query answered: the descriptors of the selection order
/// of the set.
pub proof fn lemma_chain_membership_stable(set: FeaturesView, reported: Seq<Seq<bool>>)
    requires
        set.wf(),
    ensures
        set.linked().answered(0, reported).sanitized().linked().chain(0) == set.linked().chain(0),
        set.linked().answered(0, reported).sanitized().linked().chain(0).to_set()
            == set.linked().chain(0).to_set(),
        set.linked().answered(0, reported).sanitized().linked().chain_categories(0)
            == set.linked().chain_categories(0),
        set.linked().chain_categories(0) == selection_order(set.optional_present()),
{
    let query = set.linked();
    let answered = query.answered(0, reported);
    let detached = answered.sanitized();
    lemma_wf_not_empty(set);
    lemma_chain_of_linked(set);
    lemma_chain_of_linked(detached);
    lemma_answered_keeps(query, 0, reported);
    lemma_sanitized_keeps(answered);
    lemma_linked_keeps(set);
}

/// Between the two chains of a negotiation the links are cleared: after the
/// set was linked, answered and sanitized, no descriptor has a link, and the
/// set is well-formed, so that linking it again is in order.
pub proof fn lemma_detached_between_chains(set: FeaturesView, reported: Seq<Seq<bool>>)
    requires
        set.wf(),
        set.linked().fits(0, reported),
    ensures
        set.linked().answered(0, reported).sanitized().detached(),
        set.linked().answered(0, reported).sanitized().wf(),
{
    lemma_linked_keeps(set);
    lemma_answered_keeps(set.linked(), 0, reported);
    lemma_sanitized_keeps(set.linked().answered(0, reported));
}

/// A set as it is first built is well-formed and without links, and holds a
/// descriptor for an optional extension if and only if the extension is among
/// the supported ones.
pub proof fn lemma_fresh(extensions: Seq<Seq<char>>, supported: Set<OptionalExtension>)
    ensures
        FeaturesView::fresh(extensions, supported).wf(),
        FeaturesView::fresh(extensions, supported).detached(),
        FeaturesView::fresh(extensions, supported).categories() == selection_order(supported),
        FeaturesView::fresh(extensions, supported).optional_present() == supported,
        forall|extension: OptionalExtension|
            FeaturesView::fresh(extensions, supported).has_optional(extension)
                <==> supported.contains(extension),
{
    let set = FeaturesView::fresh(extensions, supported);
    let order = selection_order(supported);
    let optional = supported_in_order(supported);
    lemma_supported_in_order(supported);
    assert(set.categories() =~= order);
    assert forall|extension: OptionalExtension| set.has_optional(extension) <==> supported.contains(
        extension,
    ) by {
        if order.contains(Category::Optional(extension)) {
            let k = choose|k: int|
                0 <= k < order.len() && order[k] == Category::Optional(extension);
            assert(k >= 5);
            assert(optional[k - 5] == extension);
            assert(optional.contains(extension));
        }
        if supported.contains(extension) {
            assert(optional.contains(extension));
            let k = choose|k: int| 0 <= k < optional.len() && optional[k] == extension;
            assert(order[5 + k] == Category::Optional(extension));
        }
    }
    assert(set.optional_present() =~= supported);
}

/// A whole negotiation on a freshly built set: the set has no links when the
/// query chain is built, it has none again when the chain for device creation
/// is built, whatever the query answered, and that chain holds the mandatory
/// descriptors and those of the supported optional extensions, in selection
/// order. The extension list is the one that the set was built with.
pub proof fn lemma_negotiation(
    extensions: Seq<Seq<char>>,
    supported: Set<OptionalExtension>,
    reported: Seq<Seq<bool>>,
)
    ensures
        FeaturesView::fresh(extensions, supported).detached(),
        FeaturesView::fresh(extensions, supported).linked().answered(
            0,
            reported,
        ).sanitized().detached(),
        FeaturesView::fresh(extensions, supported).linked().answered(
            0,
            reported,
        ).sanitized().linked().chain_categories(0) == selection_order(supported),
        FeaturesView::fresh(extensions, supported).linked().answered(
            0,
            reported,
        ).sanitized().linked().extensions == extensions,
{
    let set = FeaturesView::fresh(extensions, supported);
    let answered = set.linked().answered(0, reported);
    lemma_fresh(extensions, supported);
    lemma_chain_membership_stable(set, reported);
    lemma_answered_keeps(set.linked(), 0, reported);
    lemma_sanitized_keeps(answered);
    lemma_linked_keeps(answered.sanitized());
}

/// A set without links that is linked and then sanitized is as it was.
pub proof fn lemma_relinked(set: FeaturesView)
    requires
        set.detached(),
    ensures
        set.linked().sanitized() == set,
        set.sanitized() == set,
{
    assert(set.linked().sanitized().descriptors =~= set.descriptors);
    assert(set.sanitized().descriptors =~= set.descriptors);
}

/// What a whole feature query leaves: where a set without links is linked,
/// answered along the whole chain and sanitized, each descriptor holds the
/// answer at its own position, and no links.
pub proof fn lemma_filled(set: FeaturesView, reported: Seq<Seq<bool>>)
    requires
        set.wf(),
    ensures
        set.linked().fits(0, reported) <==> (reported.len() == set.descriptors.len() && forall|
            i: int,
        |
            0 <= i < reported.len() ==> (#[trigger] reported[i]).len()
                == set.descriptors[i].category.flag_count_spec()),
        set.linked().answered(0, reported).sanitized().descriptors == Seq::new(
            set.descriptors.len(),
            |i: int|
                DescriptorView {
                    category: set.descriptors[i].category,
                    flags: reported[i],
                    link: None,
                },
        ),
{
    lemma_wf_not_empty(set);
    lemma_chain_of_linked(set);
    lemma_chain_distinct(set.linked(), 0);
    lemma_linked_keeps(set);
    let chain = set.linked().chain(0);
    if set.linked().fits(0, reported) {
        assert forall|i: int| 0 <= i < reported.len() implies (#[trigger] reported[i]).len()
            == set.descriptors[i].category.flag_count_spec() by {
            assert(chain[i] == i);
        }
    }
    assert(set.linked().answered(0, reported).sanitized().descriptors =~= Seq::new(
        set.descriptors.len(),
        |i: int|
            DescriptorView {
                category: set.descriptors[i].category,
                flags: reported[i],
                link: None,
            },
    ));
}

} // verus!
