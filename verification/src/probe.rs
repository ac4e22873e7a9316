//! The capability probe: which extensions a device must be created with, and
//! which of the optional extensions the adapter supports.

use vstd::prelude::*;
use crate::adapter::{
    adapter_advertises, adapter_required_extensions, required_device_extensions,
    supports_extension,
};
use crate::registry::{
    lemma_names_distinct, lemma_supported_in_order, optional_registry, registry,
    supported_in_order, OptionalExtension,
};

verus! {

/// The texts of a list of strings.
pub open spec fn names(list: Seq<String>) -> Seq<Seq<char>> {
    list.map_values(|name: String| name@)
}

/// The names of a list of optional extensions.
pub open spec fn extension_names(extensions: Seq<OptionalExtension>) -> Seq<Seq<char>> {
    extensions.map_values(|extension: OptionalExtension| extension.name_spec())
}

/// The list without its repetitions: of each name the first occurrence
/// stays, in its place.
pub open spec fn distinct_in_order(list: Seq<Seq<char>>) -> Seq<Seq<char>>
    decreases list.len(),
{
    if list.len() == 0 {
        Seq::empty()
    } else {
        let before = distinct_in_order(list.drop_last());
        if before.contains(list.last()) {
            before
        } else {
            before.push(list.last())
        }
    }
}

/// The extensions to enable at device creation: those that the requested
/// features imply, then the advertised optional ones in registry order, each
/// name once.
pub open spec fn required_extension_list(
    mandatory: Seq<Seq<char>>,
    advertised: Set<OptionalExtension>,
) -> Seq<Seq<char>> {
    distinct_in_order(mandatory + extension_names(supported_in_order(advertised)))
}

/// What a probe found.
#[derive(Debug)]
pub struct ProbeResult {
    /// The names of the extensions to enable at device creation.
    pub extensions: Vec<String>,
    /// The optional extensions that the adapter supports, in registry order.
    pub supported: Vec<OptionalExtension>,
}

/// What a probe found, as a mathematical value.
pub struct ProbeView {
    pub extensions: Seq<Seq<char>>,
    pub supported: Seq<OptionalExtension>,
}

impl View for ProbeResult {
    type V = ProbeView;

    open spec fn view(&self) -> ProbeView {
        ProbeView { extensions: names(self.extensions@), supported: self.supported@ }
    }
}

/// The outcome of a probe of an adapter that implies the extensions
/// `mandatory` and advertises the optional extensions `advertised`.
pub open spec fn probe_outcome(
    mandatory: Seq<Seq<char>>,
    advertised: Set<OptionalExtension>,
) -> ProbeView {
    ProbeView {
        extensions: required_extension_list(mandatory, advertised),
        supported: supported_in_order(advertised),
    }
}

/// The optional extensions that an adapter advertises.
pub open spec fn advertised_by(adapter: wgpu::hal::vulkan::Adapter) -> Set<OptionalExtension> {
    Set::new(
        |extension: OptionalExtension| adapter_advertises(adapter, extension.name_spec()),
    )
}

/// The outcome of a probe of `adapter` for the requested `features`.
pub open spec fn resolved(
    adapter: wgpu::hal::vulkan::Adapter,
    features: wgpu::Features,
) -> ProbeView {
    probe_outcome(adapter_required_extensions(adapter, features), advertised_by(adapter))
}

/// Adding a name at the end of a list adds it to the distinct list unless it
/// is there already.
pub proof fn lemma_distinct_push(list: Seq<Seq<char>>, name: Seq<char>)
    ensures
        distinct_in_order(list.push(name)) == if distinct_in_order(list).contains(name) {
            distinct_in_order(list)
        } else {
            distinct_in_order(list).push(name)
        },
{
    assert(list.push(name).drop_last() =~= list);
}

/// The distinct list has no repetitions and holds the same names as the list.
pub proof fn lemma_distinct_in_order(list: Seq<Seq<char>>)
    ensures
        distinct_in_order(list).no_duplicates(),
        forall|name: Seq<char>| distinct_in_order(list).contains(name) <==> list.contains(name),
        distinct_in_order(list).len() <= list.len(),
    decreases list.len(),
{
    if list.len() > 0 {
        let front = list.drop_last();
        let before = distinct_in_order(front);
        let all = distinct_in_order(list);
        lemma_distinct_in_order(front);
        assert forall|name: Seq<char>| all.contains(name) implies list.contains(name) by {
            let at = choose|at: int| 0 <= at < all.len() && all[at] == name;
            if at < before.len() {
                assert(before[at] == name);
                assert(before.contains(name));
                assert(front.contains(name));
                let k = choose|k: int| 0 <= k < front.len() && front[k] == name;
                assert(list[k] == name);
            } else {
                assert(list[list.len() - 1] == name);
            }
        }
        assert forall|name: Seq<char>| list.contains(name) implies all.contains(name) by {
            let k = choose|k: int| 0 <= k < list.len() && list[k] == name;
            if k < list.len() - 1 {
                assert(front[k] == name);
                assert(front.contains(name));
                assert(before.contains(name));
            }
            if before.contains(name) {
                let at = choose|at: int| 0 <= at < before.len() && before[at] == name;
                assert(all[at] == name);
            } else {
                assert(all[before.len() as int] == name);
            }
        }
        assert forall|i: int, j: int|
            0 <= i < all.len() && 0 <= j < all.len() && i != j implies all[i] != all[j] by {
            if i < before.len() {
                assert(before.contains(before[i]));
            }
            if j < before.len() {
                assert(before.contains(before[j]));
            }
        }
    }
}

/// A list without repetitions is its own distinct list.
pub proof fn lemma_distinct_of_distinct(list: Seq<Seq<char>>)
    requires
        list.no_duplicates(),
    ensures
        distinct_in_order(list) == list,
    decreases list.len(),
{
    if list.len() > 0 {
        lemma_distinct_of_distinct(list.drop_last());
        lemma_distinct_in_order(list.drop_last());
        let front = list.drop_last();
        if front.contains(list.last()) {
            let k = choose|k: int| 0 <= k < front.len() && front[k] == list.last();
            assert(list[k] == list[list.len() - 1]);
        }
        assert(front.push(list.last()) =~= list);
    }
}

/// The required extension list never names an extension twice.
pub proof fn lemma_required_list_no_duplicates(
    mandatory: Seq<Seq<char>>,
    advertised: Set<OptionalExtension>,
)
    ensures
        required_extension_list(mandatory, advertised).no_duplicates(),
{
    lemma_distinct_in_order(mandatory + extension_names(supported_in_order(advertised)));
}

/// The required extension list names what the requested features imply and
/// what the adapter advertises of the optional extensions, and nothing else.
pub proof fn lemma_required_list_members(
    mandatory: Seq<Seq<char>>,
    advertised: Set<OptionalExtension>,
    name: Seq<char>,
)
    ensures
        required_extension_list(mandatory, advertised).contains(name) <==> (mandatory.contains(name)
            || exists|extension: OptionalExtension|
            advertised.contains(extension) && extension.name_spec() == name),
{
    let supported = supported_in_order(advertised);
    let optional = extension_names(supported);
    let all = mandatory + optional;
    lemma_distinct_in_order(all);
    lemma_supported_in_order(advertised);
    if all.contains(name) {
        let k = choose|k: int| 0 <= k < all.len() && all[k] == name;
        if k < mandatory.len() {
            assert(mandatory[k] == name);
        } else {
            let extension = supported[k - mandatory.len()];
            assert(supported.contains(extension));
            assert(advertised.contains(extension) && extension.name_spec() == name);
        }
    }
    if mandatory.contains(name) {
        let k = choose|k: int| 0 <= k < mandatory.len() && mandatory[k] == name;
        assert(all[k] == name);
    }
    if exists|extension: OptionalExtension|
        advertised.contains(extension) && extension.name_spec() == name {
        let extension = choose|extension: OptionalExtension|
            advertised.contains(extension) && extension.name_spec() == name;
        assert(supported.contains(extension));
        let k = choose|k: int| 0 <= k < supported.len() && supported[k] == extension;
        assert(all[mandatory.len() + k] == name);
    }
}

/// Where the implied extensions are listed once each and none of them is an
/// optional extension of the registry, the required extension list is the
/// implied extensions followed by the names of the advertised optional
/// extensions, in registry order.
pub proof fn lemma_required_list_appends(
    mandatory: Seq<Seq<char>>,
    advertised: Set<OptionalExtension>,
)
    requires
        mandatory.no_duplicates(),
        forall|extension: OptionalExtension| !mandatory.contains(extension.name_spec()),
    ensures
        required_extension_list(mandatory, advertised) == mandatory + extension_names(
            supported_in_order(advertised),
        ),
{
    let supported = supported_in_order(advertised);
    let optional = extension_names(supported);
    let all = mandatory + optional;
    lemma_supported_in_order(advertised);
    assert forall|i: int, j: int| 0 <= i < all.len() && 0 <= j < all.len() && i != j implies all[i]
        != all[j] by {
        if i < mandatory.len() && j < mandatory.len() {
        } else if i >= mandatory.len() && j >= mandatory.len() {
            if all[i] == all[j] {
                lemma_names_distinct(
                    supported[i - mandatory.len()],
                    supported[j - mandatory.len()],
                );
            }
        } else if i < mandatory.len() {
            assert(mandatory.contains(mandatory[i]));
            assert(all[j] == supported[j - mandatory.len()].name_spec());
        } else {
            assert(mandatory.contains(mandatory[j]));
            assert(all[i] == supported[i - mandatory.len()].name_spec());
        }
    }
    lemma_distinct_of_distinct(all);
}

/// Probing is repeatable: two probes of the same adapter for the same
/// requested features find the same required extension list and the same
/// supported optional extensions.
pub proof fn lemma_probe_idempotent(
    adapter: wgpu::hal::vulkan::Adapter,
    features: wgpu::Features,
    first: ProbeView,
    second: ProbeView,
)
    requires
        first == resolved(adapter, features),
        second == resolved(adapter, features),
    ensures
        first.extensions == second.extensions,
        first.supported == second.supported,
{
}

/// Whether the list holds the name.
pub fn contains_name(list: &Vec<String>, name: &String) -> (found: bool)
    ensures
        found == names(list@).contains(name@),
{
    let mut i: usize = 0;
    while i < list.len()
        invariant
            i <= list.len(),
            forall|k: int| 0 <= k < i ==> names(list@)[k] != name@,
        decreases list.len() - i,
    {
        if list[i] == *name {
            assert(names(list@)[i as int] == name@);
            return true;
        }
        i += 1;
    }
    false
}

/// Whether the list holds the extension.
pub fn contains_extension(list: &Vec<OptionalExtension>, extension: OptionalExtension) -> (found:
    bool)
    ensures
        found == list@.contains(extension),
{
    let mut i: usize = 0;
    while i < list.len()
        invariant
            i <= list.len(),
            forall|k: int| 0 <= k < i ==> list@[k] != extension,
        decreases list.len() - i,
    {
        if list[i] == extension {
            return true;
        }
        i += 1;
    }
    false
}

/// Adds the name at the end of the list unless the list holds it already.
fn push_distinct(list: &mut Vec<String>, name: String)
    ensures
        names(final(list)@) == if names(old(list)@).contains(name@) {
            names(old(list)@)
        } else {
            names(old(list)@).push(name@)
        },
{
    if !contains_name(list, &name) {
        list.push(name);
        assert(names(list@) =~= names(old(list)@).push(name@));
    }
}

/// The capability probe on what an adapter answered: `mandatory` are the
/// extensions that the requested features imply, `advertised` the optional
/// extensions that the adapter advertises, in any order.
///
/// The required extension list holds the implied extensions first and then
/// the advertised optional extensions in registry order, and names no
/// extension twice. An optional extension that is not advertised is left out.
pub fn resolve_reported(mandatory: &Vec<String>, advertised: &Vec<OptionalExtension>) -> (outcome:
    ProbeResult)
    ensures
        outcome@ == probe_outcome(names(mandatory@), advertised@.to_set()),
        outcome@.extensions.no_duplicates(),
        forall|extension: OptionalExtension|
            outcome@.supported.contains(extension) <==> advertised@.contains(extension),
{
    let ghost implied = names(mandatory@);
    let ghost keep = |extension: OptionalExtension| advertised@.to_set().contains(extension);
    let mut extensions: Vec<String> = Vec::new();
    let mut i: usize = 0;
    assert(implied.take(0) =~= Seq::empty());
    while i < mandatory.len()
        invariant
            i <= mandatory.len(),
            implied == names(mandatory@),
            names(extensions@) == distinct_in_order(implied.take(i as int)),
        decreases mandatory.len() - i,
    {
        let name = mandatory[i].clone();
        proof {
            lemma_distinct_push(implied.take(i as int), name@);
            assert(implied.take(i as int).push(name@) =~= implied.take(i + 1));
        }
        push_distinct(&mut extensions, name);
        i += 1;
    }
    assert(implied.take(i as int) =~= implied);

    let table = registry();
    let mut supported: Vec<OptionalExtension> = Vec::new();
    let mut j: usize = 0;
    proof {
        reveal(Seq::filter);
        assert(table@.take(0) =~= Seq::empty());
        assert(implied + extension_names(supported@) =~= implied);
    }
    while j < table.len()
        invariant
            j <= table.len(),
            table@ == optional_registry(),
            keep == |extension: OptionalExtension| advertised@.to_set().contains(extension),
            supported@ == table@.take(j as int).filter(keep),
            names(extensions@) == distinct_in_order(implied + extension_names(supported@)),
        decreases table.len() - j,
    {
        let extension = table[j];
        proof {
            assert(table@.take(j + 1) =~= table@.take(j as int).push(extension));
            table@.take(j as int).lemma_filter_push(extension, keep);
        }
        if contains_extension(advertised, extension) {
            let name = extension.name();
            proof {
                lemma_distinct_push(implied + extension_names(supported@), name@);
                assert((implied + extension_names(supported@)).push(name@) =~= implied
                    + extension_names(supported@.push(extension)));
            }
            supported.push(extension);
            push_distinct(&mut extensions, name);
        }
        j += 1;
    }
    proof {
        assert(table@.take(j as int) =~= table@);
        lemma_required_list_no_duplicates(implied, advertised@.to_set());
        lemma_supported_in_order(advertised@.to_set());
    }
    ProbeResult { extensions, supported }
}

/// The capability probe: asks the adapter for the extensions that the
/// requested features imply, and, for each optional extension of the
/// registry, whether the adapter advertises it.
///
/// An optional extension that the adapter does not advertise is left out; the
/// probe never fails. Every extension of the resulting list is one that the
/// adapter advertises.
pub fn resolve(adapter: &wgpu::hal::vulkan::Adapter, features: wgpu::Features) -> (outcome:
    ProbeResult)
    ensures
        outcome@ == resolved(*adapter, features),
        outcome@.extensions.no_duplicates(),
        forall|extension: OptionalExtension|
            outcome@.supported.contains(extension) <==> adapter_advertises(
                *adapter,
                extension.name_spec(),
            ),
        forall|i: int|
            0 <= i < outcome@.extensions.len() ==> adapter_advertises(
                *adapter,
                #[trigger] outcome@.extensions[i],
            ),
{
    let mandatory = required_device_extensions(adapter, features);
    assert(names(mandatory@) =~= mandatory.deep_view());
    let advertised = advertised_extensions(adapter);
    proof {
        lemma_supported_in_order(advertised_by(*adapter));
        assert(advertised@.to_set() =~= advertised_by(*adapter));
    }
    let outcome = resolve_reported(&mandatory, &advertised);
    proof {
        assert forall|i: int| 0 <= i < outcome@.extensions.len() implies adapter_advertises(
            *adapter,
            #[trigger] outcome@.extensions[i],
        ) by {
            let name = outcome@.extensions[i];
            assert(outcome@.extensions.contains(name));
            lemma_required_list_members(names(mandatory@), advertised@.to_set(), name);
            if names(mandatory@).contains(name) {
                let k = choose|k: int| 0 <= k < mandatory@.len() && names(mandatory@)[k] == name;
                assert(adapter_advertises(*adapter, mandatory@[k]@));
            } else {
                let extension = choose|extension: OptionalExtension|
                    advertised@.to_set().contains(extension) && extension.name_spec() == name;
                assert(advertised_by(*adapter).contains(extension));
            }
        }
    }
    outcome
}

/// The optional extensions of the registry that the adapter advertises, in
/// registry order.
pub fn advertised_extensions(adapter: &wgpu::hal::vulkan::Adapter) -> (advertised: Vec<
    OptionalExtension,
>)
    ensures
        advertised@ == supported_in_order(advertised_by(*adapter)),
{
    let ghost keep = |extension: OptionalExtension| advertised_by(*adapter).contains(extension);
    let table = registry();
    let mut advertised: Vec<OptionalExtension> = Vec::new();
    let mut j: usize = 0;
    proof {
        reveal(Seq::filter);
        assert(table@.take(0) =~= Seq::empty());
    }
    while j < table.len()
        invariant
            j <= table.len(),
            table@ == optional_registry(),
            keep == |extension: OptionalExtension| advertised_by(*adapter).contains(extension),
            advertised@ == table@.take(j as int).filter(keep),
        decreases table.len() - j,
    {
        let extension = table[j];
        proof {
            assert(table@.take(j + 1) =~= table@.take(j as int).push(extension));
            table@.take(j as int).lemma_filter_push(extension, keep);
        }
        if supports_extension(adapter, extension) {
            advertised.push(extension);
        }
        j += 1;
    }
    assert(table@.take(j as int) =~= table@);
    advertised
}

} // verus!
