//! The table of feature categories that the negotiation knows: the five that
//! every device is asked about, and the optional extensions that are used
//! only where the adapter advertises them.

use vstd::prelude::*;

verus! {

/// An optional device extension that the backend can make use of when the
/// adapter advertises it.
#[derive(Clone, Copy, Debug, PartialEq, Eq, Structural)]
pub enum OptionalExtension {
    CooperativeMatrix,
    ShaderAtomicFloat,
    ShaderAtomicFloat2,
    ShaderFloatControls2,
}

/// A category of device features. Each category has one descriptor shape: a
/// fixed number of boolean flags, in the order of the fields of the Vulkan
/// structure of the category.
#[derive(Clone, Copy, Debug, PartialEq, Eq, Structural)]
pub enum Category {
    MemoryModel,
    ShaderFloat16Int8,
    Storage16Bit,
    Storage8Bit,
    SubgroupExtendedTypes,
    Optional(OptionalExtension),
}

impl OptionalExtension {
    /// The name under which a Vulkan device lists the extension.
    pub open spec fn name_spec(self) -> Seq<char> {
        match self {
            OptionalExtension::CooperativeMatrix => "VK_KHR_cooperative_matrix"@,
            OptionalExtension::ShaderAtomicFloat => "VK_EXT_shader_atomic_float"@,
            OptionalExtension::ShaderAtomicFloat2 => "VK_EXT_shader_atomic_float2"@,
            OptionalExtension::ShaderFloatControls2 => "VK_KHR_shader_float_controls2"@,
        }
    }

    /// The extension's name as an owned string.
    pub fn name(self) -> (name: String)
        ensures
            name@ == self.name_spec(),
    {
        match self {
            OptionalExtension::CooperativeMatrix => "VK_KHR_cooperative_matrix".to_owned(),
            OptionalExtension::ShaderAtomicFloat => "VK_EXT_shader_atomic_float".to_owned(),
            OptionalExtension::ShaderAtomicFloat2 => "VK_EXT_shader_atomic_float2".to_owned(),
            OptionalExtension::ShaderFloatControls2 => "VK_KHR_shader_float_controls2".to_owned(),
        }
    }

    /// The number of flags in the extension's feature descriptor.
    pub open spec fn flag_count_spec(self) -> nat {
        match self {
            OptionalExtension::CooperativeMatrix => 2,
            OptionalExtension::ShaderAtomicFloat => 12,
            OptionalExtension::ShaderAtomicFloat2 => 12,
            OptionalExtension::ShaderFloatControls2 => 1,
        }
    }

    /// The number of flags in the extension's feature descriptor.
    pub fn flag_count(self) -> (count: usize)
        ensures
            count == self.flag_count_spec(),
    {
        match self {
            OptionalExtension::CooperativeMatrix => 2,
            OptionalExtension::ShaderAtomicFloat => 12,
            OptionalExtension::ShaderAtomicFloat2 => 12,
            OptionalExtension::ShaderFloatControls2 => 1,
        }
    }
}

impl Category {
    /// The number of flags in a descriptor of this category.
    pub open spec fn flag_count_spec(self) -> nat {
        match self {
            Category::MemoryModel => 3,
            Category::ShaderFloat16Int8 => 2,
            Category::Storage16Bit => 4,
            Category::Storage8Bit => 3,
            Category::SubgroupExtendedTypes => 1,
            Category::Optional(extension) => extension.flag_count_spec(),
        }
    }

    /// The number of flags in a descriptor of this category.
    pub fn flag_count(self) -> (count: usize)
        ensures
            count == self.flag_count_spec(),
    {
        match self {
            Category::MemoryModel => 3,
            Category::ShaderFloat16Int8 => 2,
            Category::Storage16Bit => 4,
            Category::Storage8Bit => 3,
            Category::SubgroupExtendedTypes => 1,
            Category::Optional(extension) => extension.flag_count(),
        }
    }
}

/// The recognised optional extensions, in the order in which they are probed,
/// listed and chained.
pub open spec fn optional_registry() -> Seq<OptionalExtension> {
    seq![
        OptionalExtension::CooperativeMatrix,
        OptionalExtension::ShaderAtomicFloat,
        OptionalExtension::ShaderAtomicFloat2,
        OptionalExtension::ShaderFloatControls2,
    ]
}

/// The categories that every descriptor set holds, in the order in which they
/// are chained.
pub open spec fn mandatory_categories() -> Seq<Category> {
    seq![
        Category::MemoryModel,
        Category::ShaderFloat16Int8,
        Category::Storage16Bit,
        Category::Storage8Bit,
        Category::SubgroupExtendedTypes,
    ]
}

/// The registry of optional extensions as a value.
pub fn registry() -> (table: Vec<OptionalExtension>)
    ensures
        table@ == optional_registry(),
{
    let mut table: Vec<OptionalExtension> = Vec::new();
    table.push(OptionalExtension::CooperativeMatrix);
    table.push(OptionalExtension::ShaderAtomicFloat);
    table.push(OptionalExtension::ShaderAtomicFloat2);
    table.push(OptionalExtension::ShaderFloatControls2);
    table
}

/// The mandatory categories as a value.
pub fn mandatory() -> (table: Vec<Category>)
    ensures
        table@ == mandatory_categories(),
{
    let mut table: Vec<Category> = Vec::new();
    table.push(Category::MemoryModel);
    table.push(Category::ShaderFloat16Int8);
    table.push(Category::Storage16Bit);
    table.push(Category::Storage8Bit);
    table.push(Category::SubgroupExtendedTypes);
    table
}

/// Every optional extension has an entry in the registry, and none has two.
pub proof fn lemma_registry_complete()
    ensures
        optional_registry().no_duplicates(),
        forall|extension: OptionalExtension| optional_registry().contains(extension),
{
    let table = optional_registry();
    assert forall|extension: OptionalExtension| table.contains(extension) by {
        match extension {
            OptionalExtension::CooperativeMatrix => assert(table[0] == extension),
            OptionalExtension::ShaderAtomicFloat => assert(table[1] == extension),
            OptionalExtension::ShaderAtomicFloat2 => assert(table[2] == extension),
            OptionalExtension::ShaderFloatControls2 => assert(table[3] == extension),
        }
    }
}

/// The optional extensions of a set, in registry order.
pub open spec fn supported_in_order(supported: Set<OptionalExtension>) -> Seq<OptionalExtension> {
    optional_registry().filter(|extension: OptionalExtension| supported.contains(extension))
}

/// What a filter keeps of a sequence without repetitions: each element that
/// meets the predicate, once.
pub proof fn lemma_filter_distinct<A>(list: Seq<A>, keep: spec_fn(A) -> bool)
    requires
        list.no_duplicates(),
    ensures
        list.filter(keep).no_duplicates(),
        forall|element: A|
            list.filter(keep).contains(element) <==> list.contains(element) && keep(element),
    decreases list.len(),
{
    reveal(Seq::filter);
    if list.len() > 0 {
        let front = list.drop_last();
        let kept = front.filter(keep);
        lemma_filter_distinct(front, keep);
        assert forall|element: A| front.contains(element) implies list.contains(element)
            && element != list.last() by {
            let k = choose|k: int| 0 <= k < front.len() && front[k] == element;
            assert(list[k] == element);
        }
        assert forall|element: A| list.contains(element) implies front.contains(element)
            || element == list.last() by {
            let k = choose|k: int| 0 <= k < list.len() && list[k] == element;
            if k < front.len() {
                assert(front[k] == element);
            }
        }
        assert(list.contains(list.last())) by {
            assert(list[list.len() - 1] == list.last());
        }
        if keep(list.last()) {
            let all = kept.push(list.last());
            assert(list.filter(keep) == all);
            assert forall|element: A| all.contains(element) <==> kept.contains(element) || element
                == list.last() by {
                if all.contains(element) {
                    let k = choose|k: int| 0 <= k < all.len() && all[k] == element;
                    if k < kept.len() {
                        assert(kept[k] == element);
                    }
                }
                if kept.contains(element) {
                    let k = choose|k: int| 0 <= k < kept.len() && kept[k] == element;
                    assert(all[k] == element);
                }
                if element == list.last() {
                    assert(all[kept.len() as int] == element);
                }
            }
            assert forall|i: int, j: int|
                0 <= i < all.len() && 0 <= j < all.len() && i != j implies all[i] != all[j] by {
                if i < kept.len() {
                    assert(kept.contains(kept[i]));
                }
                if j < kept.len() {
                    assert(kept.contains(kept[j]));
                }
            }
        }
    }
}

/// The optional extensions of a set, in registry order, are those of the set
/// and no others, each once.
pub proof fn lemma_supported_in_order(supported: Set<OptionalExtension>)
    ensures
        supported_in_order(supported).no_duplicates(),
        forall|extension: OptionalExtension|
            supported_in_order(supported).contains(extension) <==> supported.contains(extension),
{
    lemma_registry_complete();
    lemma_filter_distinct(
        optional_registry(),
        |extension: OptionalExtension| supported.contains(extension),
    );
}

/// Two optional extensions with the same name are the same extension.
pub proof fn lemma_names_distinct(first: OptionalExtension, second: OptionalExtension)
    requires
        first.name_spec() == second.name_spec(),
    ensures
        first == second,
{
    reveal_strlit("VK_KHR_cooperative_matrix");
    reveal_strlit("VK_EXT_shader_atomic_float");
    reveal_strlit("VK_EXT_shader_atomic_float2");
    reveal_strlit("VK_KHR_shader_float_controls2");
    assert(OptionalExtension::CooperativeMatrix.name_spec().len() == 25);
    assert(OptionalExtension::ShaderAtomicFloat.name_spec().len() == 26);
    assert(OptionalExtension::ShaderAtomicFloat2.name_spec().len() == 27);
    assert(OptionalExtension::ShaderFloatControls2.name_spec().len() == 29);
}

} // verus!
