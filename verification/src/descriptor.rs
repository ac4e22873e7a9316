//! Feature descriptors and the mathematical model of a descriptor set: an
//! arena of descriptors in which a chain is a run of links from one
//! descriptor to the next.

use vstd::prelude::*;
use crate::registry::{mandatory_categories, supported_in_order, Category, OptionalExtension};

verus! {

/// The record of one feature category: its flags, and the link to the next
/// descriptor while it is part of a chain. The link is an index into the
/// descriptor set that owns the descriptor.
#[derive(Debug)]
pub struct FeatureDescriptor {
    pub category: Category,
    pub flags: Vec<bool>,
    pub link: Option<usize>,
}

/// A feature descriptor as a mathematical value.
pub struct DescriptorView {
    pub category: Category,
    pub flags: Seq<bool>,
    pub link: Option<int>,
}

impl View for FeatureDescriptor {
    type V = DescriptorView;

    open spec fn view(&self) -> DescriptorView {
        DescriptorView {
            category: self.category,
            flags: self.flags@,
            link: match self.link {
                Some(next) => Some(next as int),
                None => None,
            },
        }
    }
}

/// The order in which descriptors are selected for a chain: the mandatory
/// categories first, then the supported optional ones in registry order.
pub open spec fn selection_order(supported: Set<OptionalExtension>) -> Seq<Category> {
    mandatory_categories() + supported_in_order(supported).map_values(
        |extension: OptionalExtension| Category::Optional(extension),
    )
}

/// A descriptor with all its flags cleared and no link.
pub open spec fn zeroed(category: Category) -> DescriptorView {
    DescriptorView {
        category,
        flags: Seq::new(category.flag_count_spec(), |flag: int| false),
        link: None,
    }
}

/// A descriptor set together with the list of extensions to enable, as a
/// mathematical value.
pub struct FeaturesView {
    pub descriptors: Seq<DescriptorView>,
    pub extensions: Seq<Seq<char>>,
}

impl FeaturesView {
    /// The categories of the descriptors, in arena order.
    pub open spec fn categories(self) -> Seq<Category> {
        self.descriptors.map_values(|descriptor: DescriptorView| descriptor.category)
    }

    /// Whether the set holds a descriptor for the optional extension.
    pub open spec fn has_optional(self, extension: OptionalExtension) -> bool {
        self.categories().contains(Category::Optional(extension))
    }

    /// The optional extensions for which the set holds a descriptor.
    pub open spec fn optional_present(self) -> Set<OptionalExtension> {
        Set::new(|extension: OptionalExtension| self.has_optional(extension))
    }

    /// Every link is either empty or leads to the next descriptor of the arena.
    pub open spec fn links_in_order(self) -> bool {
        forall|i: int|
            0 <= i < self.descriptors.len() ==> {
                let link = (#[trigger] self.descriptors[i]).link;
                link is None || (link == Some(i + 1) && i + 1 < self.descriptors.len())
            }
    }

    /// Every descriptor has as many flags as its category asks for.
    pub open spec fn flags_in_shape(self) -> bool {
        forall|i: int|
            0 <= i < self.descriptors.len() ==> (#[trigger] self.descriptors[i]).flags.len()
                == self.descriptors[i].category.flag_count_spec()
    }

    /// The set holds one descriptor for each mandatory category and at most
    /// one for each optional extension, in selection order, each of the shape
    /// of its category.
    pub open spec fn wf(self) -> bool {
        &&& self.categories() == selection_order(self.optional_present())
        &&& self.flags_in_shape()
        &&& self.links_in_order()
    }

    /// No descriptor is part of a chain.
    pub open spec fn detached(self) -> bool {
        forall|i: int|
            0 <= i < self.descriptors.len() ==> (#[trigger] self.descriptors[i]).link is None
    }

    /// The set after every descriptor was linked to the next one in selection
    /// order, the last one to nothing.
    pub open spec fn linked(self) -> FeaturesView {
        FeaturesView {
            descriptors: Seq::new(
                self.descriptors.len(),
                |i: int|
                    DescriptorView {
                        link: if i + 1 < self.descriptors.len() {
                            Some(i + 1)
                        } else {
                            None
                        },
                        ..self.descriptors[i]
                    },
            ),
            ..self
        }
    }

    /// The set after every link was cleared.
    pub open spec fn sanitized(self) -> FeaturesView {
        FeaturesView {
            descriptors: Seq::new(
                self.descriptors.len(),
                |i: int| DescriptorView { link: None, ..self.descriptors[i] },
            ),
            ..self
        }
    }

    /// The descriptors met by following links from `at`, at most `fuel` of
    /// them.
    pub open spec fn walk(self, at: Option<int>, fuel: nat) -> Seq<int>
        decreases fuel,
    {
        if fuel == 0 {
            Seq::empty()
        } else {
            match at {
                None => Seq::empty(),
                Some(i) => if 0 <= i < self.descriptors.len() {
                    seq![i] + self.walk(self.descriptors[i].link, (fuel - 1) as nat)
                } else {
                    Seq::empty()
                },
            }
        }
    }

    /// The chain that starts at `head`: the indices of the descriptors that
    /// are reached from it through the links, in order.
    pub open spec fn chain(self, head: int) -> Seq<int> {
        self.walk(Some(head), self.descriptors.len())
    }

    /// The categories of the descriptors along the chain that starts at `head`.
    pub open spec fn chain_categories(self, head: int) -> Seq<Category> {
        self.chain(head).map_values(|i: int| self.descriptors[i].category)
    }

    /// Whether `reported` holds one answer for each descriptor of the chain
    /// that starts at `head`, each of the shape of its descriptor.
    pub open spec fn fits(self, head: int, reported: Seq<Seq<bool>>) -> bool {
        &&& 0 <= head < self.descriptors.len()
        &&& reported.len() == self.chain(head).len()
        &&& forall|k: int|
            0 <= k < reported.len() ==> (#[trigger] reported[k]).len()
                == self.descriptors[self.chain(head)[k]].category.flag_count_spec()
    }

    /// The set after the flags of each descriptor of the chain that starts at
    /// `head` were overwritten with the answer at its position in the chain.
    /// Descriptors outside the chain, and all links, stay as they are.
    pub open spec fn answered(self, head: int, reported: Seq<Seq<bool>>) -> FeaturesView {
        FeaturesView {
            descriptors: Seq::new(
                self.descriptors.len(),
                |i: int|
                    if self.chain(head).contains(i) {
                        DescriptorView {
                            flags: reported[self.chain(head).index_of(i)],
                            ..self.descriptors[i]
                        }
                    } else {
                        self.descriptors[i]
                    },
            ),
            ..self
        }
    }

    /// A set as it is first built: a zeroed, unlinked descriptor for each
    /// category of the selection order.
    pub open spec fn fresh(
        extensions: Seq<Seq<char>>,
        supported: Set<OptionalExtension>,
    ) -> FeaturesView {
        FeaturesView {
            descriptors: selection_order(supported).map_values(
                |category: Category| zeroed(category),
            ),
            extensions,
        }
    }
}

} // verus!
