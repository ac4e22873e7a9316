use extended_features::descriptor::FeatureDescriptor;
use extended_features::features::{ChainHead, DeviceCreateInfo, ExtendedFeatures, FeatureError};
use extended_features::probe::{resolve_reported, ProbeResult};
use extended_features::registry::{Category, OptionalExtension};

fn set_for(advertised: &[OptionalExtension]) -> ExtendedFeatures {
    let mandatory = vec!["VK_KHR_swapchain".to_string()];
    ExtendedFeatures::build(resolve_reported(&mandatory, &advertised.to_vec()))
}

fn categories(set: &ExtendedFeatures) -> Vec<Category> {
    set.descriptors().iter().map(|descriptor| descriptor.category).collect()
}

fn links(set: &ExtendedFeatures) -> Vec<Option<usize>> {
    set.descriptors().iter().map(|descriptor| descriptor.link).collect()
}

fn along(set: &ExtendedFeatures, head: ChainHead) -> Vec<Category> {
    set.chain(head).iter().map(|&index| set.descriptors()[index].category).collect()
}

fn answers_for(set: &ExtendedFeatures, value: bool) -> Vec<Vec<bool>> {
    set.descriptors()
        .iter()
        .map(|descriptor| vec![value; descriptor.category.flag_count()])
        .collect()
}

const MANDATORY: [Category; 5] = [
    Category::MemoryModel,
    Category::ShaderFloat16Int8,
    Category::Storage16Bit,
    Category::Storage8Bit,
    Category::SubgroupExtendedTypes,
];

#[test]
fn two_advertised_extensions_give_two_optional_descriptors() {
    let mandatory = vec!["VK_KHR_swapchain".to_string()];
    let advertised =
        vec![OptionalExtension::CooperativeMatrix, OptionalExtension::ShaderAtomicFloat];
    let set = ExtendedFeatures::build(resolve_reported(&mandatory, &advertised));
    let found = categories(&set);
    assert_eq!(found.len(), 7);
    assert_eq!(found[..5], MANDATORY);
    assert_eq!(
        found[5..],
        [
            Category::Optional(OptionalExtension::CooperativeMatrix),
            Category::Optional(OptionalExtension::ShaderAtomicFloat),
        ]
    );
    let names = set.extensions();
    assert_eq!(
        names[names.len() - 2..],
        ["VK_KHR_cooperative_matrix".to_string(), "VK_EXT_shader_atomic_float".to_string()]
    );
    assert_eq!(names.len(), 3);
}

#[test]
fn no_advertised_extension_gives_the_five_mandatory_descriptors_in_the_query_chain() {
    let mut set = set_for(&[]);
    assert_eq!(categories(&set), MANDATORY);
    let head = set.link().unwrap();
    assert_eq!(head, ChainHead { index: 0 });
    assert_eq!(set.chain(head), vec![0, 1, 2, 3, 4]);
    assert_eq!(along(&set, head), MANDATORY);
    assert_eq!(set.extensions(), &vec!["VK_KHR_swapchain".to_string()]);
}

#[test]
fn an_optional_descriptor_is_held_exactly_for_a_supported_extension() {
    let table = [
        OptionalExtension::CooperativeMatrix,
        OptionalExtension::ShaderAtomicFloat,
        OptionalExtension::ShaderAtomicFloat2,
        OptionalExtension::ShaderFloatControls2,
    ];
    for mask in 0..16usize {
        let advertised: Vec<OptionalExtension> =
            (0..4).filter(|bit| mask & (1 << bit) != 0).map(|bit| table[bit]).collect();
        let set = set_for(&advertised);
        for extension in table {
            assert_eq!(
                set.descriptor(Category::Optional(extension)).is_some(),
                advertised.contains(&extension)
            );
        }
        assert_eq!(set.descriptors().len(), 5 + advertised.len());
        for category in MANDATORY {
            assert!(set.descriptor(category).is_some());
        }
    }
}

#[test]
fn build_takes_the_supported_extensions_as_a_set() {
    let probe = ProbeResult {
        extensions: vec!["VK_KHR_swapchain".to_string()],
        supported: vec![
            OptionalExtension::ShaderFloatControls2,
            OptionalExtension::CooperativeMatrix,
            OptionalExtension::ShaderFloatControls2,
        ],
    };
    let set = ExtendedFeatures::build(probe);
    assert_eq!(
        categories(&set)[5..],
        [
            Category::Optional(OptionalExtension::CooperativeMatrix),
            Category::Optional(OptionalExtension::ShaderFloatControls2),
        ]
    );
    assert_eq!(set.extensions(), &vec!["VK_KHR_swapchain".to_string()]);
}

#[test]
fn a_fresh_set_is_zeroed_and_without_links() {
    let set = set_for(&[OptionalExtension::ShaderAtomicFloat2]);
    assert!(set.is_detached());
    for descriptor in set.descriptors() {
        assert_eq!(descriptor.flags, vec![false; descriptor.category.flag_count()]);
        assert_eq!(descriptor.link, None);
    }
    let atomic = set.descriptor(Category::Optional(OptionalExtension::ShaderAtomicFloat2)).unwrap();
    assert_eq!(atomic.flags.len(), 12);
    assert_eq!(set.descriptor(Category::Storage16Bit).unwrap().flags, vec![false; 4]);
}

#[test]
fn link_leads_each_descriptor_to_the_next_and_the_last_to_nothing() {
    let mut set =
        set_for(&[OptionalExtension::CooperativeMatrix, OptionalExtension::ShaderFloatControls2]);
    let head = set.link();
    assert_eq!(head, Ok(ChainHead { index: 0 }));
    assert_eq!(links(&set), vec![Some(1), Some(2), Some(3), Some(4), Some(5), Some(6), None]);
    assert!(!set.is_detached());
    assert_eq!(set.chain(ChainHead { index: 0 }), vec![0, 1, 2, 3, 4, 5, 6]);
    assert_eq!(set.chain(ChainHead { index: 4 }), vec![4, 5, 6]);
    assert_eq!(set.chain(ChainHead { index: 6 }), vec![6]);
    assert_eq!(set.chain(ChainHead { index: 7 }), Vec::<usize>::new());
}

#[test]
fn link_is_refused_while_a_descriptor_has_a_link() {
    let mut set = set_for(&[OptionalExtension::CooperativeMatrix]);
    assert!(set.link().is_ok());
    let before = links(&set);
    assert_eq!(set.link(), Err(FeatureError::InvalidChainState));
    assert_eq!(links(&set), before);
    assert_eq!(
        set.add_to_device_create(DeviceCreateInfo { next: None }),
        Err(FeatureError::InvalidChainState)
    );
    assert_eq!(links(&set), before);
}

#[test]
fn zero_pointers_clears_every_link() {
    let mut set =
        set_for(&[OptionalExtension::ShaderAtomicFloat, OptionalExtension::ShaderAtomicFloat2]);
    set.link().unwrap();
    set.zero_pointers();
    assert_eq!(links(&set), vec![None; 7]);
    assert!(set.is_detached());
    assert_eq!(set.chain(ChainHead { index: 0 }), vec![0]);
    assert_eq!(set.chain(ChainHead { index: 3 }), vec![3]);
    set.zero_pointers();
    assert!(set.is_detached());
    assert!(set.link().is_ok());
}

#[test]
fn both_chains_visit_the_same_descriptors() {
    let mut set =
        set_for(&[OptionalExtension::CooperativeMatrix, OptionalExtension::ShaderAtomicFloat]);
    let query_head = set.link().unwrap();
    let query_chain = set.chain(query_head);
    let query_categories = along(&set, query_head);
    let reported = answers_for(&set, true);
    assert_eq!(set.query_features(query_head, &reported), Ok(()));
    set.zero_pointers();
    let info = set.add_to_device_create(DeviceCreateInfo { next: None }).unwrap();
    let create_head = info.next.unwrap();
    assert_eq!(set.chain(create_head), query_chain);
    assert_eq!(along(&set, create_head), query_categories);
    assert_eq!(query_chain, vec![0, 1, 2, 3, 4, 5, 6]);
}

#[test]
fn query_overwrites_the_flags_along_the_chain() {
    let mut set = set_for(&[OptionalExtension::CooperativeMatrix]);
    let head = set.link().unwrap();
    let reported = vec![
        vec![true, false, true],
        vec![false, true],
        vec![true, true, false, false],
        vec![false, false, true],
        vec![true],
        vec![true, false],
    ];
    assert_eq!(set.query_features(head, &reported), Ok(()));
    let flags: Vec<Vec<bool>> = set.descriptors().iter().map(|d| d.flags.clone()).collect();
    assert_eq!(flags, reported);
    assert_eq!(links(&set), vec![Some(1), Some(2), Some(3), Some(4), Some(5), None]);
    assert_eq!(categories(&set)[5], Category::Optional(OptionalExtension::CooperativeMatrix));
}

#[test]
fn query_from_a_later_head_leaves_the_descriptors_before_it() {
    let mut set = set_for(&[]);
    set.link().unwrap();
    let reported = vec![vec![true, true, true], vec![true]];
    assert_eq!(set.query_features(ChainHead { index: 3 }, &reported), Ok(()));
    let flags: Vec<Vec<bool>> = set.descriptors().iter().map(|d| d.flags.clone()).collect();
    assert_eq!(
        flags,
        vec![
            vec![false, false, false],
            vec![false, false],
            vec![false, false, false, false],
            vec![true, true, true],
            vec![true],
        ]
    );
}

#[test]
fn query_on_a_set_without_links_reaches_the_head_alone() {
    let mut set = set_for(&[]);
    assert_eq!(set.query_features(ChainHead { index: 1 }, &vec![vec![true, true]]), Ok(()));
    assert_eq!(set.descriptor(Category::ShaderFloat16Int8).unwrap().flags, vec![true, true]);
    assert_eq!(set.descriptor(Category::MemoryModel).unwrap().flags, vec![false; 3]);
    assert_eq!(set.descriptor(Category::Storage16Bit).unwrap().flags, vec![false; 4]);
    assert_eq!(
        set.query_features(ChainHead { index: 1 }, &vec![vec![true, true], vec![true; 4]]),
        Err(FeatureError::NativeQueryFailure)
    );
}

#[test]
fn query_that_does_not_fit_the_chain_is_refused() {
    let mut set = set_for(&[OptionalExtension::ShaderFloatControls2]);
    let head = set.link().unwrap();
    let fitting = answers_for(&set, true);

    let mut short = fitting.clone();
    short.pop();
    assert_eq!(set.query_features(head, &short), Err(FeatureError::NativeQueryFailure));

    let mut long = fitting.clone();
    long.push(vec![true]);
    assert_eq!(set.query_features(head, &long), Err(FeatureError::NativeQueryFailure));

    let mut misshapen = fitting.clone();
    misshapen[2] = vec![true; 3];
    assert_eq!(set.query_features(head, &misshapen), Err(FeatureError::NativeQueryFailure));

    assert_eq!(
        set.query_features(ChainHead { index: 6 }, &Vec::new()),
        Err(FeatureError::NativeQueryFailure)
    );

    for descriptor in set.descriptors() {
        assert_eq!(descriptor.flags, vec![false; descriptor.category.flag_count()]);
    }
    assert_eq!(links(&set), vec![Some(1), Some(2), Some(3), Some(4), Some(5), None]);
    assert_eq!(set.query_features(head, &fitting), Ok(()));
}

#[test]
fn fill_features_takes_the_answers_and_leaves_no_link() {
    let mut set = set_for(&[OptionalExtension::ShaderAtomicFloat]);
    let mut reported = answers_for(&set, false);
    reported[0] = vec![true, true, false];
    reported[5][11] = true;
    assert_eq!(set.fill_features(&reported), Ok(()));
    assert!(set.is_detached());
    let flags: Vec<Vec<bool>> = set.descriptors().iter().map(|d| d.flags.clone()).collect();
    assert_eq!(flags, reported);
    assert_eq!(set.descriptor(Category::MemoryModel).unwrap().flags, vec![true, true, false]);
    assert_eq!(set.extensions().len(), 2);
}

#[test]
fn fill_features_is_refused_on_a_linked_set() {
    let mut set = set_for(&[]);
    set.link().unwrap();
    let reported = answers_for(&set, true);
    assert_eq!(set.fill_features(&reported), Err(FeatureError::InvalidChainState));
    assert_eq!(links(&set), vec![Some(1), Some(2), Some(3), Some(4), None]);
    for descriptor in set.descriptors() {
        assert_eq!(descriptor.flags, vec![false; descriptor.category.flag_count()]);
    }
}

#[test]
fn fill_features_with_answers_that_do_not_fit_changes_nothing() {
    let mut set = set_for(&[OptionalExtension::CooperativeMatrix]);
    let mut reported = answers_for(&set, true);
    reported.truncate(5);
    assert_eq!(set.fill_features(&reported), Err(FeatureError::NativeQueryFailure));
    assert!(set.is_detached());
    for descriptor in set.descriptors() {
        assert_eq!(descriptor.flags, vec![false; descriptor.category.flag_count()]);
    }
    assert_eq!(set.fill_features(&answers_for(&set, true)), Ok(()));
}

#[test]
fn a_flag_reported_as_unsupported_keeps_its_descriptor_in_the_device_create_chain() {
    let mut set = set_for(&[OptionalExtension::CooperativeMatrix]);
    let extensions_before = set.extensions().clone();
    let mut reported = answers_for(&set, true);
    reported[1] = vec![false, true];
    assert_eq!(set.fill_features(&reported), Ok(()));
    let info = set.add_to_device_create(DeviceCreateInfo { next: None }).unwrap();
    let head = info.next.unwrap();
    let chained = along(&set, head);
    assert!(chained.contains(&Category::ShaderFloat16Int8));
    assert_eq!(
        chained,
        vec![
            Category::MemoryModel,
            Category::ShaderFloat16Int8,
            Category::Storage16Bit,
            Category::Storage8Bit,
            Category::SubgroupExtendedTypes,
            Category::Optional(OptionalExtension::CooperativeMatrix),
        ]
    );
    assert_eq!(set.descriptor(Category::ShaderFloat16Int8).unwrap().flags, vec![false, true]);
    assert_eq!(set.extensions(), &extensions_before);
}

#[test]
fn add_to_device_create_starts_the_chain_at_the_first_descriptor() {
    let mut set = set_for(&[OptionalExtension::ShaderAtomicFloat2]);
    let stale = DeviceCreateInfo { next: Some(ChainHead { index: 3 }) };
    let info = set.add_to_device_create(stale);
    assert_eq!(info, Ok(DeviceCreateInfo { next: Some(ChainHead { index: 0 }) }));
    assert_eq!(links(&set), vec![Some(1), Some(2), Some(3), Some(4), Some(5), None]);
    for descriptor in set.descriptors() {
        assert_eq!(descriptor.flags, vec![false; descriptor.category.flag_count()]);
    }
}

#[test]
fn descriptor_finds_the_descriptor_of_a_category() {
    let set = set_for(&[OptionalExtension::ShaderFloatControls2]);
    let found: &FeatureDescriptor =
        set.descriptor(Category::Optional(OptionalExtension::ShaderFloatControls2)).unwrap();
    assert_eq!(found.category, Category::Optional(OptionalExtension::ShaderFloatControls2));
    assert_eq!(found.flags, vec![false]);
    assert!(set.descriptor(Category::Optional(OptionalExtension::CooperativeMatrix)).is_none());
    assert_eq!(set.descriptor(Category::Storage8Bit).unwrap().category, Category::Storage8Bit);
}

#[test]
fn the_default_set_holds_the_mandatory_descriptors_and_no_extension() {
    let mut set = ExtendedFeatures::default();
    assert_eq!(categories(&set), MANDATORY);
    assert!(set.extensions().is_empty());
    assert!(set.is_detached());
    for descriptor in set.descriptors() {
        assert_eq!(descriptor.flags, vec![false; descriptor.category.flag_count()]);
    }
    assert_eq!(set.link(), Ok(ChainHead { index: 0 }));
}
