use extended_features::registry::{mandatory, registry, Category, OptionalExtension};

#[test]
fn registry_lists_the_four_extensions_in_order() {
    assert_eq!(
        registry(),
        vec![
            OptionalExtension::CooperativeMatrix,
            OptionalExtension::ShaderAtomicFloat,
            OptionalExtension::ShaderAtomicFloat2,
            OptionalExtension::ShaderFloatControls2,
        ]
    );
}

#[test]
fn mandatory_categories_come_in_chain_order() {
    assert_eq!(
        mandatory(),
        vec![
            Category::MemoryModel,
            Category::ShaderFloat16Int8,
            Category::Storage16Bit,
            Category::Storage8Bit,
            Category::SubgroupExtendedTypes,
        ]
    );
}

#[test]
fn names_are_the_vulkan_extension_names() {
    assert_eq!(OptionalExtension::CooperativeMatrix.name(), "VK_KHR_cooperative_matrix");
    assert_eq!(OptionalExtension::ShaderAtomicFloat.name(), "VK_EXT_shader_atomic_float");
    assert_eq!(OptionalExtension::ShaderAtomicFloat2.name(), "VK_EXT_shader_atomic_float2");
    assert_eq!(OptionalExtension::ShaderFloatControls2.name(), "VK_KHR_shader_float_controls2");
}

#[test]
fn names_agree_with_the_names_that_ash_defines() {
    assert_eq!(
        OptionalExtension::CooperativeMatrix.name().as_bytes(),
        ash::vk::KHR_COOPERATIVE_MATRIX_NAME.to_bytes()
    );
    assert_eq!(
        OptionalExtension::ShaderAtomicFloat.name().as_bytes(),
        ash::vk::EXT_SHADER_ATOMIC_FLOAT_NAME.to_bytes()
    );
    assert_eq!(
        OptionalExtension::ShaderAtomicFloat2.name().as_bytes(),
        ash::vk::EXT_SHADER_ATOMIC_FLOAT2_NAME.to_bytes()
    );
    assert_eq!(
        OptionalExtension::ShaderFloatControls2.name().as_bytes(),
        ash::vk::KHR_SHADER_FLOAT_CONTROLS2_NAME.to_bytes()
    );
}

#[test]
fn names_of_the_registry_are_distinct() {
    let table = registry();
    for (i, first) in table.iter().enumerate() {
        for (j, second) in table.iter().enumerate() {
            assert_eq!(first.name() == second.name(), i == j);
        }
    }
}

#[test]
fn each_category_has_the_flag_count_of_its_descriptor() {
    assert_eq!(Category::MemoryModel.flag_count(), 3);
    assert_eq!(Category::ShaderFloat16Int8.flag_count(), 2);
    assert_eq!(Category::Storage16Bit.flag_count(), 4);
    assert_eq!(Category::Storage8Bit.flag_count(), 3);
    assert_eq!(Category::SubgroupExtendedTypes.flag_count(), 1);
    assert_eq!(Category::Optional(OptionalExtension::CooperativeMatrix).flag_count(), 2);
    assert_eq!(Category::Optional(OptionalExtension::ShaderAtomicFloat).flag_count(), 12);
    assert_eq!(Category::Optional(OptionalExtension::ShaderAtomicFloat2).flag_count(), 12);
    assert_eq!(Category::Optional(OptionalExtension::ShaderFloatControls2).flag_count(), 1);
    assert_eq!(OptionalExtension::CooperativeMatrix.flag_count(), 2);
    assert_eq!(OptionalExtension::ShaderAtomicFloat.flag_count(), 12);
    assert_eq!(OptionalExtension::ShaderAtomicFloat2.flag_count(), 12);
    assert_eq!(OptionalExtension::ShaderFloatControls2.flag_count(), 1);
}
