//! What the negotiation asks of a Vulkan adapter. The adapter is the one that
//! `wgpu`'s Vulkan backend exposes; the items of this file are believed, not
//! proved.

use vstd::prelude::*;
use crate::registry::OptionalExtension;

verus! {

/// `wgpu_hal::vulkan::Adapter`: a physical device with what was read of its
/// capabilities when it was exposed. Nothing of its contents is visible here.
#[verifier::external_type_specification]
#[verifier::external_body]
pub struct ExAdapter(wgpu::hal::vulkan::Adapter);

/// `wgpu::Features`: the feature set that the backend asks the device for.
/// Nothing of its contents is visible here.
#[verifier::external_type_specification]
#[verifier::external_body]
pub struct ExFeatures(wgpu::Features);

/// The names of the device extensions that
/// `wgpu_hal::vulkan::Adapter::required_device_extensions` returns for the
/// adapter and the requested features, in the order in which it returns them.
/// It computes them from the capabilities stored in the adapter and from the
/// features alone.
pub uninterp spec fn adapter_required_extensions(
    adapter: wgpu::hal::vulkan::Adapter,
    features: wgpu::Features,
) -> Seq<Seq<char>>;

/// What `supports_extension` answers for an extension name on the
/// capabilities stored in the adapter
/// (`wgpu_hal::vulkan::Adapter::physical_device_capabilities`): whether the
/// name is among the extensions that the device listed when the adapter was
/// exposed.
pub uninterp spec fn adapter_advertises(
    adapter: wgpu::hal::vulkan::Adapter,
    name: Seq<char>,
) -> bool;

/// Calls `wgpu_hal::vulkan::Adapter::required_device_extensions` and hands
/// back the names as strings. The contract claims that the names are those
/// that the call returns, and that the adapter advertises each of them: the
/// call drops every extension for which `supports_extension` answers no.
/// Nothing else is claimed of what the names are.
#[verifier::external_body]
pub(crate) fn required_device_extensions(
    adapter: &wgpu::hal::vulkan::Adapter,
    features: wgpu::Features,
) -> (names: Vec<String>)
    ensures
        names.deep_view() == adapter_required_extensions(*adapter, features),
        forall|i: int| 0 <= i < names.len() ==> adapter_advertises(*adapter, #[trigger] names[i]@),
{
    adapter.required_device_extensions(features).iter().map(
        |name| name.to_string_lossy().into_owned(),
    ).collect()
}

/// Calls `supports_extension` on the adapter's physical device capabilities,
/// with the name that `ash` defines for the extension. The contract claims
/// that the name passed is the extension's name in the registry, and that the
/// answer is the one that the call gives for that name.
#[verifier::external_body]
pub(crate) fn supports_extension(
    adapter: &wgpu::hal::vulkan::Adapter,
    extension: OptionalExtension,
) -> (advertised: bool)
    ensures
        advertised == adapter_advertises(*adapter, extension.name_spec()),
{
    let name = match extension {
        OptionalExtension::CooperativeMatrix => ash::vk::KHR_COOPERATIVE_MATRIX_NAME,
        OptionalExtension::ShaderAtomicFloat => ash::vk::EXT_SHADER_ATOMIC_FLOAT_NAME,
        OptionalExtension::ShaderAtomicFloat2 => ash::vk::EXT_SHADER_ATOMIC_FLOAT2_NAME,
        OptionalExtension::ShaderFloatControls2 => ash::vk::KHR_SHADER_FLOAT_CONTROLS2_NAME,
    };
    adapter.physical_device_capabilities().supports_extension(name)
}

} // verus!
