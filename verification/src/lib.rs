//! Negotiation of the optional Vulkan device features that a compute backend
//! may rely on when it creates a logical device.
//!
//! A negotiation probes the adapter for the extensions to enable
//! ([`probe`]), builds a set of feature descriptors for what the probe found
//! ([`features`]), links the descriptors into a chain for the feature query,
//! takes in what the query answered, clears the links, and links the same
//! descriptors again into the chain that device creation is given. What the
//! chains of one set have in common is proved in [`chain`], over the model of
//! a set in [`descriptor`].

pub mod adapter;
pub mod chain;
pub mod descriptor;
pub mod features;
pub mod probe;
pub mod registry;

pub use descriptor::FeatureDescriptor;
pub use features::{ChainHead, DeviceCreateInfo, ExtendedFeatures, FeatureError};
pub use probe::ProbeResult;
pub use registry::{Category, OptionalExtension};
