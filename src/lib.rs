//! Creation and deletion of families over the network: the wire codec for a
//! family creation request, the registry of actor payload types that the
//! authority decodes against, and the authority's world of families and actors.

pub mod wire;
pub mod registry;
pub mod codec;
pub mod family;
