//! Bindings between a backend's commands, events, types and constants and a
//! typed client module.

pub mod definition;
pub mod order;
pub mod error;
pub mod type_table;
pub mod commands;
pub mod constants;
pub mod events;
pub mod render;
pub mod builder;

pub use builder::{Builder, Typescript};
pub use commands::{CommandDescriptor, Commands, Dispatcher};
pub use constants::{ConstantEntry, ConstantTable};
pub use definition::{Field, Primitive, TypeDefinition, TypeId};
pub use error::ExportError;
pub use events::{EventDescriptor, Events};
pub use type_table::{NamedType, TypeTable};
