//! Columnar storage for entities that share one set of component types.
//!
//! An [`Archetype`] groups the entities that have exactly the same component
//! types. It keeps every component type in a densely packed column of one
//! shared byte buffer, next to a sidecar array of entity identifiers: row
//! `i` of every column belongs to the entity of row `i`.
//!
//! Components are stored type-erased. A component type is known by a number,
//! its identity, and described by a [`TypeInfo`]: the identity, the
//! [`Layout`] of its values, and a destructor that is handed the bytes of
//! one value. A value is the bytes of its in-memory representation; the
//! archetype copies them and never looks into them.
//!
//! Rows are born by [`Archetype::allocate`], which leaves their values
//! unset, are written column by column with [`Archetype::put_dynamic`], and
//! die by [`Archetype::remove`], which destructs their values, or by
//! [`Archetype::move_to`], which hands them on. Both fill the gap with the
//! last row, so row indices are not stable. An archetype that is done with
//! is given to [`Archetype::drop`], which destructs what is left in it.
//!
//! Every function is verified against its contract. The contracts speak of
//! the [`ArchetypeView`] of an archetype; what holds of all archetypes is
//! proved in [`laws`]. Two functions in [`offsets`], which look up and
//! insert in a hash map with the Fx hasher, are believed without proof.
pub mod archetype;
pub mod buffer;
pub mod columns;
pub mod laws;
pub mod layout;
pub mod offsets;
pub mod placement;
pub mod type_info;
pub mod view;

pub use archetype::Archetype;
pub use layout::{align, Layout};
pub use type_info::TypeInfo;
pub use view::ArchetypeView;
