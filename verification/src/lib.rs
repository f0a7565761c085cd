//! A heterogeneous container: values of any `'static` type, filed by the key
//! of their runtime type, first in, first out within each type.
//!
//! [`Dfb`] is the container. It stores [`Erased`] values, which have forgotten
//! their static type but still answer for the key of their runtime type, and
//! hands them back restored through [`DynBox`]. A [`Kind<T>`] is the key of the
//! type `T` held as a value.
//!
//! The container can be used in three ways. By key: `insert_dyn`,
//! `remove_dyn`, `contains_key`, `get_dyn` and `index` take an erased value or
//! a `TypeId`, and are specified exactly over the model in [`model`]. By kind:
//! `remove_of`, `get_of` and `get_mut_of` take a `Kind<T>` and say exactly when
//! they give a value and what they do to the container. By static type:
//! `insert`, `remove`, `contains`, `get` and `get_mut` take the type as a
//! parameter, ask the running program for its key, and leave the rest to the
//! others; their contracts say what holds whichever key that is. The laws in
//! [`laws`] are proved of the model.

pub mod erased;
pub mod handle;
pub mod laws;
pub mod map;
pub mod model;
mod table;

pub use erased::Erased;
pub use erased::Kind;
pub use handle::DynBox;
pub use map::Dfb;
