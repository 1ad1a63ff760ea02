//! What the user interface shows.

pub mod lce;

pub use crate::ui::lce::{DynamicLce, Lce, Loadable, LoadableExt, MappedLoadable};
