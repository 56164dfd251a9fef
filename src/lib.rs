//! State, flattening and viewport windowing for a collapsible tree view.
pub mod identifier;
pub mod state;
pub mod tree;
pub mod widget;
pub mod window;

pub use crate::identifier::{
    get_without_leaf as get_identifier_without_leaf, TreeIdentifier, TreeIdentifierVec,
};
pub use crate::state::TreeState;
pub use crate::tree::{flatten, Flattened, TreeItem, TreeItemRender};
pub use crate::widget::Tree;
pub use crate::window::compute_window;
