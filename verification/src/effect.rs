//! Commands for the native toolkit.
//!
//! The engine never touches the host's widgets itself: every operation
//! that a native toolkit must mirror is appended to an effect stream, in
//! the order it happened, and the unverified host shell applies them.
//! Teardown appends nothing: an orphaned native subtree is left to the
//! host's own collection of unreferenced elements.

use vstd::prelude::*;

use crate::component::Id;

verus! {

/// One native-toolkit command.
#[derive(Clone)]
pub enum Effect {
    /// Create a fresh element of the given tag for widget `id`.
    Create { id: Id, tag: String },
    /// Set widget `id`'s class attribute.
    SetStyle { id: Id, style: String },
    /// Set widget `id`'s text content.
    SetText { id: Id, text: String },
    /// Set widget `id`'s visibility.
    SetHidden { id: Id, hidden: bool },
    /// Append widget `child` under widget `parent`.
    Append { parent: Id, child: Id },
    /// Install the handler with the given token as widget `id`'s click
    /// callback.
    SetOnClick { id: Id, handler: Id },
}

} // verus!
