//! Components and the resources they own.
//!
//! A component wraps one native widget plus an ordered list of
//! [`Dependency`] values: child components, kept-alive callback tokens and
//! cell subscriptions. The unit of teardown is the component: when its last
//! strong reference is released, its dependencies unwind and every
//! subscription among them is canceled.

use vstd::prelude::*;

verus! {

/// A handle identifier: an index into one of the engine's arenas.
pub type Id = usize;

/// A resource owned by a component, released when the component is torn
/// down. A `Subscription` must be canceled on teardown, otherwise the cell
/// could later invoke a binding whose component is gone.
#[derive(Clone, Copy, PartialEq, Eq, Structural)]
pub enum Dependency {
    /// A strong-owned child component.
    Child(Id),
    /// An event-handler token kept alive for exactly the component's
    /// lifetime, so the native callback pointer stays valid.
    Callback(Id),
    /// A subscription to a reactive cell, canceled on teardown.
    Subscription(Id),
}

/// A deferred description of one component: the zero-argument factory of a
/// conditional child, written down as data so that the engine can prove it
/// is instantiated at most once.
pub struct Blueprint {
    /// Tag of the native element to create.
    pub tag: String,
    /// Class string applied at creation; empty means none.
    pub style: String,
    /// Initial text content; empty means none.
    pub text: String,
}

impl Blueprint {
    /// An explicit copy; a derived clone would say nothing of the result.
    pub fn duplicate(&self) -> (b: Blueprint)
        ensures
            b == *self,
    {
        Blueprint { tag: self.tag.clone(), style: self.style.clone(), text: self.text.clone() }
    }
}

/// The lazy conditional-child state machine. `Uninit` holds the blueprint
/// of a subtree that has never been constructed; `Init` holds the built
/// component together with its current visibility. Once built, activation
/// only toggles visibility and never reconstructs.
pub enum Children {
    /// Never constructed; the blueprint is consumed at most once.
    Uninit(Blueprint),
    /// Built and mounted under the owning component's target; `shown`
    /// is the widget's visibility.
    Init { id: Id, shown: bool },
}

impl Children {
    /// An explicit copy; a derived clone would say nothing of the result.
    pub fn duplicate(&self) -> (c: Children)
        ensures
            c == *self,
    {
        match self {
            Children::Uninit(bp) => Children::Uninit(bp.duplicate()),
            Children::Init { id, shown } => Children::Init { id: *id, shown: *shown },
        }
    }

    /// The built component keeps its identity: once `Init` with some id,
    /// any later state is `Init` with the same id (no rebuild, only
    /// visibility changes).
    pub open spec fn same_built(self, later: Children) -> bool {
        match self {
            Children::Init { id, .. } => match later {
                Children::Init { id: id2, .. } => id2 == id,
                Children::Uninit(_) => false,
            },
            Children::Uninit(_) => true,
        }
    }

    /// Visibility demanded of this child by the condition being `on`:
    /// when the condition holds the child is built and shown; when it does
    /// not, a built child is hidden (an unbuilt one stays unbuilt).
    pub open spec fn settled(self, on: bool) -> bool {
        if on {
            match self {
                Children::Init { shown, .. } => shown,
                Children::Uninit(_) => false,
            }
        } else {
            match self {
                Children::Init { shown, .. } => !shown,
                Children::Uninit(_) => true,
            }
        }
    }

    /// True when the subtree is built and currently visible.
    pub open spec fn visible(self) -> bool {
        match self {
            Children::Init { shown, .. } => shown,
            Children::Uninit(_) => false,
        }
    }
}

/// What a subscription does on each emission of its cell.
pub enum SubAction {
    /// Sets the target component's text content to the cell's value.
    SetText { target: Id },
    /// Drives one conditional child of the target from a boolean cell.
    Cond { target: Id, child: Children },
    /// Drives two complementary conditional children of the target in
    /// lockstep: on every emission exactly one of them is activated and
    /// the other deactivated.
    CondPair { target: Id, child_true: Children, child_false: Children },
}

impl SubAction {
    /// An explicit copy; a derived clone would say nothing of the result.
    pub fn duplicate(&self) -> (a: SubAction)
        ensures
            a == *self,
    {
        match self {
            SubAction::SetText { target } => SubAction::SetText { target: *target },
            SubAction::Cond { target, child } => SubAction::Cond {
                target: *target,
                child: child.duplicate(),
            },
            SubAction::CondPair { target, child_true, child_false } => SubAction::CondPair {
                target: *target,
                child_true: child_true.duplicate(),
                child_false: child_false.duplicate(),
            },
        }
    }

    /// How an action may change over time: kind and target are fixed, and
    /// built children keep their identity (a built subtree is never
    /// reconstructed, only toggled).
    pub open spec fn evolves(self, later: SubAction) -> bool {
        match self {
            SubAction::SetText { target } => later == SubAction::SetText { target },
            SubAction::Cond { target, child } => match later {
                SubAction::Cond { target: t2, child: c2 } => t2 == target && child.same_built(c2),
                _ => false,
            },
            SubAction::CondPair { target, child_true, child_false } => match later {
                SubAction::CondPair { target: t2, child_true: ct2, child_false: cf2 } => t2
                    == target && child_true.same_built(ct2) && child_false.same_built(cf2),
                _ => false,
            },
        }
    }
}

/// One live or canceled subscription: the cell it listens to and the
/// action it performs on each emission. A canceled subscription stays in
/// the arena but never acts again.
pub struct SubState {
    /// False once canceled; the cell then never invokes the action again.
    pub active: bool,
    /// The cell subscribed to (an index into the arena matching the
    /// action's kind: text cells for `SetText`, boolean cells otherwise).
    pub cell: Id,
    /// What each emission does.
    pub action: SubAction,
}

/// The state of one component: its native widget's observable attributes
/// and the ordered, append-only list of resources it owns.
pub struct CompState {
    /// Number of outstanding strong references; zero exactly when the
    /// component has been torn down.
    pub strong: usize,
    /// Tag of the native element.
    pub tag: String,
    /// The single class/style attribute.
    pub style: String,
    /// The text content.
    pub text: String,
    /// The component this one was appended under, if any.
    pub parent: Option<Id>,
    /// Owned resources, in attachment order.
    pub deps: Vec<Dependency>,
}

/// A strong, owning reference to a component. Dropping the last strong
/// reference (through [`crate::Ui::drop_strong`]) tears the component
/// down. Deliberately not `Clone`: within the engine's discipline a
/// second strong reference only comes from [`WeakComponent::upgrade`],
/// which counts it. The index is public model state, as all of [`crate::Ui`]
/// is; a handle written by hand rather than issued by an operation steps
/// outside the contracts, which all require the engine's invariant and a
/// live handle.
pub struct Component {
    /// The component's arena index, which is also the identity of its
    /// native widget.
    pub id: Id,
}

/// A non-owning reference to a component: the only form a binding or
/// callback may capture of its own owner, because a strong reference there
/// would make the component un-collectible.
#[derive(Clone, Copy, PartialEq, Eq, Structural)]
pub struct WeakComponent {
    /// The component's arena index.
    pub id: Id,
}

} // verus!
