//! The engine's laws: lifecycle guarantees stated once, over the
//! invariant, and proved for every reachable state.

use vstd::prelude::*;

use crate::component::{Dependency, SubAction};
use crate::ui::Ui;

verus! {

/// A torn-down component owns no live subscription: once a component's
/// last strong reference is gone, every subscription in its dependency
/// list has been canceled, so no binding of it is ever invoked again.
/// Holds of every component in every well-formed engine state, hence
/// transitively of every descendant that teardown reached.
pub proof fn teardown_cancels_subscriptions(ui: Ui, i: int, j: int, s: usize)
    requires
        ui.wf(),
        0 <= i < ui.comps@.len(),
        ui.comps@[i].strong == 0,
        0 <= j < ui.comps@[i].deps@.len(),
        ui.comps@[i].deps@[j] == Dependency::Subscription(s),
    ensures
        s < ui.subs@.len(),
        !ui.subs@[s as int].active,
{
    assert(ui.comp_deps_canceled(i));
}

/// A live single conditional binding whose owner is alive tracks its
/// cell: while the cell is `true` the child is built and visible, while
/// it is `false` nothing of it is visible — and if it was never built,
/// it stays unbuilt (laziness).
pub proof fn cond_tracks_cell(ui: Ui, s: int)
    requires
        ui.wf(),
        0 <= s < ui.subs@.len(),
        ui.subs@[s].active,
        ui.subs@[s].action matches SubAction::Cond { target, .. } && ui.comp_alive(target),
    ensures
        ui.subs@[s].action matches SubAction::Cond { child, .. } ==> child.visible()
            == ui.bool_cells@[ui.subs@[s].cell as int].value,
{
    assert(ui.sub_settled(s));
}

/// Of a live dual conditional binding whose owner is alive, exactly one
/// branch is visible: the branch its boolean cell currently selects is
/// built and shown, and the other is hidden or was never built — never
/// both visible, never neither.
pub proof fn cond_pair_exactly_one_visible(ui: Ui, s: int)
    requires
        ui.wf(),
        0 <= s < ui.subs@.len(),
        ui.subs@[s].active,
        ui.subs@[s].action matches SubAction::CondPair { target, .. } && ui.comp_alive(target),
    ensures
        ui.subs@[s].action matches SubAction::CondPair { child_true, child_false, .. } ==> ({
            let v = ui.bool_cells@[ui.subs@[s].cell as int].value;
            if v {
                child_true.visible() && !child_false.visible()
            } else {
                child_false.visible() && !child_true.visible()
            }
        }),
{
    assert(ui.sub_settled(s));
}

} // verus!
