//! The engine: the single-threaded world of components, cells,
//! subscriptions and pending native-toolkit commands.

use vstd::prelude::*;

use crate::component::{Blueprint, Children, CompState, Component, Dependency, Id, SubAction,
    SubState, WeakComponent};
use crate::effect::Effect;
use crate::style::Style;

verus! {

/// A boolean reactive cell: its current value and the subscriptions it
/// notifies, in subscription order.
pub struct BoolCellState {
    /// The current value.
    pub value: bool,
    /// Indices of the subscriptions listening to this cell.
    pub subs: Vec<Id>,
}

/// A text reactive cell: its current value and the subscriptions it
/// notifies, in subscription order.
pub struct TextCellState {
    /// The current value.
    pub value: String,
    /// Indices of the subscriptions listening to this cell.
    pub subs: Vec<Id>,
}

/// The whole observable state of the component layer. All fields are
/// public model state: operations require [`Ui::wf`] and preserve it, and
/// contracts speak directly of this data.
pub struct Ui {
    /// All components ever created; a component whose `strong` count is
    /// zero has been torn down and its slot is never reused.
    pub comps: Vec<CompState>,
    /// All subscriptions ever made; a canceled one stays, inactive.
    pub subs: Vec<SubState>,
    /// The boolean reactive cells.
    pub bool_cells: Vec<BoolCellState>,
    /// The text reactive cells.
    pub text_cells: Vec<TextCellState>,
    /// Commands for the native toolkit, in order; append-only.
    pub effects: Vec<Effect>,
    /// The one-shot guard of the root component: set by the first
    /// [`Component::root`], after which a second call is ruled out.
    pub root_taken: bool,
}

impl Ui {
    /// Component `i` exists and has not been torn down.
    pub open spec fn comp_alive(self, i: Id) -> bool {
        i < self.comps@.len() && self.comps@[i as int].strong > 0
    }

    /// A dependency's indices lie inside the arenas.
    pub open spec fn dep_ok(self, d: Dependency) -> bool {
        match d {
            Dependency::Child(c) => c < self.comps@.len(),
            Dependency::Callback(_) => true,
            Dependency::Subscription(s) => s < self.subs@.len(),
        }
    }

    /// A built conditional child points inside the component arena.
    pub open spec fn children_ok(self, ch: Children) -> bool {
        match ch {
            Children::Init { id, .. } => id < self.comps@.len(),
            Children::Uninit(_) => true,
        }
    }

    /// Subscription `s` is structurally sound: its target and children lie
    /// inside the arenas, its cell exists and is of the action's kind, and
    /// the cell's notification list carries `s` (so an emission of the
    /// cell reaches it).
    pub open spec fn sub_ok(self, s: int) -> bool {
        let sub = self.subs@[s];
        match sub.action {
            SubAction::SetText { target } => {
                &&& target < self.comps@.len()
                &&& sub.cell < self.text_cells@.len()
                &&& self.text_cells@[sub.cell as int].subs@.contains(s as usize)
            },
            SubAction::Cond { target, child } => {
                &&& target < self.comps@.len()
                &&& self.children_ok(child)
                &&& sub.cell < self.bool_cells@.len()
                &&& self.bool_cells@[sub.cell as int].subs@.contains(s as usize)
            },
            SubAction::CondPair { target, child_true, child_false } => {
                &&& target < self.comps@.len()
                &&& self.children_ok(child_true)
                &&& self.children_ok(child_false)
                &&& sub.cell < self.bool_cells@.len()
                &&& self.bool_cells@[sub.cell as int].subs@.contains(s as usize)
            },
        }
    }

    /// Every subscription in component `i`'s dependency list is canceled.
    pub open spec fn comp_deps_canceled(self, i: int) -> bool {
        forall|j: int|
            0 <= j < self.comps@[i].deps@.len() ==> match #[trigger] self.comps@[i].deps@[j] {
                Dependency::Subscription(s) => !self.subs@[s as int].active,
                _ => true,
            }
    }

    /// A live conditional binding agrees with its cell: the branch the
    /// current value selects is built and shown, the complementary branch
    /// of a dual binding is hidden or unbuilt. Vacuous once the owning
    /// component is gone (the binding is then canceled, or its next
    /// emission is dropped).
    pub open spec fn sub_settled(self, s: int) -> bool {
        let sub = self.subs@[s];
        sub.active ==> match sub.action {
            SubAction::SetText { .. } => true,
            SubAction::Cond { target, child } => self.comp_alive(target) ==> child.settled(
                self.bool_cells@[sub.cell as int].value,
            ),
            SubAction::CondPair { target, child_true, child_false } => self.comp_alive(target)
                ==> child_true.settled(self.bool_cells@[sub.cell as int].value)
                && child_false.settled(!self.bool_cells@[sub.cell as int].value),
        }
    }

    /// The structural half of the invariant, which even a cell emission
    /// in mid-notification preserves:
    /// - every dependency of every component points inside the arenas;
    /// - every subscription is structurally sound ([`Ui::sub_ok`]);
    /// - a torn-down component owns no active subscription.
    pub open spec fn wf_structural(self) -> bool {
        &&& forall|i: int, j: int|
            0 <= i < self.comps@.len() && 0 <= j < self.comps@[i].deps@.len() ==> self.dep_ok(
                #[trigger] self.comps@[i].deps@[j],
            )
        &&& forall|s: int| 0 <= s < self.subs@.len() ==> #[trigger] self.sub_ok(s)
        &&& forall|i: int|
            0 <= i < self.comps@.len() && (#[trigger] self.comps@[i]).strong == 0
                ==> self.comp_deps_canceled(i)
    }

    /// The engine's invariant, established by [`Ui::new`] and preserved by
    /// every operation: the structure is sound ([`Ui::wf_structural`]) and
    /// every live conditional binding agrees with its cell
    /// ([`Ui::sub_settled`]).
    pub open spec fn wf(self) -> bool {
        &&& self.wf_structural()
        &&& forall|s: int| 0 <= s < self.subs@.len() ==> #[trigger] self.sub_settled(s)
    }

    /// `c` is a live strong handle into this engine.
    pub open spec fn valid_handle(self, c: Component) -> bool {
        self.comp_alive(c.id)
    }

    /// The effect stream `b` extends the stream `a`: commands already
    /// handed to the host are never changed or withdrawn.
    pub open spec fn effects_extend(a: Seq<Effect>, b: Seq<Effect>) -> bool {
        a.len() <= b.len() && forall|k: int| 0 <= k < a.len() ==> a[k] == b[k]
    }

    /// The exact commands that building a blueprint under `target` hands
    /// the host: create the element, style and fill it where the blueprint
    /// says so, and mount it.
    pub open spec fn build_effects(bp: Blueprint, id: Id, target: Id) -> Seq<Effect> {
        seq![(Effect::Create { id, tag: bp.tag })] + (if bp.style@.len() > 0 {
            seq![(Effect::SetStyle { id, style: bp.style })]
        } else {
            Seq::<Effect>::empty()
        }) + (if bp.text@.len() > 0 {
            seq![(Effect::SetText { id, text: bp.text })]
        } else {
            Seq::<Effect>::empty()
        }) + seq![(Effect::Append { parent: target, child: id })]
    }

    /// Everything of a component but its reference count.
    pub open spec fn comp_same_but_strong(a: CompState, b: CompState) -> bool {
        &&& a.tag == b.tag
        &&& a.style == b.style
        &&& a.text == b.text
        &&& a.parent == b.parent
        &&& a.deps@ == b.deps@
    }

    /// A fresh, empty engine.
    pub fn new() -> (ui: Ui)
        ensures
            ui.wf(),
            ui.comps@.len() == 0,
            ui.subs@.len() == 0,
            ui.bool_cells@.len() == 0,
            ui.text_cells@.len() == 0,
            ui.effects@.len() == 0,
            !ui.root_taken,
    {
        Ui {
            comps: Vec::new(),
            subs: Vec::new(),
            bool_cells: Vec::new(),
            text_cells: Vec::new(),
            effects: Vec::new(),
            root_taken: false,
        }
    }

    /// Creates a boolean cell holding `value`, with no subscribers yet.
    pub fn new_bool_cell(&mut self, value: bool) -> (cell: Id)
        requires
            old(self).wf(),
        ensures
            final(self).wf(),
            cell == old(self).bool_cells@.len(),
            final(self).bool_cells@.len() == old(self).bool_cells@.len() + 1,
            final(self).bool_cells@[cell as int].value == value,
            final(self).bool_cells@[cell as int].subs@.len() == 0,
            forall|c: int|
                0 <= c < old(self).bool_cells@.len() ==> final(self).bool_cells@[c] == old(self).bool_cells@[c],
            final(self).comps == old(self).comps,
            final(self).subs == old(self).subs,
            final(self).text_cells == old(self).text_cells,
            final(self).effects == old(self).effects,
            final(self).root_taken == old(self).root_taken,
    {
        let cell = self.bool_cells.len();
        self.bool_cells.push(BoolCellState { value, subs: Vec::new() });
        proof {
            assert forall|s: int| 0 <= s < self.subs@.len() implies #[trigger] self.sub_ok(s) by {
                assert(old(self).sub_ok(s));
            }
            assert forall|s: int| 0 <= s < self.subs@.len() implies #[trigger] self.sub_settled(
                s,
            ) by {
                assert(old(self).sub_settled(s));
                assert(old(self).sub_ok(s));
            }
        }
        cell
    }

    /// Creates a text cell holding `value`, with no subscribers yet.
    pub fn new_text_cell(&mut self, value: String) -> (cell: Id)
        requires
            old(self).wf(),
        ensures
            final(self).wf(),
            cell == old(self).text_cells@.len(),
            final(self).text_cells@.len() == old(self).text_cells@.len() + 1,
            final(self).text_cells@[cell as int].value == value,
            final(self).text_cells@[cell as int].subs@.len() == 0,
            forall|c: int|
                0 <= c < old(self).text_cells@.len() ==> final(self).text_cells@[c] == old(self).text_cells@[c],
            final(self).comps == old(self).comps,
            final(self).subs == old(self).subs,
            final(self).bool_cells == old(self).bool_cells,
            final(self).effects == old(self).effects,
            final(self).root_taken == old(self).root_taken,
    {
        let cell = self.text_cells.len();
        self.text_cells.push(TextCellState { value, subs: Vec::new() });
        proof {
            assert forall|s: int| 0 <= s < self.subs@.len() implies #[trigger] self.sub_ok(s) by {
                assert(old(self).sub_ok(s));
            }
            assert forall|s: int| 0 <= s < self.subs@.len() implies #[trigger] self.sub_settled(
                s,
            ) by {
                assert(old(self).sub_settled(s));
                assert(old(self).sub_ok(s));
            }
        }
        cell
    }

    /// The parts of the well-formedness proof shared by operations that
    /// only grow the arenas and never change a component's count, a
    /// subscription's activity, or a cell's value.
    proof fn lemma_wf_growth(pre: Ui, post: Ui)
        requires
            pre.wf(),
            pre.comps@.len() <= post.comps@.len(),
            forall|i: int|
                0 <= i < pre.comps@.len() ==> (#[trigger] post.comps@[i]).strong
                    == pre.comps@[i].strong && post.comps@[i].deps@ == pre.comps@[i].deps@,
            forall|i: int|
                pre.comps@.len() <= i < post.comps@.len() ==> (#[trigger] post.comps@[i]).strong
                    > 0 && post.comps@[i].deps@.len() == 0,
            post.subs == pre.subs,
            post.bool_cells@.len() >= pre.bool_cells@.len(),
            post.text_cells@.len() >= pre.text_cells@.len(),
            forall|c: int|
                0 <= c < pre.bool_cells@.len() ==> #[trigger] post.bool_cells@[c]
                    == pre.bool_cells@[c],
            forall|c: int|
                0 <= c < pre.text_cells@.len() ==> #[trigger] post.text_cells@[c]
                    == pre.text_cells@[c],
        ensures
            post.wf(),
    {
        assert forall|i: int, j: int|
            0 <= i < post.comps@.len() && 0 <= j < post.comps@[i].deps@.len() implies post.dep_ok(
            post.comps@[i].deps@[j],
        ) by {
            if i < pre.comps@.len() {
                assert(pre.dep_ok(pre.comps@[i].deps@[j]));
            }
        }
        assert forall|s: int| 0 <= s < post.subs@.len() implies #[trigger] post.sub_ok(s) by {
            assert(pre.sub_ok(s));
        }
        assert forall|i: int|
            0 <= i < post.comps@.len() && (#[trigger] post.comps@[i]).strong == 0 implies
            post.comp_deps_canceled(i) by {
            assert(pre.comp_deps_canceled(i));
        }
        assert forall|s: int| 0 <= s < post.subs@.len() implies #[trigger] post.sub_settled(s) by {
            assert(pre.sub_settled(s));
            assert(pre.sub_ok(s));
        }
    }

    /// Creates a component from a blueprint and mounts it under `target`:
    /// the one way a conditional child comes into being. The fresh
    /// component carries two strong references, one held by the target's
    /// dependency list and one by the conditional binding that stores it.
    fn build_child(&mut self, bp: Blueprint, target: Id) -> (id: Id)
        requires
            target < old(self).comps@.len(),
            old(self).comps@[target as int].strong > 0,
        ensures
            id == old(self).comps@.len(),
            final(self).comps@.len() == old(self).comps@.len() + 1,
            forall|i: int|
                0 <= i < old(self).comps@.len() && i != target ==> final(self).comps@[i] == old(self).comps@[i],
            final(self).comps@[target as int].deps@ == old(self).comps@[
                target as int
            ].deps@.push(Dependency::Child(id)),
            final(self).comps@[target as int].strong == old(self).comps@[target as int].strong,
            final(self).comps@[target as int].tag == old(self).comps@[target as int].tag,
            final(self).comps@[target as int].style == old(self).comps@[target as int].style,
            final(self).comps@[target as int].text == old(self).comps@[target as int].text,
            final(self).comps@[target as int].parent == old(self).comps@[target as int].parent,
            final(self).comps@[id as int].strong == 2,
            final(self).comps@[id as int].tag == bp.tag,
            final(self).comps@[id as int].style == bp.style,
            final(self).comps@[id as int].text == bp.text,
            final(self).comps@[id as int].parent == Some(target),
            final(self).comps@[id as int].deps@.len() == 0,
            final(self).subs == old(self).subs,
            final(self).bool_cells == old(self).bool_cells,
            final(self).text_cells == old(self).text_cells,
            final(self).root_taken == old(self).root_taken,
            final(self).effects@ == old(self).effects@ + Ui::build_effects(bp, id, target),
    {
        let id = self.comps.len();
        self.effects.push(Effect::Create { id, tag: bp.tag.clone() });
        if !bp.style.as_str().is_empty() {
            self.effects.push(Effect::SetStyle { id, style: bp.style.clone() });
        }
        if !bp.text.as_str().is_empty() {
            self.effects.push(Effect::SetText { id, text: bp.text.clone() });
        }
        self.effects.push(Effect::Append { parent: target, child: id });
        self.comps.push(
            CompState {
                strong: 2,
                tag: bp.tag,
                style: bp.style,
                text: bp.text,
                parent: Some(target),
                deps: Vec::new(),
            },
        );
        let tm = &mut self.comps[target];
        tm.deps.push(Dependency::Child(id));
        proof {
            assert(self.effects@ =~= old(self).effects@ + Ui::build_effects(bp, id, target));
        }
        id
    }

    /// Turns a conditional child on: builds and mounts it the first time,
    /// only reveals it afterwards. When the owning component is already
    /// gone the emission is dropped without a trace. (The invariant keeps
    /// a binding from outliving its owner, so for bindings the engine
    /// made the owner is always alive here; dropping the emission instead
    /// of failing makes the machine total.)
    fn activate(&mut self, ch: Children, target: Id) -> (r: Children)
        ensures
            final(self).subs == old(self).subs,
            final(self).bool_cells == old(self).bool_cells,
            final(self).text_cells == old(self).text_cells,
            final(self).root_taken == old(self).root_taken,
            Ui::effects_extend(old(self).effects@, final(self).effects@),
            final(self).comps@.len() >= old(self).comps@.len(),
            forall|i: int|
                0 <= i < old(self).comps@.len() ==> {
                    &&& (#[trigger] final(self).comps@[i]).strong == old(self).comps@[i].strong
                    &&& final(self).comps@[i].tag == old(self).comps@[i].tag
                    &&& final(self).comps@[i].style == old(self).comps@[i].style
                    &&& final(self).comps@[i].text == old(self).comps@[i].text
                    &&& final(self).comps@[i].parent == old(self).comps@[i].parent
                    &&& final(self).comps@[i].deps@.len() >= old(self).comps@[i].deps@.len()
                    &&& (forall|j: int|
                        0 <= j < old(self).comps@[i].deps@.len() ==> final(self).comps@[i].deps@[j]
                            == old(self).comps@[i].deps@[j])
                },
            forall|i: int|
                old(self).comps@.len() <= i < final(self).comps@.len() ==> (
                #[trigger] final(self).comps@[i]).strong > 0 && final(self).comps@[i].deps@.len()
                    == 0,
            ch.same_built(r),
            !old(self).comp_alive(target) ==> *final(self) == *old(self) && r == ch,
            old(self).comp_alive(target) ==> r.settled(true) && match ch {
                Children::Init { id, shown } => r == (Children::Init { id, shown: true })
                    && final(self).comps == old(self).comps && final(self).effects@ == old(self).effects@.push((Effect::SetHidden { id, hidden: false })),
                Children::Uninit(bp) => {
                    let id = old(self).comps@.len() as usize;
                    &&& r == (Children::Init { id, shown: true })
                    &&& final(self).comps@.len() == old(self).comps@.len() + 1
                    &&& final(self).comps@[id as int].strong == 2
                    &&& final(self).comps@[id as int].tag == bp.tag
                    &&& final(self).comps@[id as int].style == bp.style
                    &&& final(self).comps@[id as int].text == bp.text
                    &&& final(self).comps@[id as int].parent == Some(target)
                    &&& final(self).comps@[target as int].deps@ == old(self).comps@[
                        target as int
                    ].deps@.push(Dependency::Child(id))
                    &&& (forall|i: int|
                        0 <= i < old(self).comps@.len() && i != target ==> final(self).comps@[i]
                            == old(self).comps@[i])
                    &&& final(self).effects@ == old(self).effects@ + Ui::build_effects(
                        bp,
                        id,
                        target,
                    )
                },
            },
    {
        if target < self.comps.len() && self.comps[target].strong > 0 {
            match ch {
                Children::Uninit(bp) => {
                    let id = self.build_child(bp, target);
                    Children::Init { id, shown: true }
                },
                Children::Init { id, shown } => {
                    self.effects.push(Effect::SetHidden { id, hidden: false });
                    Children::Init { id, shown: true }
                },
            }
        } else {
            ch
        }
    }

    /// Turns a conditional child off: hides it if it was ever built, and
    /// does nothing at all otherwise — a subtree whose condition has never
    /// held is never constructed.
    fn deactivate(&mut self, ch: Children) -> (r: Children)
        ensures
            final(self).subs == old(self).subs,
            final(self).bool_cells == old(self).bool_cells,
            final(self).text_cells == old(self).text_cells,
            final(self).root_taken == old(self).root_taken,
            final(self).comps == old(self).comps,
            Ui::effects_extend(old(self).effects@, final(self).effects@),
            ch.same_built(r),
            r.settled(false),
            match ch {
                Children::Uninit(bp) => r == ch && final(self).effects == old(self).effects,
                Children::Init { id, shown } => r == (Children::Init { id, shown: false })
                    && final(self).effects@ == old(self).effects@.push(
                    (Effect::SetHidden { id, hidden: true }),
                ),
            },
    {
        match ch {
            Children::Uninit(bp) => Children::Uninit(bp),
            Children::Init { id, shown } => {
                self.effects.push(Effect::SetHidden { id, hidden: true });
                Children::Init { id, shown: false }
            },
        }
    }

    /// Entry `j` of text cell `cell`'s notification list has been served:
    /// if it names a live text binding of this cell whose component lives,
    /// that component's text already reads `value` in `post`.
    pub open spec fn text_entry_done(pre: Ui, post: Ui, cell: Id, j: int, value: String) -> bool {
        let sid = pre.text_cells@[cell as int].subs@[j];
        sid < pre.subs@.len() ==> match pre.subs@[sid as int].action {
            SubAction::SetText { target } => (pre.subs@[sid as int].active && pre.subs@[
                sid as int
            ].cell == cell && pre.comp_alive(target)) ==> post.comps@[target as int].text == value,
            _ => true,
        }
    }

    /// Writes a new value into a text cell and synchronously notifies
    /// every subscription of the cell, in subscription order: each live
    /// text binding whose component still lives sets that component's
    /// text content; an emission whose component is gone is silently
    /// dropped. Nothing is attached, detached or torn down.
    pub fn set_text_cell(&mut self, cell: Id, value: String)
        requires
            old(self).wf(),
            cell < old(self).text_cells@.len(),
        ensures
            final(self).wf(),
            final(self).text_cells@.len() == old(self).text_cells@.len(),
            forall|c: int|
                0 <= c < old(self).text_cells@.len() && c != cell ==> final(self).text_cells@[c]
                    == old(self).text_cells@[c],
            final(self).text_cells@[cell as int].value == value,
            final(self).text_cells@[cell as int].subs@ == old(self).text_cells@[
                cell as int
            ].subs@,
            final(self).subs == old(self).subs,
            final(self).bool_cells == old(self).bool_cells,
            final(self).root_taken == old(self).root_taken,
            final(self).comps@.len() == old(self).comps@.len(),
            forall|i: int|
                0 <= i < old(self).comps@.len() ==> {
                    &&& (#[trigger] final(self).comps@[i]).strong == old(self).comps@[i].strong
                    &&& final(self).comps@[i].deps@ == old(self).comps@[i].deps@
                    &&& final(self).comps@[i].parent == old(self).comps@[i].parent
                    &&& final(self).comps@[i].tag == old(self).comps@[i].tag
                    &&& final(self).comps@[i].style == old(self).comps@[i].style
                    &&& (final(self).comps@[i].text == old(self).comps@[i].text || final(self).comps@[i].text == value)
                },
            forall|s: int|
                0 <= s < old(self).subs@.len() ==> match (#[trigger] old(self).subs@[s]).action {
                    SubAction::SetText { target } => (old(self).subs@[s].active && old(self).subs@[s].cell == cell && old(self).comp_alive(target)) ==> final(self).comps@[target as int].text == value,
                    _ => true,
                },
            forall|i: int|
                0 <= i < old(self).comps@.len() && final(self).comps@[i].text != old(self).comps@[i].text ==> old(self).comps@[i].strong > 0 && (exists|s: int|
                    0 <= s < old(self).subs@.len() && old(self).subs@[s].active && old(self).subs@[s].cell == cell && old(self).subs@[s].action == (SubAction::SetText {
                        target: i as usize,
                    })),
            Ui::effects_extend(old(self).effects@, final(self).effects@),
    {
        let tc = &mut self.text_cells[cell];
        tc.value = value;
        let mut k: usize = 0;
        while k < self.text_cells[cell].subs.len()
            invariant
                cell < self.text_cells@.len(),
                self.text_cells@.len() == old(self).text_cells@.len(),
                forall|c: int|
                    0 <= c < old(self).text_cells@.len() && c != cell ==> self.text_cells@[c]
                        == old(self).text_cells@[c],
                self.text_cells@[cell as int].value == value,
                self.text_cells@[cell as int].subs@ == old(self).text_cells@[cell as int].subs@,
                self.subs == old(self).subs,
                self.bool_cells == old(self).bool_cells,
                self.root_taken == old(self).root_taken,
                self.comps@.len() == old(self).comps@.len(),
                forall|i: int|
                    0 <= i < old(self).comps@.len() ==> {
                        &&& (#[trigger] self.comps@[i]).strong == old(self).comps@[i].strong
                        &&& self.comps@[i].deps@ == old(self).comps@[i].deps@
                        &&& self.comps@[i].parent == old(self).comps@[i].parent
                        &&& self.comps@[i].tag == old(self).comps@[i].tag
                        &&& self.comps@[i].style == old(self).comps@[i].style
                        &&& (self.comps@[i].text == old(self).comps@[i].text || self.comps@[i].text
                            == value)
                    },
                forall|j: int|
                    0 <= j < k ==> #[trigger] Ui::text_entry_done(
                        *old(self),
                        *self,
                        cell,
                        j,
                        value,
                    ),
                forall|i: int|
                    0 <= i < old(self).comps@.len() && self.comps@[i].text != old(self).comps@[i].text ==> old(self).comps@[i].strong > 0 && (exists|s: int|
                        0 <= s < old(self).subs@.len() && old(self).subs@[s].active && old(self).subs@[s].cell == cell && old(self).subs@[s].action == (SubAction::SetText {
                            target: i as usize,
                        })),
                Ui::effects_extend(old(self).effects@, self.effects@),
            decreases self.text_cells@[cell as int].subs@.len() - k,
        {
            let ghost h: Ui = *self;
            let s = self.text_cells[cell].subs[k];
            if s < self.subs.len() {
                let active = self.subs[s].active;
                let scell = self.subs[s].cell;
                let tgt: Option<Id> = match &self.subs[s].action {
                    SubAction::SetText { target } => Some(*target),
                    _ => None,
                };
                if active && scell == cell {
                    match tgt {
                        Some(t) => {
                            if t < self.comps.len() && self.comps[t].strong > 0 {
                                let txt = self.text_cells[cell].value.clone();
                                self.effects.push(Effect::SetText { id: t, text: txt.clone() });
                                let cm = &mut self.comps[t];
                                cm.text = txt;
                            }
                        },
                        None => {},
                    }
                }
            }
            proof {
                assert forall|j: int| 0 <= j < k + 1 implies #[trigger] Ui::text_entry_done(
                    *old(self),
                    *self,
                    cell,
                    j,
                    value,
                ) by {
                    if j < k {
                        assert(Ui::text_entry_done(*old(self), h, cell, j, value));
                    }
                }
                assert forall|i: int|
                    0 <= i < old(self).comps@.len() && self.comps@[i].text != old(self).comps@[i].text implies old(self).comps@[i].strong > 0 && (exists|s2: int|
                    0 <= s2 < old(self).subs@.len() && old(self).subs@[s2].active && old(self).subs@[s2].cell == cell && old(self).subs@[s2].action == (SubAction::SetText {
                        target: i as usize,
                    })) by {
                    if h.comps@[i].text != old(self).comps@[i].text {
                    } else {
                        assert(self.subs@[s as int].action == (SubAction::SetText {
                            target: i as usize,
                        }));
                    }
                }
            }
            k = k + 1;
        }
        let m = self.subs.len();
        proof {
            assert(m == old(self).subs@.len());
            Ui::lemma_wf_same_structure(*old(self), *self);
            assert forall|s: int|
                0 <= s < old(self).subs@.len() implies match (#[trigger] old(self).subs@[s]).action {
                SubAction::SetText { target } => (old(self).subs@[s].active && old(self).subs@[s].cell == cell && old(self).comp_alive(target)) ==> self.comps@[
                    target as int
                ].text == value,
                _ => true,
            } by {
                assert(old(self).sub_ok(s));
                match old(self).subs@[s].action {
                    SubAction::SetText { target } => {
                        if old(self).subs@[s].active && old(self).subs@[s].cell == cell && old(self).comp_alive(target) {
                            let list = old(self).text_cells@[cell as int].subs@;
                            assert(list.contains(s as usize));
                            let j = choose|j: int| 0 <= j < list.len() && list[j] == s as usize;
                            assert(0 <= j < k as int);
                            assert(Ui::text_entry_done(*old(self), *self, cell, j, value));
                            let sid = old(self).text_cells@[cell as int].subs@[j];
                            assert(old(self).subs@.len() <= usize::MAX);
                            assert(sid == s as usize);
                            assert(sid as int == s);
                            assert(self.comps@[target as int].text == value);
                        }
                    },
                    _ => {},
                }
            }
        }
    }

    /// Entry `j` of boolean cell `cell`'s notification list has been
    /// served: if it names a subscription, that subscription agrees with
    /// its cell again.
    pub open spec fn bool_entry_done(post: Ui, cell: Id, j: int) -> bool {
        let sid = post.bool_cells@[cell as int].subs@[j];
        sid < post.subs@.len() ==> post.sub_settled(sid as int)
    }

    /// Writes a new value into a boolean cell and synchronously notifies
    /// every subscription of the cell, in subscription order. Each live
    /// conditional binding whose component still lives activates the
    /// branch the value selects — building it the first time, only
    /// revealing it afterwards — and deactivates the other in the same
    /// step. A binding whose component is gone drops the emission. Built
    /// children keep their identity: toggling never reconstructs.
    pub fn set_bool_cell(&mut self, cell: Id, value: bool)
        requires
            old(self).wf(),
            cell < old(self).bool_cells@.len(),
        ensures
            final(self).wf(),
            final(self).bool_cells@.len() == old(self).bool_cells@.len(),
            forall|c: int|
                0 <= c < old(self).bool_cells@.len() && c != cell ==> final(self).bool_cells@[c]
                    == old(self).bool_cells@[c],
            final(self).bool_cells@[cell as int].value == value,
            final(self).bool_cells@[cell as int].subs@ == old(self).bool_cells@[
                cell as int
            ].subs@,
            final(self).text_cells == old(self).text_cells,
            final(self).root_taken == old(self).root_taken,
            final(self).subs@.len() == old(self).subs@.len(),
            forall|s: int|
                0 <= s < old(self).subs@.len() ==> {
                    &&& (#[trigger] final(self).subs@[s]).active == old(self).subs@[s].active
                    &&& final(self).subs@[s].cell == old(self).subs@[s].cell
                    &&& old(self).subs@[s].action.evolves(final(self).subs@[s].action)
                },
            forall|s: int|
                0 <= s < old(self).subs@.len() && !value && ((#[trigger] old(self).subs@[s]).action
                    matches SubAction::Cond { child: Children::Uninit(_), .. }) ==> final(self).subs@[s] == old(self).subs@[s],
            final(self).comps@.len() >= old(self).comps@.len(),
            forall|i: int|
                0 <= i < old(self).comps@.len() ==> {
                    &&& (#[trigger] final(self).comps@[i]).strong == old(self).comps@[i].strong
                    &&& final(self).comps@[i].tag == old(self).comps@[i].tag
                    &&& final(self).comps@[i].style == old(self).comps@[i].style
                    &&& final(self).comps@[i].text == old(self).comps@[i].text
                    &&& final(self).comps@[i].parent == old(self).comps@[i].parent
                    &&& final(self).comps@[i].deps@.len() >= old(self).comps@[i].deps@.len()
                    &&& (forall|j: int|
                        0 <= j < old(self).comps@[i].deps@.len() ==> final(self).comps@[i].deps@[j]
                            == old(self).comps@[i].deps@[j])
                },
            Ui::effects_extend(old(self).effects@, final(self).effects@),
    {
        let bc = &mut self.bool_cells[cell];
        bc.value = value;
        proof {
            assert forall|s2: int| 0 <= s2 < self.subs@.len() implies #[trigger] self.sub_ok(
                s2,
            ) by {
                assert(old(self).sub_ok(s2));
            }
            assert forall|i: int, j: int|
                0 <= i < self.comps@.len() && 0 <= j < self.comps@[i].deps@.len() implies
                self.dep_ok(self.comps@[i].deps@[j]) by {
                assert(old(self).dep_ok(old(self).comps@[i].deps@[j]));
            }
            assert forall|i: int|
                0 <= i < self.comps@.len() && (#[trigger] self.comps@[i]).strong == 0 implies
                self.comp_deps_canceled(i) by {
                assert(old(self).comp_deps_canceled(i));
            }
            assert forall|s2: int|
                0 <= s2 < old(self).subs@.len() && (old(self).subs@[s2].cell != cell || old(self).subs@[s2].action matches SubAction::SetText { .. }) implies
                #[trigger] self.sub_settled(s2) by {
                assert(old(self).sub_settled(s2));
                assert(old(self).sub_ok(s2));
            }
        }
        let mut k: usize = 0;
        while k < self.bool_cells[cell].subs.len()
            invariant
                cell < self.bool_cells@.len(),
                self.bool_cells@.len() == old(self).bool_cells@.len(),
                forall|c: int|
                    0 <= c < old(self).bool_cells@.len() && c != cell ==> self.bool_cells@[c]
                        == old(self).bool_cells@[c],
                self.bool_cells@[cell as int].value == value,
                self.bool_cells@[cell as int].subs@ == old(self).bool_cells@[cell as int].subs@,
                self.text_cells == old(self).text_cells,
                self.root_taken == old(self).root_taken,
                self.subs@.len() == old(self).subs@.len(),
                forall|s: int|
                    0 <= s < old(self).subs@.len() ==> {
                        &&& (#[trigger] self.subs@[s]).active == old(self).subs@[s].active
                        &&& self.subs@[s].cell == old(self).subs@[s].cell
                        &&& old(self).subs@[s].action.evolves(self.subs@[s].action)
                    },
                forall|s: int|
                    0 <= s < old(self).subs@.len() && (old(self).subs@[s].cell != cell || old(self).subs@[s].action matches SubAction::SetText { .. } || (!value && old(self).subs@[s].action matches SubAction::Cond {
                        child: Children::Uninit(_),
                        ..
                    })) ==> #[trigger] self.subs@[s] == old(self).subs@[s],
                self.comps@.len() >= old(self).comps@.len(),
                forall|i: int|
                    0 <= i < old(self).comps@.len() ==> {
                        &&& (#[trigger] self.comps@[i]).strong == old(self).comps@[i].strong
                        &&& self.comps@[i].tag == old(self).comps@[i].tag
                        &&& self.comps@[i].style == old(self).comps@[i].style
                        &&& self.comps@[i].text == old(self).comps@[i].text
                        &&& self.comps@[i].parent == old(self).comps@[i].parent
                        &&& self.comps@[i].deps@.len() >= old(self).comps@[i].deps@.len()
                        &&& (forall|j: int|
                            0 <= j < old(self).comps@[i].deps@.len() ==> self.comps@[i].deps@[j]
                                == old(self).comps@[i].deps@[j])
                    },
                self.wf_structural(),
                forall|s: int|
                    0 <= s < old(self).subs@.len() && (old(self).subs@[s].cell != cell || old(self).subs@[s].action matches SubAction::SetText { .. }) ==> #[trigger] self.sub_settled(
                        s,
                    ),
                forall|j: int| 0 <= j < k ==> #[trigger] Ui::bool_entry_done(*self, cell, j),
                Ui::effects_extend(old(self).effects@, self.effects@),
            decreases self.bool_cells@[cell as int].subs@.len() - k,
        {
            let ghost h: Ui = *self;
            let s = self.bool_cells[cell].subs[k];
            if s < self.subs.len() {
                let active = self.subs[s].active;
                let scell = self.subs[s].cell;
                if active && scell == cell {
                    let a = self.subs[s].action.duplicate();
                    match a {
                        SubAction::SetText { .. } => {},
                        SubAction::Cond { target, child } => {
                            let ch2 = if value {
                                self.activate(child, target)
                            } else {
                                self.deactivate(child)
                            };
                            let sm = &mut self.subs[s];
                            sm.action = SubAction::Cond { target, child: ch2 };
                            proof {
                                assert(h.sub_ok(s as int));
                                assert(self.subs@[s as int].active);
                                assert(self.sub_settled(s as int));
                                match h.subs@[s as int].action {
                                    SubAction::Cond { child: Children::Uninit(_), .. } => {
                                        if !value {
                                            assert(self.subs@[s as int] == h.subs@[s as int]);
                                        }
                                    },
                                    _ => {},
                                }
                            }
                        },
                        SubAction::CondPair { target, child_true, child_false } => {
                            let ct2: Children;
                            let cf2: Children;
                            if value {
                                ct2 = self.activate(child_true, target);
                                cf2 = self.deactivate(child_false);
                            } else {
                                ct2 = self.deactivate(child_true);
                                cf2 = self.activate(child_false, target);
                            }
                            let sm = &mut self.subs[s];
                            sm.action = SubAction::CondPair {
                                target,
                                child_true: ct2,
                                child_false: cf2,
                            };
                            proof {
                                assert(h.sub_ok(s as int));
                                assert(self.subs@[s as int].active);
                                assert(self.sub_settled(s as int));
                            }
                        },
                    }
                }
            }
            proof {
                assert(h.wf_structural());
                assert forall|s2: int| 0 <= s2 < self.subs@.len() implies #[trigger] self.sub_ok(
                    s2,
                ) by {
                    assert(h.sub_ok(s2));
                }
                assert forall|i: int, j: int|
                    0 <= i < self.comps@.len() && 0 <= j < self.comps@[i].deps@.len() implies
                    self.dep_ok(self.comps@[i].deps@[j]) by {
                    if i < h.comps@.len() && j < h.comps@[i].deps@.len() {
                        assert(h.dep_ok(h.comps@[i].deps@[j]));
                    }
                }
                assert forall|i: int|
                    0 <= i < self.comps@.len() && (#[trigger] self.comps@[i]).strong == 0 implies
                    self.comp_deps_canceled(i) by {
                    assert(i < h.comps@.len());
                    assert(h.comp_deps_canceled(i));
                    assert forall|j: int| 0 <= j < self.comps@[i].deps@.len() implies match (
                    #[trigger] self.comps@[i].deps@[j]) {
                        Dependency::Subscription(sd) => !self.subs@[sd as int].active,
                        _ => true,
                    } by {
                        assert(h.dep_ok(h.comps@[i].deps@[j]));
                    }
                }
                assert forall|s2: int|
                    0 <= s2 < old(self).subs@.len() && (old(self).subs@[s2].cell != cell || old(self).subs@[s2].action matches SubAction::SetText { .. }) implies
                    #[trigger] self.sub_settled(s2) by {
                    assert(h.sub_settled(s2));
                    assert(self.subs@[s2] == h.subs@[s2]);
                    assert(self.bool_cells == h.bool_cells);
                    assert(h.sub_ok(s2));
                }
                assert forall|j: int| 0 <= j < k + 1 implies #[trigger] Ui::bool_entry_done(
                    *self,
                    cell,
                    j,
                ) by {
                    let sid = self.bool_cells@[cell as int].subs@[j];
                    if sid < self.subs@.len() {
                        assert(self.bool_cells == h.bool_cells);
                        if j < k {
                            assert(Ui::bool_entry_done(h, cell, j));
                        }
                        if self.subs@[sid as int] == h.subs@[sid as int] {
                            assert(h.sub_ok(sid as int));
                            if j == k {
                                assert(sid == s);
                                if h.subs@[sid as int].active && h.subs@[sid as int].cell == cell {
                                    match h.subs@[sid as int].action {
                                        SubAction::SetText { .. } => {
                                            assert(old(self).subs@[sid as int].action
                                                matches SubAction::SetText { .. });
                                            assert(h.sub_settled(sid as int));
                                        },
                                        _ => {
                                            assert(self.sub_settled(sid as int));
                                        },
                                    }
                                } else {
                                    if h.subs@[sid as int].active {
                                        assert(old(self).subs@[sid as int].cell != cell);
                                        assert(h.sub_settled(sid as int));
                                    }
                                }
                            }
                        } else {
                            assert(self.sub_settled(sid as int));
                        }
                    }
                }
            }
            k = k + 1;
        }
        let m = self.subs.len();
        proof {
            assert(m == old(self).subs@.len());
            assert forall|s: int| 0 <= s < self.subs@.len() implies #[trigger] self.sub_settled(
                s,
            ) by {
                if old(self).subs@[s].cell == cell && !(old(self).subs@[s].action
                    matches SubAction::SetText { .. }) {
                    assert(old(self).sub_ok(s));
                    let list = old(self).bool_cells@[cell as int].subs@;
                    assert(list.contains(s as usize));
                    let j = choose|j: int| 0 <= j < list.len() && list[j] == s as usize;
                    assert(0 <= j < k as int);
                    assert(Ui::bool_entry_done(*self, cell, j));
                    assert(old(self).subs@.len() <= usize::MAX);
                    let sid = self.bool_cells@[cell as int].subs@[j];
                    assert(sid == s as usize);
                    assert(sid as int == s);
                }
            }
        }
    }

    /// The strong references outstanding over the whole arena: the measure
    /// that teardown strictly consumes.
    pub open spec fn sum_strong(s: Seq<CompState>) -> nat
        decreases s.len(),
    {
        if s.len() == 0 {
            0
        } else {
            (Self::sum_strong(s.drop_last()) + s.last().strong) as nat
        }
    }

    /// Changing one component changes the total by the change of its count.
    proof fn lemma_sum_strong_update(s: Seq<CompState>, i: int, v: CompState)
        requires
            0 <= i < s.len(),
        ensures
            Self::sum_strong(s.update(i, v)) + s[i].strong == Self::sum_strong(s) + v.strong,
        decreases s.len(),
    {
        if i == s.len() - 1 {
            assert(s.update(i, v).drop_last() =~= s.drop_last());
            assert(s.update(i, v).last() == v);
        } else {
            assert(s.update(i, v).drop_last() =~= s.drop_last().update(i, v));
            assert(s.update(i, v).last() == s.last());
            Self::lemma_sum_strong_update(s.drop_last(), i, v);
        }
    }

    /// Releases one strong reference to component `x`. If it was the last,
    /// the component is torn down on the spot: every subscription in its
    /// dependency list is canceled, and each strong reference the list
    /// holds — owned children, and children stored inside its conditional
    /// bindings — is queued on `stack` to be released in turn. Teardown
    /// emits no effect: the orphaned native subtree is left to the host's
    /// collection of unreferenced elements.
    fn release(&mut self, x: Id, stack: &mut Vec<Id>)
        requires
            old(self).wf(),
        ensures
            final(self).wf(),
            final(self).comps@.len() == old(self).comps@.len(),
            final(self).bool_cells == old(self).bool_cells,
            final(self).text_cells == old(self).text_cells,
            final(self).effects == old(self).effects,
            final(self).root_taken == old(self).root_taken,
            final(self).subs@.len() == old(self).subs@.len(),
            forall|s: int|
                0 <= s < old(self).subs@.len() ==> {
                    &&& (#[trigger] final(self).subs@[s]).cell == old(self).subs@[s].cell
                    &&& final(self).subs@[s].action == old(self).subs@[s].action
                    &&& (final(self).subs@[s].active ==> old(self).subs@[s].active)
                },
            forall|i: int|
                0 <= i < old(self).comps@.len() ==> Ui::comp_same_but_strong(
                    #[trigger] final(self).comps@[i],
                    old(self).comps@[i],
                ) && final(self).comps@[i].strong <= old(self).comps@[i].strong,
            (x < old(self).comps@.len() && old(self).comps@[x as int].strong > 0) ==> {
                &&& final(self).comps@[x as int].strong == old(self).comps@[x as int].strong - 1
                &&& (forall|i: int|
                    0 <= i < old(self).comps@.len() && i != x ==> (
                    #[trigger] final(self).comps@[i]).strong == old(self).comps@[i].strong)
                &&& Ui::sum_strong(final(self).comps@) < Ui::sum_strong(old(self).comps@)
            },
            !(x < old(self).comps@.len() && old(self).comps@[x as int].strong > 0) ==> *final(self)
                == *old(self) && final(stack)@ == old(stack)@,
            old(stack)@.len() <= final(stack)@.len(),
            forall|i: int| 0 <= i < old(stack)@.len() ==> old(stack)@[i] == final(stack)@[i],
            (x < old(self).comps@.len() && old(self).comps@[x as int].strong == 1)
                ==> forall|j: int|
                0 <= j < old(self).comps@[x as int].deps@.len() ==> match (#[trigger] old(self).comps@[x as int].deps@[j]) {
                    Dependency::Child(d) => final(stack)@.contains(d),
                    _ => true,
                },
            (x < old(self).comps@.len() && old(self).comps@[x as int].strong == 1)
                ==> forall|j: int|
                0 <= j < old(self).comps@[x as int].deps@.len() ==> match (#[trigger] old(self).comps@[x as int].deps@[j]) {
                    Dependency::Subscription(sd) => sd < old(self).subs@.len()
                        ==> stack_holds_sub_children(
                        old(self).subs@[sd as int].action,
                        final(stack)@,
                    ),
                    _ => true,
                },
            (x < old(self).comps@.len() && old(self).comps@[x as int].strong > 1) ==> final(stack)@
                == old(stack)@,
            forall|k: int|
                old(stack)@.len() <= k < final(stack)@.len() ==> ref_edge(
                    *old(self),
                    x as int,
                    #[trigger] final(stack)@[k],
                ),
            forall|s: int|
                0 <= s < old(self).subs@.len() && old(self).subs@[s].active && !(
                #[trigger] final(self).subs@[s]).active ==> x < old(self).comps@.len() && old(self).comps@[x as int].strong == 1 && old(self).comps@[x as int].deps@.contains(
                    Dependency::Subscription(s as usize),
                ),
    {
        if x < self.comps.len() && self.comps[x].strong > 0 {
            let cm = &mut self.comps[x];
            cm.strong = cm.strong - 1;
            proof {
                Self::lemma_sum_strong_update(
                    old(self).comps@,
                    x as int,
                    self.comps@[x as int],
                );
                assert(self.comps@ =~= old(self).comps@.update(x as int, self.comps@[x as int]));
            }
            let dead = self.comps[x].strong == 0;
            proof {
                assert forall|s2: int| 0 <= s2 < self.subs@.len() implies #[trigger] self.sub_ok(
                    s2,
                ) by {
                    assert(old(self).sub_ok(s2));
                }
                assert forall|i: int, j: int|
                    0 <= i < self.comps@.len() && 0 <= j < self.comps@[i].deps@.len() implies
                    self.dep_ok(self.comps@[i].deps@[j]) by {
                    assert(old(self).dep_ok(old(self).comps@[i].deps@[j]));
                }
                assert forall|i: int|
                    0 <= i < self.comps@.len() && i != x && (#[trigger] self.comps@[i]).strong == 0
                        implies self.comp_deps_canceled(i) by {
                    assert(old(self).comp_deps_canceled(i));
                }
                assert forall|s2: int| 0 <= s2 < self.subs@.len() implies #[trigger] self.sub_settled(
                    s2,
                ) by {
                    assert(old(self).sub_settled(s2));
                    assert(old(self).sub_ok(s2));
                }
            }
            if dead {
                let ghost mid: Ui = *self;
                let mut j: usize = 0;
                while j < self.comps[x].deps.len()
                    invariant
                        x < self.comps@.len(),
                        x < old(self).comps@.len(),
                        self.comps == mid.comps,
                        self.bool_cells == mid.bool_cells,
                        self.text_cells == mid.text_cells,
                        self.effects == mid.effects,
                        self.root_taken == mid.root_taken,
                        self.subs@.len() == mid.subs@.len(),
                        self.comps@[x as int].strong == 0,
                        forall|s: int|
                            0 <= s < mid.subs@.len() ==> {
                                &&& (#[trigger] self.subs@[s]).cell == mid.subs@[s].cell
                                &&& self.subs@[s].action == mid.subs@[s].action
                                &&& (self.subs@[s].active ==> mid.subs@[s].active)
                            },
                        forall|s2: int| 0 <= s2 < self.subs@.len() ==> #[trigger] self.sub_ok(s2),
                        forall|i2: int, j2: int|
                            0 <= i2 < self.comps@.len() && 0 <= j2 < self.comps@[i2].deps@.len()
                                ==> self.dep_ok(#[trigger] self.comps@[i2].deps@[j2]),
                        forall|i2: int|
                            0 <= i2 < self.comps@.len() && i2 != x && (
                            #[trigger] self.comps@[i2]).strong == 0 ==> self.comp_deps_canceled(
                                i2,
                            ),
                        forall|s2: int|
                            0 <= s2 < self.subs@.len() ==> #[trigger] self.sub_settled(s2),
                        forall|j2: int|
                            0 <= j2 < j ==> match #[trigger] self.comps@[x as int].deps@[j2] {
                                Dependency::Subscription(sd) => !self.subs@[sd as int].active,
                                _ => true,
                            },
                        old(stack)@.len() <= stack@.len(),
                        forall|i: int| 0 <= i < old(stack)@.len() ==> old(stack)@[i] == stack@[i],
                        forall|j2: int|
                            0 <= j2 < j ==> match #[trigger] self.comps@[x as int].deps@[j2] {
                                Dependency::Child(d) => stack@.contains(d),
                                _ => true,
                            },
                        forall|j2: int|
                            0 <= j2 < j ==> match #[trigger] self.comps@[x as int].deps@[j2] {
                                Dependency::Subscription(sd) => sd < self.subs@.len()
                                    ==> stack_holds_sub_children(
                                    self.subs@[sd as int].action,
                                    stack@,
                                ),
                                _ => true,
                            },
                        forall|k: int|
                            old(stack)@.len() <= k < stack@.len() ==> ref_edge(
                                *old(self),
                                x as int,
                                #[trigger] stack@[k],
                            ),
                        forall|s: int|
                            0 <= s < old(self).subs@.len() && old(self).subs@[s].active && !(
                            #[trigger] self.subs@[s]).active ==> old(self).comps@[
                                x as int
                            ].deps@.contains(Dependency::Subscription(s as usize)),
                        self.comps@[x as int].deps@ == old(self).comps@[x as int].deps@,
                        old(self).subs@.len() == self.subs@.len(),
                        forall|s: int|
                            0 <= s < old(self).subs@.len() ==> (#[trigger] self.subs@[s]).action
                                == old(self).subs@[s].action,
                    decreases self.comps@[x as int].deps@.len() - j,
                {
                    let ghost h: Ui = *self;
                    let ghost hst: Seq<Id> = stack@;
                    let d = self.comps[x].deps[j];
                    match d {
                        Dependency::Child(c) => {
                            stack.push(c);
                            proof {
                                assert(old(self).comps@[x as int].deps@[j as int]
                                    == Dependency::Child(c));
                                assert(ref_edge(*old(self), x as int, c));
                            }
                        },
                        Dependency::Callback(_) => {},
                        Dependency::Subscription(sd) => {
                            if sd < self.subs.len() {
                                match &self.subs[sd].action {
                                    SubAction::SetText { .. } => {},
                                    SubAction::Cond { child, .. } => {
                                        match child {
                                            Children::Init { id, .. } => {
                                                stack.push(*id);
                                            },
                                            Children::Uninit(_) => {},
                                        }
                                    },
                                    SubAction::CondPair { child_true, child_false, .. } => {
                                        match child_true {
                                            Children::Init { id, .. } => {
                                                stack.push(*id);
                                            },
                                            Children::Uninit(_) => {},
                                        }
                                        match child_false {
                                            Children::Init { id, .. } => {
                                                stack.push(*id);
                                            },
                                            Children::Uninit(_) => {},
                                        }
                                    },
                                }
                                let sm = &mut self.subs[sd];
                                sm.active = false;
                                proof {
                                    match h.subs@[sd as int].action {
                                        SubAction::SetText { .. } => {},
                                        SubAction::Cond { child, .. } => {
                                            match child {
                                                Children::Init { id, .. } => {
                                                    assert(stack@[hst.len() as int] == id);
                                                    assert(stack@.contains(id));
                                                },
                                                Children::Uninit(_) => {},
                                            }
                                        },
                                        SubAction::CondPair { child_true, child_false, .. } => {
                                            match child_true {
                                                Children::Init { id, .. } => {
                                                    assert(stack@[hst.len() as int] == id);
                                                    assert(stack@.contains(id));
                                                },
                                                Children::Uninit(_) => {},
                                            }
                                            match child_false {
                                                Children::Init { id, .. } => {
                                                    assert(stack@[stack@.len() - 1] == id);
                                                    assert(stack@.contains(id));
                                                },
                                                Children::Uninit(_) => {},
                                            }
                                        },
                                    }
                                    assert(stack_holds_sub_children(
                                        h.subs@[sd as int].action,
                                        stack@,
                                    ));
                                    assert(old(self).comps@[x as int].deps@[j as int]
                                        == Dependency::Subscription(sd));
                                    assert(old(self).comps@[x as int].deps@.contains(
                                        Dependency::Subscription(sd),
                                    ));
                                    assert(h.subs@[sd as int].action == old(self).subs@[
                                        sd as int
                                    ].action);
                                    assert forall|k: int|
                                        hst.len() <= k < stack@.len() implies ref_edge(
                                        *old(self),
                                        x as int,
                                        #[trigger] stack@[k],
                                    ) by {
                                        match old(self).subs@[sd as int].action {
                                            SubAction::SetText { .. } => {},
                                            SubAction::Cond { child, .. } => {
                                                match child {
                                                    Children::Init { id, .. } => {
                                                        assert(stack@[k] == id);
                                                    },
                                                    Children::Uninit(_) => {},
                                                }
                                            },
                                            SubAction::CondPair {
                                                child_true,
                                                child_false,
                                                ..
                                            } => {
                                                match child_true {
                                                    Children::Init { id, .. } => {
                                                        if k == hst.len() as int {
                                                            assert(stack@[k] == id);
                                                        }
                                                    },
                                                    Children::Uninit(_) => {},
                                                }
                                                match child_false {
                                                    Children::Init { id, .. } => {
                                                        if k == stack@.len() - 1 {
                                                            assert(stack@[k] == id);
                                                        }
                                                    },
                                                    Children::Uninit(_) => {},
                                                }
                                            },
                                        }
                                        assert(holds_built(
                                            old(self).subs@[sd as int].action,
                                            stack@[k],
                                        ));
                                    }
                                }
                            }
                        },
                    }
                    proof {
                        assert forall|j2: int|
                            0 <= j2 < j + 1 implies match #[trigger] self.comps@[x as int].deps@[j2] {
                            Dependency::Subscription(sd2) => sd2 < self.subs@.len()
                                ==> stack_holds_sub_children(
                                self.subs@[sd2 as int].action,
                                stack@,
                            ),
                            _ => true,
                        } by {
                            match self.comps@[x as int].deps@[j2] {
                                Dependency::Subscription(sd2) => {
                                    if sd2 < self.subs@.len() && j2 < j {
                                        assert(stack_holds_sub_children(
                                            h.subs@[sd2 as int].action,
                                            hst,
                                        ));
                                        lemma_stack_holds_extend(
                                            h.subs@[sd2 as int].action,
                                            hst,
                                            stack@,
                                        );
                                        assert(self.subs@[sd2 as int].action == h.subs@[
                                            sd2 as int
                                        ].action);
                                    }
                                },
                                _ => {},
                            }
                        }
                        assert forall|j2: int|
                            0 <= j2 < j + 1 implies match #[trigger] self.comps@[x as int].deps@[j2] {
                            Dependency::Child(d2) => stack@.contains(d2),
                            _ => true,
                        } by {
                            match self.comps@[x as int].deps@[j2] {
                                Dependency::Child(d2) => {
                                    if j2 == j {
                                        assert(stack@[stack@.len() - 1] == d2);
                                        assert(stack@.contains(d2));
                                    } else {
                                        assert(hst.contains(d2));
                                        lemma_extend_contains(hst, stack@, d2);
                                    }
                                },
                                _ => {},
                            }
                        }
                        assert forall|s2: int|
                            0 <= s2 < self.subs@.len() implies #[trigger] self.sub_ok(s2) by {
                            assert(h.sub_ok(s2));
                        }
                        assert forall|s2: int|
                            0 <= s2 < self.subs@.len() implies #[trigger] self.sub_settled(
                            s2,
                        ) by {
                            assert(h.sub_settled(s2));
                        }
                        assert forall|i2: int|
                            0 <= i2 < self.comps@.len() && i2 != x && (
                            #[trigger] self.comps@[i2]).strong == 0 implies
                            self.comp_deps_canceled(i2) by {
                            assert(h.comp_deps_canceled(i2));
                            assert forall|j2: int|
                                0 <= j2 < self.comps@[i2].deps@.len() implies match (
                            #[trigger] self.comps@[i2].deps@[j2]) {
                                Dependency::Subscription(sd2) => !self.subs@[sd2 as int].active,
                                _ => true,
                            } by {
                                assert(h.dep_ok(h.comps@[i2].deps@[j2]));
                            }
                        }
                    }
                    j = j + 1;
                }
                proof {
                    assert(self.comp_deps_canceled(x as int));
                }
            }
        }
    }

    /// Releases the caller's strong reference to the component: the
    /// engine's only teardown entry. If this was the last strong
    /// reference, the component dies here and now: its subscriptions are
    /// canceled and the strong references it held unwind depth-first
    /// through its descendants, each dying in turn when its own last
    /// reference goes. Counts only fall, nothing new is created, no
    /// canceled subscription comes back, and no effect is emitted.
    #[verifier::rlimit(100)]
    pub fn drop_strong(&mut self, c: Component)
        requires
            old(self).wf(),
        ensures
            final(self).wf(),
            final(self).comps@.len() == old(self).comps@.len(),
            final(self).bool_cells == old(self).bool_cells,
            final(self).text_cells == old(self).text_cells,
            final(self).effects == old(self).effects,
            final(self).root_taken == old(self).root_taken,
            final(self).subs@.len() == old(self).subs@.len(),
            forall|s: int|
                0 <= s < old(self).subs@.len() ==> {
                    &&& (#[trigger] final(self).subs@[s]).cell == old(self).subs@[s].cell
                    &&& final(self).subs@[s].action == old(self).subs@[s].action
                    &&& (final(self).subs@[s].active ==> old(self).subs@[s].active)
                },
            forall|i: int|
                0 <= i < old(self).comps@.len() ==> Ui::comp_same_but_strong(
                    #[trigger] final(self).comps@[i],
                    old(self).comps@[i],
                ) && final(self).comps@[i].strong <= old(self).comps@[i].strong,
            (c.id < old(self).comps@.len() && old(self).comps@[c.id as int].strong == 1) ==> final(self).comps@[c.id as int].strong == 0,
            (c.id < old(self).comps@.len() && old(self).comps@[c.id as int].strong > 0) ==> final(self).comps@[c.id as int].strong < old(self).comps@[c.id as int].strong,
            forall|s: int|
                0 <= s < old(self).subs@.len() && old(self).subs@[s].active && !(
                #[trigger] final(self).subs@[s]).active ==> canceled_by_dead(
                    *old(self),
                    *final(self),
                    s,
                ),
            forall|d: int|
                0 <= d < old(self).comps@.len() && (#[trigger] final(self).comps@[d]).strong
                    < old(self).comps@[d].strong ==> d == c.id as int || released_from_dead(
                    *old(self),
                    *final(self),
                    d as usize,
                ),
            forall|i: int|
                #[trigger] died(*old(self), *final(self), i) ==> comp_released(
                    *old(self),
                    *final(self),
                    i,
                ),
    {
        let mut stack: Vec<Id> = Vec::new();
        self.release(c.id, &mut stack);
        proof {
            assert forall|i: int| #[trigger] died(*old(self), *self, i) implies i == c.id as int by {
                if i != c.id as int {
                    assert(self.comps@[i].strong == old(self).comps@[i].strong);
                }
            }
            assert forall|s2: int|
                0 <= s2 < old(self).subs@.len() && old(self).subs@[s2].active && !(
                #[trigger] self.subs@[s2]).active implies canceled_by_dead(
                *old(self),
                *self,
                s2,
            ) by {
                assert(died(*old(self), *self, c.id as int));
            }
            assert forall|d: int|
                0 <= d < old(self).comps@.len() && (#[trigger] self.comps@[d]).strong < old(self).comps@[d].strong implies d == c.id as int || released_from_dead(
                *old(self),
                *self,
                d as usize,
            ) by {
                if d != c.id as int {
                    assert(self.comps@[d].strong == old(self).comps@[d].strong);
                }
            }
            assert forall|k: int|
                0 <= k < stack@.len() implies released_from_dead(
                *old(self),
                *self,
                #[trigger] stack@[k],
            ) by {
                if c.id < old(self).comps@.len() && old(self).comps@[c.id as int].strong == 1 {
                    assert(died(*old(self), *self, c.id as int));
                    assert(ref_edge(*old(self), c.id as int, stack@[k]));
                } else {
                    assert(stack@.len() == 0);
                }
            }
            assert forall|i: int|
                #[trigger] died(*old(self), *self, i) implies comp_released_pending(
                *old(self),
                *self,
                i,
                stack@,
            ) by {
                assert(i == c.id as int);
                assert forall|j: int|
                    0 <= j < old(self).comps@[i].deps@.len() implies match (#[trigger] old(self).comps@[i].deps@[j]) {
                    Dependency::Child(d) => old(self).comps@[d as int].strong == 0
                        || self.comps@[d as int].strong < old(self).comps@[d as int].strong
                        || stack@.contains(d),
                    Dependency::Subscription(sd) => sd < old(self).subs@.len()
                        ==> sub_children_pending(
                        *old(self),
                        *self,
                        old(self).subs@[sd as int].action,
                        stack@,
                    ),
                    Dependency::Callback(_) => true,
                } by {
                    match old(self).comps@[i].deps@[j] {
                        Dependency::Child(d) => {
                            assert(stack@.contains(d));
                        },
                        Dependency::Subscription(sd) => {
                            if sd < old(self).subs@.len() {
                                assert(stack_holds_sub_children(
                                    old(self).subs@[sd as int].action,
                                    stack@,
                                ));
                            }
                        },
                        Dependency::Callback(_) => {},
                    }
                }
            }
        }
        while stack.len() > 0
            invariant
                old(self).wf(),
                self.wf(),
                self.comps@.len() == old(self).comps@.len(),
                self.bool_cells == old(self).bool_cells,
                self.text_cells == old(self).text_cells,
                self.effects == old(self).effects,
                self.root_taken == old(self).root_taken,
                self.subs@.len() == old(self).subs@.len(),
                forall|s: int|
                    0 <= s < old(self).subs@.len() ==> {
                        &&& (#[trigger] self.subs@[s]).cell == old(self).subs@[s].cell
                        &&& self.subs@[s].action == old(self).subs@[s].action
                        &&& (self.subs@[s].active ==> old(self).subs@[s].active)
                    },
                forall|i: int|
                    0 <= i < old(self).comps@.len() ==> Ui::comp_same_but_strong(
                        #[trigger] self.comps@[i],
                        old(self).comps@[i],
                    ) && self.comps@[i].strong <= old(self).comps@[i].strong,
                (c.id < old(self).comps@.len() && old(self).comps@[c.id as int].strong == 1)
                    ==> self.comps@[c.id as int].strong == 0,
                (c.id < old(self).comps@.len() && old(self).comps@[c.id as int].strong > 0)
                    ==> self.comps@[c.id as int].strong < old(self).comps@[c.id as int].strong,
                forall|s: int|
                    0 <= s < old(self).subs@.len() && old(self).subs@[s].active && !(
                    #[trigger] self.subs@[s]).active ==> canceled_by_dead(*old(self), *self, s),
                forall|d: int|
                    0 <= d < old(self).comps@.len() && (#[trigger] self.comps@[d]).strong
                        < old(self).comps@[d].strong ==> d == c.id as int || released_from_dead(
                        *old(self),
                        *self,
                        d as usize,
                    ),
                forall|k: int|
                    0 <= k < stack@.len() ==> released_from_dead(
                        *old(self),
                        *self,
                        #[trigger] stack@[k],
                    ),
                forall|i: int|
                    #[trigger] died(*old(self), *self, i) ==> comp_released_pending(
                        *old(self),
                        *self,
                        i,
                        stack@,
                    ),
            decreases Ui::sum_strong(self.comps@), stack@.len(),
        {
            let ghost h: Ui = *self;
            let ghost hst: Seq<Id> = stack@;
            let x = stack.pop().unwrap();
            self.release(x, &mut stack);
            proof {
                assert forall|i: int|
                    0 <= i < old(self).comps@.len() implies Ui::comp_same_but_strong(
                    #[trigger] self.comps@[i],
                    old(self).comps@[i],
                ) && self.comps@[i].strong <= old(self).comps@[i].strong by {
                    assert(Ui::comp_same_but_strong(h.comps@[i], old(self).comps@[i]));
                    assert(Ui::comp_same_but_strong(self.comps@[i], h.comps@[i]));
                }
                assert forall|i: int|
                    #[trigger] died(*old(self), *self, i) implies died(*old(self), h, i) || (i
                    == x as int && h.comps@[i].strong == 1) by {
                    if !died(*old(self), h, i) {
                        assert(h.comps@[i].strong > 0);
                        assert(i == x as int);
                    }
                }
                assert forall|s2: int|
                    0 <= s2 < old(self).subs@.len() && old(self).subs@[s2].active && !(
                    #[trigger] self.subs@[s2]).active implies canceled_by_dead(
                    *old(self),
                    *self,
                    s2,
                ) by {
                    if h.subs@[s2].active {
                        assert(h.comps@[x as int].deps@ == old(self).comps@[x as int].deps@);
                        assert(died(*old(self), *self, x as int));
                    } else {
                        assert(canceled_by_dead(*old(self), h, s2));
                        let i = choose|i: int|
                            #[trigger] died(*old(self), h, i) && old(self).comps@[i].deps@.contains(
                                Dependency::Subscription(s2 as usize),
                            );
                        assert(died(*old(self), *self, i));
                    }
                }
                assert forall|d: int|
                    0 <= d < old(self).comps@.len() && (#[trigger] self.comps@[d]).strong < old(self).comps@[d].strong implies d == c.id as int || released_from_dead(
                    *old(self),
                    *self,
                    d as usize,
                ) by {
                    if h.comps@[d].strong < old(self).comps@[d].strong {
                        if d != c.id as int {
                            assert(released_from_dead(*old(self), h, d as usize));
                            let i = choose|i: int|
                                #[trigger] died(*old(self), h, i) && ref_edge(
                                    *old(self),
                                    i,
                                    d as usize,
                                );
                            assert(died(*old(self), *self, i));
                        }
                    } else {
                        assert(d == x as int);
                        assert(hst[hst.len() - 1] == x);
                        assert(released_from_dead(*old(self), h, hst[hst.len() - 1]));
                        let i = choose|i: int|
                            #[trigger] died(*old(self), h, i) && ref_edge(
                                *old(self),
                                i,
                                hst[hst.len() - 1],
                            );
                        assert(died(*old(self), *self, i));
                        assert(ref_edge(*old(self), i, d as usize));
                    }
                }
                assert forall|k: int|
                    0 <= k < stack@.len() implies released_from_dead(
                    *old(self),
                    *self,
                    #[trigger] stack@[k],
                ) by {
                    if k < hst.len() - 1 {
                        assert(stack@[k] == hst[k]);
                        assert(released_from_dead(*old(self), h, hst[k]));
                        let i = choose|i: int|
                            #[trigger] died(*old(self), h, i) && ref_edge(*old(self), i, hst[k]);
                        assert(died(*old(self), *self, i));
                    } else {
                        assert(x < h.comps@.len() && h.comps@[x as int].strong == 1);
                        assert(ref_edge(h, x as int, stack@[k]));
                        lemma_ref_edge_transfer(h, *old(self), x as int, stack@[k]);
                        assert(died(*old(self), *self, x as int));
                    }
                }
                assert forall|i: int|
                    #[trigger] died(*old(self), *self, i) implies comp_released_pending(
                    *old(self),
                    *self,
                    i,
                    stack@,
                ) by {
                    if died(*old(self), h, i) {
                        assert(comp_released_pending(*old(self), h, i, hst));
                        lemma_comp_released_pending_step(
                            *old(self),
                            h,
                            *self,
                            i,
                            hst,
                            stack@,
                            x,
                        );
                    } else {
                        assert(i == x as int && h.comps@[i].strong == 1);
                        assert(h.comps@[x as int].deps@ == old(self).comps@[x as int].deps@);
                        lemma_newly_dead_pending(*old(self), h, *self, x, stack@);
                    }
                }
            }
        }
        proof {
            assert forall|i: int|
                #[trigger] died(*old(self), *self, i) implies comp_released(
                *old(self),
                *self,
                i,
            ) by {
                assert(comp_released_pending(*old(self), *self, i, stack@));
                assert(self.comp_deps_canceled(i));
                assert(self.comps@[i].deps@ == old(self).comps@[i].deps@);
                assert forall|j: int|
                    0 <= j < old(self).comps@[i].deps@.len() implies match (#[trigger] old(self).comps@[i].deps@[j]) {
                    Dependency::Child(d) => old(self).comps@[d as int].strong == 0
                        || self.comps@[d as int].strong < old(self).comps@[d as int].strong,
                    Dependency::Subscription(sd) => !self.subs@[sd as int].active && (sd < old(self).subs@.len() ==> sub_children_released(
                        *old(self),
                        *self,
                        old(self).subs@[sd as int].action,
                    )),
                    Dependency::Callback(_) => true,
                } by {
                    assert(stack@.len() == 0);
                    match old(self).comps@[i].deps@[j] {
                        Dependency::Subscription(sd) => {
                            assert(self.comps@[i].deps@[j] == Dependency::Subscription(sd));
                            if sd < old(self).subs@.len() {
                                assert(sub_children_pending(
                                    *old(self),
                                    *self,
                                    old(self).subs@[sd as int].action,
                                    stack@,
                                ));
                            }
                        },
                        _ => {},
                    }
                }
            }
        }
    }

    /// The parts of the well-formedness proof shared by operations that
    /// change no count, no dependency list, no subscription and no boolean
    /// cell: only texts, styles and effects.
    proof fn lemma_wf_same_structure(pre: Ui, post: Ui)
        requires
            pre.wf(),
            post.comps@.len() == pre.comps@.len(),
            forall|i: int|
                0 <= i < pre.comps@.len() ==> (#[trigger] post.comps@[i]).strong
                    == pre.comps@[i].strong && post.comps@[i].deps@ == pre.comps@[i].deps@,
            post.subs == pre.subs,
            post.bool_cells == pre.bool_cells,
            post.text_cells@.len() == pre.text_cells@.len(),
            forall|c: int|
                0 <= c < pre.text_cells@.len() ==> (#[trigger] post.text_cells@[c]).subs@
                    == pre.text_cells@[c].subs@,
        ensures
            post.wf(),
    {
        assert forall|i: int, j: int|
            0 <= i < post.comps@.len() && 0 <= j < post.comps@[i].deps@.len() implies post.dep_ok(
            post.comps@[i].deps@[j],
        ) by {
            assert(pre.dep_ok(pre.comps@[i].deps@[j]));
        }
        assert forall|s: int| 0 <= s < post.subs@.len() implies #[trigger] post.sub_ok(s) by {
            assert(pre.sub_ok(s));
        }
        assert forall|i: int|
            0 <= i < post.comps@.len() && (#[trigger] post.comps@[i]).strong == 0 implies
            post.comp_deps_canceled(i) by {
            assert(pre.comp_deps_canceled(i));
        }
        assert forall|s: int| 0 <= s < post.subs@.len() implies #[trigger] post.sub_settled(s) by {
            assert(pre.sub_settled(s));
            assert(pre.sub_ok(s));
        }
    }
}

/// The queue `st` carries every component the binding's built children
/// stand for: what teardown must still release once the binding's owner
/// is gone.
spec fn stack_holds_sub_children(a: SubAction, st: Seq<Id>) -> bool {
    match a {
        SubAction::SetText { .. } => true,
        SubAction::Cond { child, .. } => match child {
            Children::Init { id, .. } => st.contains(id),
            Children::Uninit(_) => true,
        },
        SubAction::CondPair { child_true, child_false, .. } => {
            &&& match child_true {
                Children::Init { id, .. } => st.contains(id),
                Children::Uninit(_) => true,
            }
            &&& match child_false {
                Children::Init { id, .. } => st.contains(id),
                Children::Uninit(_) => true,
            }
        },
    }
}

/// Between `pre` and `post`, every component a binding's built children
/// stand for has lost a strong reference (or was already gone).
pub open spec fn sub_children_released(pre: Ui, post: Ui, a: SubAction) -> bool {
    match a {
        SubAction::SetText { .. } => true,
        SubAction::Cond { child, .. } => match child {
            Children::Init { id, .. } => pre.comps@[id as int].strong == 0
                || post.comps@[id as int].strong < pre.comps@[id as int].strong,
            Children::Uninit(_) => true,
        },
        SubAction::CondPair { child_true, child_false, .. } => {
            &&& match child_true {
                Children::Init { id, .. } => pre.comps@[id as int].strong == 0
                    || post.comps@[id as int].strong < pre.comps@[id as int].strong,
                Children::Uninit(_) => true,
            }
            &&& match child_false {
                Children::Init { id, .. } => pre.comps@[id as int].strong == 0
                    || post.comps@[id as int].strong < pre.comps@[id as int].strong,
                Children::Uninit(_) => true,
            }
        },
    }
}

/// What a queue carries, any extension of it carries too.
proof fn lemma_stack_holds_extend(a: SubAction, st1: Seq<Id>, st2: Seq<Id>)
    requires
        stack_holds_sub_children(a, st1),
        st1.len() <= st2.len(),
        forall|i: int| 0 <= i < st1.len() ==> st1[i] == st2[i],
    ensures
        stack_holds_sub_children(a, st2),
{
    match a {
        SubAction::SetText { .. } => {},
        SubAction::Cond { child, .. } => match child {
            Children::Init { id, .. } => {
                lemma_extend_contains(st1, st2, id);
            },
            Children::Uninit(_) => {},
        },
        SubAction::CondPair { child_true, child_false, .. } => {
            match child_true {
                Children::Init { id, .. } => {
                    lemma_extend_contains(st1, st2, id);
                },
                Children::Uninit(_) => {},
            }
            match child_false {
                Children::Init { id, .. } => {
                    lemma_extend_contains(st1, st2, id);
                },
                Children::Uninit(_) => {},
            }
        },
    }
}

/// Component `i` has released everything its dependency list owned:
/// every owned child and every built conditional child of its bindings
/// has lost a strong reference (or was already gone), and every
/// subscription of its list is canceled.
pub open spec fn comp_released(pre: Ui, post: Ui, i: int) -> bool {
    forall|j: int|
        0 <= j < pre.comps@[i].deps@.len() ==> match (#[trigger] pre.comps@[i].deps@[j]) {
            Dependency::Child(d) => pre.comps@[d as int].strong == 0 || post.comps@[d as int].strong
                < pre.comps@[d as int].strong,
            Dependency::Subscription(sd) => !post.subs@[sd as int].active && (sd < pre.subs@.len()
                ==> sub_children_released(pre, post, pre.subs@[sd as int].action)),
            Dependency::Callback(_) => true,
        }
}

/// Mid-teardown form of [`comp_released`]: each owed release has either
/// happened or still sits on the queue.
spec fn comp_released_pending(pre: Ui, cur: Ui, i: int, st: Seq<Id>) -> bool {
    forall|j: int|
        0 <= j < pre.comps@[i].deps@.len() ==> match (#[trigger] pre.comps@[i].deps@[j]) {
            Dependency::Child(d) => pre.comps@[d as int].strong == 0 || cur.comps@[d as int].strong
                < pre.comps@[d as int].strong || st.contains(d),
            Dependency::Subscription(sd) => sd < pre.subs@.len() ==> sub_children_pending(
                pre,
                cur,
                pre.subs@[sd as int].action,
                st,
            ),
            Dependency::Callback(_) => true,
        }
}

/// A component that dies with the queue holding everything its list
/// owned has, by that token, every owed release pending.
proof fn lemma_newly_dead_pending(pre: Ui, h: Ui, cur: Ui, x: Id, st: Seq<Id>)
    requires
        pre.wf(),
        x < pre.comps@.len(),
        h.comps@[x as int].deps@ == pre.comps@[x as int].deps@,
        h.subs@.len() == pre.subs@.len(),
        forall|t: int|
            0 <= t < pre.subs@.len() ==> (#[trigger] h.subs@[t]).action == pre.subs@[t].action,
        forall|j: int|
            0 <= j < h.comps@[x as int].deps@.len() ==> match (#[trigger] h.comps@[
                x as int
            ].deps@[j]) {
                Dependency::Child(d) => st.contains(d),
                _ => true,
            },
        forall|j: int|
            0 <= j < h.comps@[x as int].deps@.len() ==> match (#[trigger] h.comps@[
                x as int
            ].deps@[j]) {
                Dependency::Subscription(sd) => sd < h.subs@.len() ==> stack_holds_sub_children(
                    h.subs@[sd as int].action,
                    st,
                ),
                _ => true,
            },
    ensures
        comp_released_pending(pre, cur, x as int, st),
{
    assert forall|j: int|
        0 <= j < pre.comps@[x as int].deps@.len() implies match (#[trigger] pre.comps@[
        x as int
    ].deps@[j]) {
        Dependency::Child(d) => pre.comps@[d as int].strong == 0 || cur.comps@[d as int].strong
            < pre.comps@[d as int].strong || st.contains(d),
        Dependency::Subscription(sd) => sd < pre.subs@.len() ==> sub_children_pending(
            pre,
            cur,
            pre.subs@[sd as int].action,
            st,
        ),
        Dependency::Callback(_) => true,
    } by {
        assert(h.comps@[x as int].deps@[j] == pre.comps@[x as int].deps@[j]);
        match pre.comps@[x as int].deps@[j] {
            Dependency::Child(d) => {
                assert(st.contains(d));
            },
            Dependency::Subscription(sd) => {
                if sd < pre.subs@.len() {
                    assert(stack_holds_sub_children(h.subs@[sd as int].action, st));
                    assert(h.subs@[sd as int].action == pre.subs@[sd as int].action);
                }
            },
            Dependency::Callback(_) => {},
        }
    }
}

/// Owed releases survive one step of the teardown loop: the popped entry
/// is released and every other queued entry survives into the extended
/// queue.
proof fn lemma_comp_released_pending_step(
    pre: Ui,
    h: Ui,
    cur: Ui,
    i: int,
    hst: Seq<Id>,
    st: Seq<Id>,
    x: Id,
)
    requires
        pre.wf(),
        comp_released_pending(pre, h, i, hst),
        0 <= i < pre.comps@.len(),
        hst.len() > 0,
        hst.last() == x,
        h.comps@.len() == pre.comps@.len(),
        cur.comps@.len() == pre.comps@.len(),
        h.subs@.len() == pre.subs@.len(),
        cur.subs@.len() == pre.subs@.len(),
        forall|t: int|
            0 <= t < pre.comps@.len() ==> (#[trigger] h.comps@[t]).strong <= pre.comps@[t].strong,
        forall|t: int|
            0 <= t < pre.comps@.len() ==> (#[trigger] cur.comps@[t]).strong <= h.comps@[t].strong,
        x < pre.comps@.len() && h.comps@[x as int].strong > 0 ==> cur.comps@[x as int].strong
            < h.comps@[x as int].strong,
        hst.drop_last().len() <= st.len(),
        forall|k: int| 0 <= k < hst.drop_last().len() ==> hst.drop_last()[k] == st[k],
    ensures
        comp_released_pending(pre, cur, i, st),
{
    assert forall|j: int|
        0 <= j < pre.comps@[i].deps@.len() implies match (#[trigger] pre.comps@[i].deps@[j]) {
        Dependency::Child(d) => pre.comps@[d as int].strong == 0 || cur.comps@[d as int].strong
            < pre.comps@[d as int].strong || st.contains(d),
        Dependency::Subscription(sd) => sd < pre.subs@.len() ==> sub_children_pending(
            pre,
            cur,
            pre.subs@[sd as int].action,
            st,
        ),
        Dependency::Callback(_) => true,
    } by {
        assert(pre.dep_ok(pre.comps@[i].deps@[j]));
        match pre.comps@[i].deps@[j] {
            Dependency::Child(d) => {
                if pre.comps@[d as int].strong != 0 && h.comps@[d as int].strong >= pre.comps@[
                    d as int
                ].strong {
                    assert(hst.contains(d));
                    if d != x {
                        lemma_drop_last_contains(hst, d);
                        lemma_extend_contains(hst.drop_last(), st, d);
                    }
                }
            },
            Dependency::Subscription(sd) => {
                if sd < pre.subs@.len() {
                    assert(pre.sub_ok(sd as int));
                    assert(sub_children_pending(pre, h, pre.subs@[sd as int].action, hst));
                    lemma_pending_step(pre, h, cur, pre.subs@[sd as int].action, hst, st, x);
                }
            },
            Dependency::Callback(_) => {},
        }
    }
}

/// Component `i` was torn down between `pre` and `post`: it had owners
/// and now has none.
pub open spec fn died(pre: Ui, post: Ui, i: int) -> bool {
    &&& 0 <= i < pre.comps@.len()
    &&& pre.comps@[i].strong > 0
    &&& i < post.comps@.len() && post.comps@[i].strong == 0
}

/// The binding stores `d` as its built conditional child.
pub open spec fn holds_built(a: SubAction, d: Id) -> bool {
    match a {
        SubAction::SetText { .. } => false,
        SubAction::Cond { child, .. } => match child {
            Children::Init { id, .. } => id == d,
            Children::Uninit(_) => false,
        },
        SubAction::CondPair { child_true, child_false, .. } => (match child_true {
            Children::Init { id, .. } => id == d,
            Children::Uninit(_) => false,
        }) || (match child_false {
            Children::Init { id, .. } => id == d,
            Children::Uninit(_) => false,
        }),
    }
}

/// In `pre`, component `i`'s dependency list holds a strong reference to
/// `d`: an owned child, or the built child of one of its bindings.
pub open spec fn ref_edge(pre: Ui, i: int, d: Id) -> bool {
    &&& 0 <= i < pre.comps@.len()
    &&& exists|j: int|
        0 <= j < pre.comps@[i].deps@.len() && match #[trigger] pre.comps@[i].deps@[j] {
            Dependency::Child(cd) => cd == d,
            Dependency::Subscription(sd) => sd < pre.subs@.len() && holds_built(
                pre.subs@[sd as int].action,
                d,
            ),
            Dependency::Callback(_) => false,
        }
}

/// Some component that died between `pre` and `cur` held a strong
/// reference to `d`.
pub open spec fn released_from_dead(pre: Ui, cur: Ui, d: Id) -> bool {
    exists|i: int| #[trigger] died(pre, cur, i) && ref_edge(pre, i, d)
}

/// Some component that died between `pre` and `cur` owned subscription
/// `s` in its dependency list.
pub open spec fn canceled_by_dead(pre: Ui, cur: Ui, s: int) -> bool {
    exists|i: int| #[trigger] died(pre, cur, i) && pre.comps@[i].deps@.contains(
        Dependency::Subscription(s as usize),
    )
}

/// A reference edge survives into any state with the same dependency
/// lists and binding actions.
proof fn lemma_ref_edge_transfer(a: Ui, b: Ui, i: int, d: Id)
    requires
        ref_edge(a, i, d),
        0 <= i < b.comps@.len(),
        b.comps@[i].deps@ == a.comps@[i].deps@,
        b.subs@.len() == a.subs@.len(),
        forall|t: int| 0 <= t < a.subs@.len() ==> (#[trigger] b.subs@[t]).action == a.subs@[t].action,
    ensures
        ref_edge(b, i, d),
{
    let j = choose|j: int|
        0 <= j < a.comps@[i].deps@.len() && match #[trigger] a.comps@[i].deps@[j] {
            Dependency::Child(cd) => cd == d,
            Dependency::Subscription(sd) => sd < a.subs@.len() && holds_built(
                a.subs@[sd as int].action,
                d,
            ),
            Dependency::Callback(_) => false,
        };
    assert(b.comps@[i].deps@[j] == a.comps@[i].deps@[j]);
    match b.comps@[i].deps@[j] {
        Dependency::Child(cd) => {},
        Dependency::Subscription(sd) => {
            assert(b.subs@[sd as int].action == a.subs@[sd as int].action);
        },
        Dependency::Callback(_) => {},
    }
}

/// One queued release for component `d` is still owed: either `d` was
/// already gone, or its count has dropped, or the queue still carries it.
spec fn child_pending(pre: Ui, cur: Ui, d: Id, st: Seq<Id>) -> bool {
    ||| pre.comps@[d as int].strong == 0
    ||| cur.comps@[d as int].strong < pre.comps@[d as int].strong
    ||| st.contains(d)
}

/// Every component the binding's built children stand for is released or
/// still queued.
spec fn sub_children_pending(pre: Ui, cur: Ui, a: SubAction, st: Seq<Id>) -> bool {
    match a {
        SubAction::SetText { .. } => true,
        SubAction::Cond { child, .. } => match child {
            Children::Init { id, .. } => child_pending(pre, cur, id, st),
            Children::Uninit(_) => true,
        },
        SubAction::CondPair { child_true, child_false, .. } => {
            &&& match child_true {
                Children::Init { id, .. } => child_pending(pre, cur, id, st),
                Children::Uninit(_) => true,
            }
            &&& match child_false {
                Children::Init { id, .. } => child_pending(pre, cur, id, st),
                Children::Uninit(_) => true,
            }
        },
    }
}

/// The binding's built children all lie inside the arena.
spec fn sub_children_bounded(pre: Ui, a: SubAction) -> bool {
    match a {
        SubAction::SetText { .. } => true,
        SubAction::Cond { child, .. } => pre.children_ok(child),
        SubAction::CondPair { child_true, child_false, .. } => pre.children_ok(child_true)
            && pre.children_ok(child_false),
    }
}

/// A queued release stays owed across one step of the teardown loop: the
/// popped entry is released (its count falls) and every other entry
/// survives into the extended queue.
proof fn lemma_pending_step(pre: Ui, h: Ui, cur: Ui, a: SubAction, hst: Seq<Id>, st: Seq<Id>, x: Id)
    requires
        sub_children_pending(pre, h, a, hst),
        sub_children_bounded(pre, a),
        hst.len() > 0,
        hst.last() == x,
        h.comps@.len() == pre.comps@.len(),
        cur.comps@.len() == pre.comps@.len(),
        forall|i: int|
            0 <= i < pre.comps@.len() ==> (#[trigger] h.comps@[i]).strong <= pre.comps@[i].strong,
        forall|i: int|
            0 <= i < pre.comps@.len() ==> (#[trigger] cur.comps@[i]).strong <= h.comps@[i].strong,
        x < pre.comps@.len() && h.comps@[x as int].strong > 0 ==> cur.comps@[x as int].strong
            < h.comps@[x as int].strong,
        hst.drop_last().len() <= st.len(),
        forall|i: int| 0 <= i < hst.drop_last().len() ==> hst.drop_last()[i] == st[i],
    ensures
        sub_children_pending(pre, cur, a, st),
{
    match a {
        SubAction::SetText { .. } => {},
        SubAction::Cond { child, .. } => match child {
            Children::Init { id, .. } => {
                lemma_child_pending_step(pre, h, cur, id, hst, st, x);
            },
            Children::Uninit(_) => {},
        },
        SubAction::CondPair { child_true, child_false, .. } => {
            match child_true {
                Children::Init { id, .. } => {
                    lemma_child_pending_step(pre, h, cur, id, hst, st, x);
                },
                Children::Uninit(_) => {},
            }
            match child_false {
                Children::Init { id, .. } => {
                    lemma_child_pending_step(pre, h, cur, id, hst, st, x);
                },
                Children::Uninit(_) => {},
            }
        },
    }
}

/// The single-entry core of [`lemma_pending_step`].
proof fn lemma_child_pending_step(pre: Ui, h: Ui, cur: Ui, d: Id, hst: Seq<Id>, st: Seq<Id>, x: Id)
    requires
        child_pending(pre, h, d, hst),
        d < pre.comps@.len(),
        hst.len() > 0,
        hst.last() == x,
        h.comps@.len() == pre.comps@.len(),
        cur.comps@.len() == pre.comps@.len(),
        forall|i: int|
            0 <= i < pre.comps@.len() ==> (#[trigger] h.comps@[i]).strong <= pre.comps@[i].strong,
        forall|i: int|
            0 <= i < pre.comps@.len() ==> (#[trigger] cur.comps@[i]).strong <= h.comps@[i].strong,
        x < pre.comps@.len() && h.comps@[x as int].strong > 0 ==> cur.comps@[x as int].strong
            < h.comps@[x as int].strong,
        hst.drop_last().len() <= st.len(),
        forall|i: int| 0 <= i < hst.drop_last().len() ==> hst.drop_last()[i] == st[i],
    ensures
        child_pending(pre, cur, d, st),
{
    if pre.comps@[d as int].strong == 0 {
    } else if h.comps@[d as int].strong < pre.comps@[d as int].strong {
    } else if hst.contains(d) {
        if d == x {
            assert(h.comps@[d as int].strong > 0);
        } else {
            lemma_drop_last_contains(hst, d);
            lemma_extend_contains(hst.drop_last(), st, d);
        }
    }
}

/// An element stays in a sequence that is extended at its end.
proof fn lemma_push_contains<T>(s: Seq<T>, x: T, y: T)
    requires
        s.contains(y),
    ensures
        s.push(x).contains(y),
{
    let k = choose|k: int| 0 <= k < s.len() && s[k] == y;
    assert(s.push(x)[k] == y);
}

/// An element other than the last stays when the last is removed.
proof fn lemma_drop_last_contains<T>(s: Seq<T>, y: T)
    requires
        s.len() > 0,
        s.contains(y),
        s.last() != y,
    ensures
        s.drop_last().contains(y),
{
    let k = choose|k: int| 0 <= k < s.len() && s[k] == y;
    assert(s.drop_last()[k] == y);
}

/// An element stays in any extension of the sequence.
proof fn lemma_extend_contains<T>(a: Seq<T>, b: Seq<T>, y: T)
    requires
        a.contains(y),
        a.len() <= b.len(),
        forall|i: int| 0 <= i < a.len() ==> a[i] == b[i],
    ensures
        b.contains(y),
{
    let k = choose|k: int| 0 <= k < a.len() && a[k] == y;
    assert(b[k] == y);
}

impl Component {
    /// Creates a component wrapping a fresh native element of the given
    /// tag, applying `style` if it is non-empty. The new component owns
    /// nothing yet and is owned by the one returned handle.
    pub fn new(ui: &mut Ui, tag: &str, style: Style) -> (c: Component)
        requires
            old(ui).wf(),
        ensures
            final(ui).wf(),
            c.id == old(ui).comps@.len(),
            final(ui).comps@.len() == old(ui).comps@.len() + 1,
            forall|i: int|
                0 <= i < old(ui).comps@.len() ==> final(ui).comps@[i] == old(ui).comps@[i],
            final(ui).comps@[c.id as int].strong == 1,
            final(ui).comps@[c.id as int].tag@ == tag@,
            final(ui).comps@[c.id as int].style == style.0,
            final(ui).comps@[c.id as int].text@ == Seq::<char>::empty(),
            final(ui).comps@[c.id as int].parent is None,
            final(ui).comps@[c.id as int].deps@.len() == 0,
            final(ui).subs == old(ui).subs,
            final(ui).bool_cells == old(ui).bool_cells,
            final(ui).text_cells == old(ui).text_cells,
            final(ui).root_taken == old(ui).root_taken,
            final(ui).effects@.len() == old(ui).effects@.len() + (if style.0@.len() == 0 {
                1int
            } else {
                2
            }),
            forall|k: int| 0 <= k < old(ui).effects@.len() ==> final(ui).effects@[k] == old(ui).effects@[k],
            final(ui).effects@[old(ui).effects@.len() as int] == (Effect::Create {
                id: c.id,
                tag: final(ui).comps@[c.id as int].tag,
            }),
            style.0@.len() > 0 ==> final(ui).effects@[old(ui).effects@.len() as int + 1] == (Effect::SetStyle { id: c.id, style: style.0 }),
    {
        let id = ui.comps.len();
        let tag_s = tag.to_owned();
        ui.effects.push(Effect::Create { id, tag: tag_s.clone() });
        if !style.is_none() {
            ui.effects.push(Effect::SetStyle { id, style: style.0.clone() });
        }
        ui.comps.push(
            CompState {
                strong: 1,
                tag: tag_s,
                style: style.0,
                text: String::new(),
                parent: None,
                deps: Vec::new(),
            },
        );
        proof {
            Ui::lemma_wf_growth(*old(ui), *ui);
        }
        Component { id }
    }

    /// Returns the component wrapping the application's one pre-existing
    /// root surface, applying `style` to it. Callable once: the engine's
    /// one-shot guard rules a second call out, because a second root would
    /// alias the same native surface. The root starts with two strong
    /// references — the returned handle and one the engine retains — and
    /// since handles are not `Clone` and every operation releases at most
    /// the one handle it consumes, the retained reference is never given
    /// back: the root outlives every handle the caller drops.
    pub fn root(ui: &mut Ui, style: Style) -> (c: Component)
        requires
            old(ui).wf(),
            !old(ui).root_taken,
        ensures
            final(ui).wf(),
            final(ui).root_taken,
            c.id == old(ui).comps@.len(),
            final(ui).comps@.len() == old(ui).comps@.len() + 1,
            forall|i: int|
                0 <= i < old(ui).comps@.len() ==> final(ui).comps@[i] == old(ui).comps@[i],
            final(ui).comps@[c.id as int].strong == 2,
            final(ui).comps@[c.id as int].tag@ == "body"@,
            final(ui).comps@[c.id as int].style == style.0,
            final(ui).comps@[c.id as int].parent is None,
            final(ui).comps@[c.id as int].deps@.len() == 0,
            final(ui).subs == old(ui).subs,
            final(ui).bool_cells == old(ui).bool_cells,
            final(ui).text_cells == old(ui).text_cells,
            final(ui).effects@ == old(ui).effects@.push(
                (Effect::SetStyle { id: c.id, style: style.0 }),
            ),
    {
        ui.root_taken = true;
        let id = ui.comps.len();
        ui.effects.push(Effect::SetStyle { id, style: style.0.clone() });
        ui.comps.push(
            CompState {
                strong: 2,
                tag: "body".to_owned(),
                style: style.0,
                text: String::new(),
                parent: None,
                deps: Vec::new(),
            },
        );
        proof {
            Ui::lemma_wf_growth(*old(ui), *ui);
        }
        Component { id }
    }

    /// The identity of the native element wrapped by this component.
    /// Direct manipulation of the element through it is discouraged: a
    /// child attached by a conditional binding is hidden and shown by the
    /// binding alone.
    pub fn html(&self) -> (id: Id)
        ensures
            id == self.id,
    {
        self.id
    }

    /// Creates a non-owning reference to this component. Pure: no count
    /// changes, no effect.
    pub fn downgrade(&self) -> (w: WeakComponent)
        ensures
            w.id == self.id,
    {
        WeakComponent { id: self.id }
    }

    /// Overwrites the component's single style attribute. Idempotent in
    /// the tree: no dependency is recorded.
    pub fn set_style(&self, ui: &mut Ui, style: Style)
        requires
            old(ui).wf(),
            old(ui).valid_handle(*self),
        ensures
            final(ui).wf(),
            final(ui).comps@.len() == old(ui).comps@.len(),
            final(ui).comps@[self.id as int].style == style.0,
            final(ui).comps@[self.id as int].strong == old(ui).comps@[self.id as int].strong,
            final(ui).comps@[self.id as int].tag == old(ui).comps@[self.id as int].tag,
            final(ui).comps@[self.id as int].text == old(ui).comps@[self.id as int].text,
            final(ui).comps@[self.id as int].parent == old(ui).comps@[self.id as int].parent,
            final(ui).comps@[self.id as int].deps == old(ui).comps@[self.id as int].deps,
            forall|i: int|
                0 <= i < old(ui).comps@.len() && i != self.id ==> final(ui).comps@[i] == old(ui).comps@[i],
            final(ui).subs == old(ui).subs,
            final(ui).bool_cells == old(ui).bool_cells,
            final(ui).text_cells == old(ui).text_cells,
            final(ui).root_taken == old(ui).root_taken,
            final(ui).effects@ == old(ui).effects@.push(
                (Effect::SetStyle { id: self.id, style: style.0 }),
            ),
    {
        ui.effects.push(Effect::SetStyle { id: self.id, style: style.0.clone() });
        let cm = &mut ui.comps[self.id];
        cm.style = style.0;
        proof {
            assert forall|i: int, j: int|
                0 <= i < ui.comps@.len() && 0 <= j < ui.comps@[i].deps@.len() implies ui.dep_ok(
                ui.comps@[i].deps@[j],
            ) by {
                assert(old(ui).dep_ok(old(ui).comps@[i].deps@[j]));
            }
            assert forall|s: int| 0 <= s < ui.subs@.len() implies #[trigger] ui.sub_ok(s) by {
                assert(old(ui).sub_ok(s));
            }
            assert forall|i: int|
                0 <= i < ui.comps@.len() && (#[trigger] ui.comps@[i]).strong == 0 implies
                ui.comp_deps_canceled(i) by {
                assert(old(ui).comp_deps_canceled(i));
            }
            assert forall|s: int| 0 <= s < ui.subs@.len() implies #[trigger] ui.sub_settled(s) by {
                assert(old(ui).sub_settled(s));
                assert(old(ui).sub_ok(s));
            }
        }
    }

    /// Appends `child`'s native element under this component's element and
    /// records the child as an owned dependency, transferring the caller's
    /// strong reference into this component. Meant to be chained: returns
    /// the same handle. A child may be owned once, and only by another
    /// component.
    pub fn with(self, ui: &mut Ui, child: Component) -> (c: Component)
        requires
            old(ui).wf(),
            old(ui).valid_handle(self),
            old(ui).valid_handle(child),
            child.id != self.id,
            old(ui).comps@[child.id as int].parent is None,
        ensures
            c == self,
            final(ui).wf(),
            final(ui).comps@.len() == old(ui).comps@.len(),
            final(ui).comps@[self.id as int].deps@ == old(ui).comps@[self.id as int].deps@.push(
                Dependency::Child(child.id),
            ),
            Ui::comp_same_but_strong(
                final(ui).comps@[child.id as int],
                CompState {
                    parent: Some(self.id),
                    ..old(ui).comps@[child.id as int]
                },
            ),
            final(ui).comps@[child.id as int].strong == old(ui).comps@[child.id as int].strong,
            final(ui).comps@[self.id as int].strong == old(ui).comps@[self.id as int].strong,
            final(ui).comps@[self.id as int].tag == old(ui).comps@[self.id as int].tag,
            final(ui).comps@[self.id as int].style == old(ui).comps@[self.id as int].style,
            final(ui).comps@[self.id as int].text == old(ui).comps@[self.id as int].text,
            final(ui).comps@[self.id as int].parent == old(ui).comps@[self.id as int].parent,
            forall|i: int|
                0 <= i < old(ui).comps@.len() && i != self.id && i != child.id ==> final(ui).comps@[i] == old(ui).comps@[i],
            final(ui).subs == old(ui).subs,
            final(ui).bool_cells == old(ui).bool_cells,
            final(ui).text_cells == old(ui).text_cells,
            final(ui).root_taken == old(ui).root_taken,
            final(ui).effects@ == old(ui).effects@.push(
                (Effect::Append { parent: self.id, child: child.id }),
            ),
    {
        ui.effects.push(Effect::Append { parent: self.id, child: child.id });
        let cm = &mut ui.comps[child.id];
        cm.parent = Some(self.id);
        let pm = &mut ui.comps[self.id];
        pm.deps.push(Dependency::Child(child.id));
        proof {
            assert forall|i: int, j: int|
                0 <= i < ui.comps@.len() && 0 <= j < ui.comps@[i].deps@.len() implies ui.dep_ok(
                ui.comps@[i].deps@[j],
            ) by {
                if i != self.id || j < old(ui).comps@[i].deps@.len() {
                    assert(old(ui).dep_ok(old(ui).comps@[i].deps@[j]));
                }
            }
            assert forall|s: int| 0 <= s < ui.subs@.len() implies #[trigger] ui.sub_ok(s) by {
                assert(old(ui).sub_ok(s));
            }
            assert forall|i: int|
                0 <= i < ui.comps@.len() && (#[trigger] ui.comps@[i]).strong == 0 implies
                ui.comp_deps_canceled(i) by {
                assert(old(ui).comp_deps_canceled(i));
            }
            assert forall|s: int| 0 <= s < ui.subs@.len() implies #[trigger] ui.sub_settled(s) by {
                assert(old(ui).sub_settled(s));
                assert(old(ui).sub_ok(s));
            }
        }
        self
    }

    /// Installs the handler with the given token as the element's click
    /// callback and records it as an owned dependency, so the handler
    /// stays valid for exactly this component's lifetime.
    pub fn set_on_click(&self, ui: &mut Ui, handler: Id)
        requires
            old(ui).wf(),
            old(ui).valid_handle(*self),
        ensures
            final(ui).wf(),
            final(ui).comps@.len() == old(ui).comps@.len(),
            final(ui).comps@[self.id as int].deps@ == old(ui).comps@[self.id as int].deps@.push(
                Dependency::Callback(handler),
            ),
            final(ui).comps@[self.id as int].strong == old(ui).comps@[self.id as int].strong,
            final(ui).comps@[self.id as int].tag == old(ui).comps@[self.id as int].tag,
            final(ui).comps@[self.id as int].style == old(ui).comps@[self.id as int].style,
            final(ui).comps@[self.id as int].text == old(ui).comps@[self.id as int].text,
            final(ui).comps@[self.id as int].parent == old(ui).comps@[self.id as int].parent,
            forall|i: int|
                0 <= i < old(ui).comps@.len() && i != self.id ==> final(ui).comps@[i] == old(ui).comps@[i],
            final(ui).subs == old(ui).subs,
            final(ui).bool_cells == old(ui).bool_cells,
            final(ui).text_cells == old(ui).text_cells,
            final(ui).root_taken == old(ui).root_taken,
            final(ui).effects@ == old(ui).effects@.push(
                (Effect::SetOnClick { id: self.id, handler }),
            ),
    {
        ui.effects.push(Effect::SetOnClick { id: self.id, handler });
        let cm = &mut ui.comps[self.id];
        cm.deps.push(Dependency::Callback(handler));
        proof {
            assert forall|i: int, j: int|
                0 <= i < ui.comps@.len() && 0 <= j < ui.comps@[i].deps@.len() implies ui.dep_ok(
                ui.comps@[i].deps@[j],
            ) by {
                if i != self.id || j < old(ui).comps@[i].deps@.len() {
                    assert(old(ui).dep_ok(old(ui).comps@[i].deps@[j]));
                }
            }
            assert forall|s: int| 0 <= s < ui.subs@.len() implies #[trigger] ui.sub_ok(s) by {
                assert(old(ui).sub_ok(s));
            }
            assert forall|i: int|
                0 <= i < ui.comps@.len() && (#[trigger] ui.comps@[i]).strong == 0 implies
                ui.comp_deps_canceled(i) by {
                assert(old(ui).comp_deps_canceled(i));
            }
            assert forall|s: int| 0 <= s < ui.subs@.len() implies #[trigger] ui.sub_settled(s) by {
                assert(old(ui).sub_settled(s));
                assert(old(ui).sub_ok(s));
            }
        }
    }

    /// Binds the component's text content to a text cell: the content is
    /// set to the cell's current value at once, and again on every later
    /// change, for as long as the component lives. The subscription is
    /// recorded as an owned dependency, so teardown cancels it.
    pub fn set_inner_html(&self, ui: &mut Ui, cell: Id)
        requires
            old(ui).wf(),
            old(ui).valid_handle(*self),
            cell < old(ui).text_cells@.len(),
        ensures
            final(ui).wf(),
            final(ui).subs@ == old(ui).subs@.push(
                (SubState {
                    active: true,
                    cell,
                    action: SubAction::SetText { target: self.id },
                }),
            ),
            final(ui).comps@.len() == old(ui).comps@.len(),
            final(ui).comps@[self.id as int].deps@ == old(ui).comps@[self.id as int].deps@.push(
                Dependency::Subscription(old(ui).subs@.len() as usize),
            ),
            final(ui).comps@[self.id as int].text == old(ui).text_cells@[cell as int].value,
            final(ui).comps@[self.id as int].strong == old(ui).comps@[self.id as int].strong,
            final(ui).comps@[self.id as int].parent == old(ui).comps@[self.id as int].parent,
            forall|i: int|
                0 <= i < old(ui).comps@.len() && i != self.id ==> final(ui).comps@[i] == old(ui).comps@[i],
            final(ui).bool_cells == old(ui).bool_cells,
            final(ui).text_cells@.len() == old(ui).text_cells@.len(),
            forall|c: int|
                0 <= c < old(ui).text_cells@.len() && c != cell ==> final(ui).text_cells@[c]
                    == old(ui).text_cells@[c],
            final(ui).text_cells@[cell as int].value == old(ui).text_cells@[cell as int].value,
            final(ui).text_cells@[cell as int].subs@ == old(ui).text_cells@[
                cell as int
            ].subs@.push(old(ui).subs@.len() as usize),
            final(ui).root_taken == old(ui).root_taken,
            final(ui).effects@ == old(ui).effects@.push(
                (Effect::SetText {
                    id: self.id,
                    text: old(ui).text_cells@[cell as int].value,
                }),
            ),
    {
        let s = ui.subs.len();
        ui.subs.push(
            SubState { active: true, cell, action: SubAction::SetText { target: self.id } },
        );
        let tc = &mut ui.text_cells[cell];
        tc.subs.push(s);
        let txt = ui.text_cells[cell].value.clone();
        ui.effects.push(Effect::SetText { id: self.id, text: txt.clone() });
        let cm = &mut ui.comps[self.id];
        cm.text = txt;
        cm.deps.push(Dependency::Subscription(s));
        proof {
            let pre = *old(ui);
            assert forall|i: int, j: int|
                0 <= i < ui.comps@.len() && 0 <= j < ui.comps@[i].deps@.len() implies ui.dep_ok(
                ui.comps@[i].deps@[j],
            ) by {
                if i != self.id || j < pre.comps@[i].deps@.len() {
                    assert(pre.dep_ok(pre.comps@[i].deps@[j]));
                }
            }
            assert forall|s2: int| 0 <= s2 < ui.subs@.len() implies #[trigger] ui.sub_ok(s2) by {
                if s2 < pre.subs@.len() {
                    assert(pre.sub_ok(s2));
                    match pre.subs@[s2].action {
                        SubAction::SetText { target } => {
                            if pre.subs@[s2].cell == cell {
                                lemma_push_contains(
                                    pre.text_cells@[cell as int].subs@,
                                    s,
                                    s2 as usize,
                                );
                            }
                        },
                        SubAction::Cond { .. } => {},
                        SubAction::CondPair { .. } => {},
                    }
                } else {
                    assert(ui.text_cells@[cell as int].subs@[pre.text_cells@[
                        cell as int
                    ].subs@.len() as int] == s);
                }
            }
            assert forall|i: int|
                0 <= i < ui.comps@.len() && (#[trigger] ui.comps@[i]).strong == 0 implies
                ui.comp_deps_canceled(i) by {
                assert(pre.comp_deps_canceled(i));
                assert forall|j: int| 0 <= j < ui.comps@[i].deps@.len() implies match (
                #[trigger] ui.comps@[i].deps@[j]) {
                    Dependency::Subscription(sd) => !ui.subs@[sd as int].active,
                    _ => true,
                } by {
                    assert(pre.dep_ok(pre.comps@[i].deps@[j]));
                }
            }
            assert forall|s2: int| 0 <= s2 < ui.subs@.len() implies #[trigger] ui.sub_settled(
                s2,
            ) by {
                if s2 < pre.subs@.len() {
                    assert(pre.sub_settled(s2));
                    assert(pre.sub_ok(s2));
                }
            }
        }
    }

    /// Attaches a conditional child driven by a boolean cell. While the
    /// cell is `true` the child is built (once) and shown; while it is
    /// `false` it is hidden — and if the cell starts out `false`, the
    /// blueprint is not consumed at all until the first `true` arrives.
    /// The subscription is an owned dependency of this component. Meant to
    /// be chained: returns the same handle.
    pub fn with_if(self, ui: &mut Ui, cell: Id, child: Blueprint) -> (c: Component)
        requires
            old(ui).wf(),
            old(ui).valid_handle(self),
            cell < old(ui).bool_cells@.len(),
        ensures
            c == self,
            final(ui).wf(),
            final(ui).subs@.len() == old(ui).subs@.len() + 1,
            forall|s: int|
                0 <= s < old(ui).subs@.len() ==> final(ui).subs@[s] == old(ui).subs@[s],
            !old(ui).bool_cells@[cell as int].value ==> final(ui).comps@.len() == old(ui).comps@.len() && final(ui).subs@[old(ui).subs@.len() as int] == (SubState {
                active: true,
                cell,
                action: SubAction::Cond { target: self.id, child: Children::Uninit(child) },
            }),
            old(ui).bool_cells@[cell as int].value ==> final(ui).comps@.len() == old(ui).comps@.len() + 1 && final(ui).subs@[old(ui).subs@.len() as int] == (SubState {
                active: true,
                cell,
                action: SubAction::Cond {
                    target: self.id,
                    child: Children::Init { id: old(ui).comps@.len() as usize, shown: true },
                },
            }),
            old(ui).bool_cells@[cell as int].value ==> ({
                let b = final(ui).comps@[old(ui).comps@.len() as int];
                &&& b.tag == child.tag
                &&& b.style == child.style
                &&& b.text == child.text
                &&& b.parent == Some(self.id)
                &&& b.strong == 2
            }),
            !old(ui).bool_cells@[cell as int].value ==> final(ui).comps@[self.id as int].deps@
                == old(ui).comps@[self.id as int].deps@.push(
                Dependency::Subscription(old(ui).subs@.len() as usize),
            ) && final(ui).effects == old(ui).effects,
            old(ui).bool_cells@[cell as int].value ==> final(ui).comps@[self.id as int].deps@
                == old(ui).comps@[self.id as int].deps@.push(
                Dependency::Child(old(ui).comps@.len() as usize),
            ).push(Dependency::Subscription(old(ui).subs@.len() as usize)) && final(ui).effects@
                == old(ui).effects@ + Ui::build_effects(
                child,
                old(ui).comps@.len() as usize,
                self.id,
            ),
            forall|i: int|
                0 <= i < old(ui).comps@.len() && i != self.id ==> final(ui).comps@[i] == old(ui).comps@[i],
            final(ui).comps@[self.id as int].strong == old(ui).comps@[self.id as int].strong,
            final(ui).comps@[self.id as int].tag == old(ui).comps@[self.id as int].tag,
            final(ui).comps@[self.id as int].style == old(ui).comps@[self.id as int].style,
            final(ui).comps@[self.id as int].text == old(ui).comps@[self.id as int].text,
            final(ui).comps@[self.id as int].parent == old(ui).comps@[self.id as int].parent,
            final(ui).bool_cells@.len() == old(ui).bool_cells@.len(),
            forall|cc: int|
                0 <= cc < old(ui).bool_cells@.len() && cc != cell ==> final(ui).bool_cells@[cc]
                    == old(ui).bool_cells@[cc],
            final(ui).bool_cells@[cell as int].value == old(ui).bool_cells@[cell as int].value,
            final(ui).bool_cells@[cell as int].subs@ == old(ui).bool_cells@[
                cell as int
            ].subs@.push(old(ui).subs@.len() as usize),
            final(ui).text_cells == old(ui).text_cells,
            final(ui).root_taken == old(ui).root_taken,
    {
        let v = ui.bool_cells[cell].value;
        let ch: Children;
        if v {
            let id = ui.build_child(child, self.id);
            ch = Children::Init { id, shown: true };
        } else {
            ch = Children::Uninit(child);
        }
        let s = ui.subs.len();
        ui.subs.push(
            SubState { active: true, cell, action: SubAction::Cond { target: self.id, child: ch } },
        );
        let bc = &mut ui.bool_cells[cell];
        bc.subs.push(s);
        let cm = &mut ui.comps[self.id];
        cm.deps.push(Dependency::Subscription(s));
        proof {
            let pre = *old(ui);
            assert forall|i: int, j: int|
                0 <= i < ui.comps@.len() && 0 <= j < ui.comps@[i].deps@.len() implies ui.dep_ok(
                ui.comps@[i].deps@[j],
            ) by {
                if i < pre.comps@.len() && (i != self.id || j < pre.comps@[i].deps@.len()) {
                    assert(pre.dep_ok(pre.comps@[i].deps@[j]));
                }
            }
            assert forall|s2: int| 0 <= s2 < ui.subs@.len() implies #[trigger] ui.sub_ok(s2) by {
                if s2 < pre.subs@.len() {
                    assert(pre.sub_ok(s2));
                    match pre.subs@[s2].action {
                        SubAction::SetText { .. } => {},
                        _ => {
                            if pre.subs@[s2].cell == cell {
                                lemma_push_contains(
                                    pre.bool_cells@[cell as int].subs@,
                                    s,
                                    s2 as usize,
                                );
                            }
                        },
                    }
                } else {
                    assert(ui.bool_cells@[cell as int].subs@[pre.bool_cells@[
                        cell as int
                    ].subs@.len() as int] == s);
                }
            }
            assert forall|i: int|
                0 <= i < ui.comps@.len() && (#[trigger] ui.comps@[i]).strong == 0 implies
                ui.comp_deps_canceled(i) by {
                assert(pre.comp_deps_canceled(i));
                assert forall|j: int| 0 <= j < ui.comps@[i].deps@.len() implies match (
                #[trigger] ui.comps@[i].deps@[j]) {
                    Dependency::Subscription(sd) => !ui.subs@[sd as int].active,
                    _ => true,
                } by {
                    assert(pre.dep_ok(pre.comps@[i].deps@[j]));
                }
            }
            assert forall|s2: int| 0 <= s2 < ui.subs@.len() implies #[trigger] ui.sub_settled(
                s2,
            ) by {
                if s2 < pre.subs@.len() {
                    assert(pre.sub_settled(s2));
                    assert(pre.sub_ok(s2));
                }
            }
        }
        self
    }

    /// Attaches two complementary conditional children driven by one
    /// boolean cell: on every emission the branch the value selects is
    /// activated and the other deactivated in the same step, so once a
    /// first value has arrived exactly one of the two is visible — never
    /// zero, never two — though both may exist, built, at once. Each
    /// branch is built lazily, the first time its side of the condition
    /// holds. Meant to be chained: returns the same handle.
    pub fn with_if_else(
        self,
        ui: &mut Ui,
        cell: Id,
        child_true: Blueprint,
        child_false: Blueprint,
    ) -> (c: Component)
        requires
            old(ui).wf(),
            old(ui).valid_handle(self),
            cell < old(ui).bool_cells@.len(),
        ensures
            c == self,
            final(ui).wf(),
            final(ui).subs@.len() == old(ui).subs@.len() + 1,
            forall|s: int|
                0 <= s < old(ui).subs@.len() ==> final(ui).subs@[s] == old(ui).subs@[s],
            final(ui).comps@.len() == old(ui).comps@.len() + 1,
            old(ui).bool_cells@[cell as int].value ==> final(ui).subs@[old(ui).subs@.len() as int]
                == (SubState {
                active: true,
                cell,
                action: SubAction::CondPair {
                    target: self.id,
                    child_true: Children::Init { id: old(ui).comps@.len() as usize, shown: true },
                    child_false: Children::Uninit(child_false),
                },
            }),
            !old(ui).bool_cells@[cell as int].value ==> final(ui).subs@[old(ui).subs@.len() as int] == (SubState {
                active: true,
                cell,
                action: SubAction::CondPair {
                    target: self.id,
                    child_true: Children::Uninit(child_true),
                    child_false: Children::Init { id: old(ui).comps@.len() as usize, shown: true },
                },
            }),
            ({
                let b = final(ui).comps@[old(ui).comps@.len() as int];
                &&& b.tag == (if old(ui).bool_cells@[cell as int].value {
                    child_true.tag
                } else {
                    child_false.tag
                })
                &&& b.text == (if old(ui).bool_cells@[cell as int].value {
                    child_true.text
                } else {
                    child_false.text
                })
                &&& b.style == (if old(ui).bool_cells@[cell as int].value {
                    child_true.style
                } else {
                    child_false.style
                })
                &&& b.parent == Some(self.id)
                &&& b.strong == 2
            }),
            final(ui).comps@[self.id as int].deps@ == old(ui).comps@[self.id as int].deps@.push(
                Dependency::Child(old(ui).comps@.len() as usize),
            ).push(Dependency::Subscription(old(ui).subs@.len() as usize)),
            final(ui).effects@ == old(ui).effects@ + Ui::build_effects(
                (if old(ui).bool_cells@[cell as int].value {
                    child_true
                } else {
                    child_false
                }),
                old(ui).comps@.len() as usize,
                self.id,
            ),
            forall|i: int|
                0 <= i < old(ui).comps@.len() && i != self.id ==> final(ui).comps@[i] == old(ui).comps@[i],
            final(ui).comps@[self.id as int].strong == old(ui).comps@[self.id as int].strong,
            final(ui).comps@[self.id as int].tag == old(ui).comps@[self.id as int].tag,
            final(ui).comps@[self.id as int].style == old(ui).comps@[self.id as int].style,
            final(ui).comps@[self.id as int].text == old(ui).comps@[self.id as int].text,
            final(ui).comps@[self.id as int].parent == old(ui).comps@[self.id as int].parent,
            final(ui).bool_cells@.len() == old(ui).bool_cells@.len(),
            forall|cc: int|
                0 <= cc < old(ui).bool_cells@.len() && cc != cell ==> final(ui).bool_cells@[cc]
                    == old(ui).bool_cells@[cc],
            final(ui).bool_cells@[cell as int].value == old(ui).bool_cells@[cell as int].value,
            final(ui).bool_cells@[cell as int].subs@ == old(ui).bool_cells@[
                cell as int
            ].subs@.push(old(ui).subs@.len() as usize),
            final(ui).text_cells == old(ui).text_cells,
            final(ui).root_taken == old(ui).root_taken,
    {
        let v = ui.bool_cells[cell].value;
        let ct: Children;
        let cf: Children;
        if v {
            let id = ui.build_child(child_true, self.id);
            ct = Children::Init { id, shown: true };
            cf = Children::Uninit(child_false);
        } else {
            let id = ui.build_child(child_false, self.id);
            ct = Children::Uninit(child_true);
            cf = Children::Init { id, shown: true };
        }
        let s = ui.subs.len();
        ui.subs.push(
            SubState {
                active: true,
                cell,
                action: SubAction::CondPair { target: self.id, child_true: ct, child_false: cf },
            },
        );
        let bc = &mut ui.bool_cells[cell];
        bc.subs.push(s);
        let cm = &mut ui.comps[self.id];
        cm.deps.push(Dependency::Subscription(s));
        proof {
            let pre = *old(ui);
            assert forall|i: int, j: int|
                0 <= i < ui.comps@.len() && 0 <= j < ui.comps@[i].deps@.len() implies ui.dep_ok(
                ui.comps@[i].deps@[j],
            ) by {
                if i < pre.comps@.len() && (i != self.id || j < pre.comps@[i].deps@.len()) {
                    assert(pre.dep_ok(pre.comps@[i].deps@[j]));
                }
            }
            assert forall|s2: int| 0 <= s2 < ui.subs@.len() implies #[trigger] ui.sub_ok(s2) by {
                if s2 < pre.subs@.len() {
                    assert(pre.sub_ok(s2));
                    match pre.subs@[s2].action {
                        SubAction::SetText { .. } => {},
                        _ => {
                            if pre.subs@[s2].cell == cell {
                                lemma_push_contains(
                                    pre.bool_cells@[cell as int].subs@,
                                    s,
                                    s2 as usize,
                                );
                            }
                        },
                    }
                } else {
                    assert(ui.bool_cells@[cell as int].subs@[pre.bool_cells@[
                        cell as int
                    ].subs@.len() as int] == s);
                }
            }
            assert forall|i: int|
                0 <= i < ui.comps@.len() && (#[trigger] ui.comps@[i]).strong == 0 implies
                ui.comp_deps_canceled(i) by {
                assert(pre.comp_deps_canceled(i));
                assert forall|j: int| 0 <= j < ui.comps@[i].deps@.len() implies match (
                #[trigger] ui.comps@[i].deps@[j]) {
                    Dependency::Subscription(sd) => !ui.subs@[sd as int].active,
                    _ => true,
                } by {
                    assert(pre.dep_ok(pre.comps@[i].deps@[j]));
                }
            }
            assert forall|s2: int| 0 <= s2 < ui.subs@.len() implies #[trigger] ui.sub_settled(
                s2,
            ) by {
                if s2 < pre.subs@.len() {
                    assert(pre.sub_settled(s2));
                    assert(pre.sub_ok(s2));
                }
            }
        }
        self
    }
}

impl WeakComponent {
    /// Attempts to recover a strong reference. Returns the component, with
    /// its count raised, while at least one strong owner remains; returns
    /// nothing once the component has been torn down (or at the count's
    /// machine bound). This is the only way a binding reaches its owner,
    /// and a missed upgrade is the expected, silent outcome of an emission
    /// that arrives after teardown.
    pub fn upgrade(&self, ui: &mut Ui) -> (r: Option<Component>)
        requires
            old(ui).wf(),
        ensures
            final(ui).wf(),
            match r {
                Some(c) => {
                    &&& c.id == self.id
                    &&& old(ui).comp_alive(self.id)
                    &&& final(ui).comps@ == old(ui).comps@.update(
                        self.id as int,
                        CompState {
                            strong: (old(ui).comps@[self.id as int].strong + 1) as usize,
                            ..old(ui).comps@[self.id as int]
                        },
                    )
                },
                None => {
                    &&& *final(ui) == *old(ui)
                    &&& (!old(ui).comp_alive(self.id) || old(ui).comps@[self.id as int].strong
                        == usize::MAX)
                },
            },
            final(ui).subs == old(ui).subs,
            final(ui).bool_cells == old(ui).bool_cells,
            final(ui).text_cells == old(ui).text_cells,
            final(ui).effects == old(ui).effects,
            final(ui).root_taken == old(ui).root_taken,
    {
        if self.id < ui.comps.len() {
            let s0 = ui.comps[self.id].strong;
            if s0 > 0 && s0 < usize::MAX {
                let cm = &mut ui.comps[self.id];
                cm.strong = cm.strong + 1;
                proof {
                    assert forall|i: int, j: int|
                        0 <= i < ui.comps@.len() && 0 <= j < ui.comps@[i].deps@.len() implies
                        ui.dep_ok(ui.comps@[i].deps@[j]) by {
                        assert(old(ui).dep_ok(old(ui).comps@[i].deps@[j]));
                    }
                    assert forall|s: int| 0 <= s < ui.subs@.len() implies #[trigger] ui.sub_ok(
                        s,
                    ) by {
                        assert(old(ui).sub_ok(s));
                    }
                    assert forall|i: int|
                        0 <= i < ui.comps@.len() && (#[trigger] ui.comps@[i]).strong == 0 implies
                        ui.comp_deps_canceled(i) by {
                        assert(old(ui).comp_deps_canceled(i));
                    }
                    assert forall|s: int| 0 <= s < ui.subs@.len() implies #[trigger] ui.sub_settled(
                        s,
                    ) by {
                        assert(old(ui).sub_settled(s));
                        assert(old(ui).sub_ok(s));
                    }
                }
                return Some(Component { id: self.id });
            }
        }
        None
    }
}

} // verus!
