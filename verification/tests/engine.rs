use wasmide::{Blueprint, Children, Component, Style, SubAction, Ui};

fn blueprint(tag: &str, text: &str) -> Blueprint {
    Blueprint { tag: tag.to_string(), style: String::new(), text: text.to_string() }
}

fn shown(ch: &Children) -> bool {
    matches!(ch, Children::Init { shown: true, .. })
}

fn built_id(ch: &Children) -> Option<usize> {
    match ch {
        Children::Init { id, .. } => Some(*id),
        Children::Uninit(_) => None,
    }
}

#[test]
fn root_called_once_succeeds() {
    let mut ui = Ui::new();
    assert!(!ui.root_taken);
    let root = Component::root(&mut ui, Style::none());
    assert!(ui.root_taken);
    assert_eq!(ui.comps[root.html()].strong, 2);
    assert!(ui.comps[root.html()].parent.is_none());
}

#[test]
fn create_records_creation_effect() {
    let mut ui = Ui::new();
    let c = Component::new(&mut ui, "div", Style::none());
    assert!(matches!(
        &ui.effects[0],
        wasmide::Effect::Create { id, tag } if *id == c.html() && tag == "div"
    ));
    assert_eq!(ui.comps[c.html()].tag, "div");
    assert_eq!(ui.comps[c.html()].strong, 1);
}

#[test]
fn set_style_overwrites_class() {
    let mut ui = Ui::new();
    let c = Component::new(&mut ui, "div", Style::none());
    c.set_style(&mut ui, Style("bg".to_string()));
    assert_eq!(ui.comps[c.html()].style, "bg");
    c.set_style(&mut ui, Style("fg".to_string()));
    assert_eq!(ui.comps[c.html()].style, "fg");
}

#[test]
fn with_appends_child_and_takes_ownership() {
    let mut ui = Ui::new();
    let parent = Component::new(&mut ui, "div", Style::none());
    let child = Component::new(&mut ui, "p", Style::none());
    let cid = child.html();
    let pid = parent.html();
    let _parent = parent.with(&mut ui, child);
    assert_eq!(ui.comps[cid].parent, Some(pid));
    assert_eq!(ui.comps[cid].strong, 1);
    assert_eq!(ui.comps[pid].deps.len(), 1);
}

#[test]
fn bind_text_updates_content_without_detaching() {
    let mut ui = Ui::new();
    let cell = ui.new_text_cell("Hello".to_string());
    let c = Component::new(&mut ui, "p", Style::none());
    let id = c.html();
    c.set_inner_html(&mut ui, cell);
    assert_eq!(ui.comps[id].text, "Hello");
    let parent_before = ui.comps[id].parent.clone();
    let deps_before = ui.comps[id].deps.len();
    ui.set_text_cell(cell, "World".to_string());
    assert_eq!(ui.comps[id].text, "World");
    assert_eq!(ui.comps[id].parent, parent_before);
    assert_eq!(ui.comps[id].deps.len(), deps_before);
}

#[test]
fn conditional_child_is_lazy_until_first_true() {
    let mut ui = Ui::new();
    let cell = ui.new_bool_cell(false);
    let parent = Component::new(&mut ui, "div", Style::none());
    let comps_before = ui.comps.len();
    let _parent = parent.with_if(&mut ui, cell, blueprint("p", "maybe"));
    assert_eq!(ui.comps.len(), comps_before);
    match &ui.subs[0].action {
        SubAction::Cond { child, .. } => assert!(built_id(child).is_none()),
        _ => panic!("expected a conditional binding"),
    }
    ui.set_bool_cell(cell, true);
    assert_eq!(ui.comps.len(), comps_before + 1);
    match &ui.subs[0].action {
        SubAction::Cond { child, .. } => assert!(shown(child)),
        _ => panic!("expected a conditional binding"),
    }
}

#[test]
fn conditional_child_built_eagerly_when_initially_true() {
    let mut ui = Ui::new();
    let cell = ui.new_bool_cell(true);
    let parent = Component::new(&mut ui, "div", Style::none());
    let comps_before = ui.comps.len();
    let _parent = parent.with_if(&mut ui, cell, blueprint("p", "yes"));
    assert_eq!(ui.comps.len(), comps_before + 1);
}

#[test]
fn toggling_keeps_widget_identity() {
    let mut ui = Ui::new();
    let cell = ui.new_bool_cell(true);
    let parent = Component::new(&mut ui, "div", Style::none());
    let _parent = parent.with_if(&mut ui, cell, blueprint("p", "flip"));
    let first = match &ui.subs[0].action {
        SubAction::Cond { child, .. } => built_id(child).unwrap(),
        _ => panic!("expected a conditional binding"),
    };
    let comps_after_build = ui.comps.len();
    ui.set_bool_cell(cell, false);
    ui.set_bool_cell(cell, true);
    let again = match &ui.subs[0].action {
        SubAction::Cond { child, .. } => built_id(child).unwrap(),
        _ => panic!("expected a conditional binding"),
    };
    assert_eq!(first, again);
    assert_eq!(ui.comps.len(), comps_after_build);
}

#[test]
fn if_else_shows_exactly_one_branch() {
    let mut ui = Ui::new();
    let cell = ui.new_bool_cell(true);
    let parent = Component::new(&mut ui, "div", Style::none());
    let _parent = parent.with_if_else(
        &mut ui,
        cell,
        blueprint("p", "day"),
        blueprint("p", "night"),
    );
    let check = |ui: &Ui, want_true: bool| {
        match &ui.subs[0].action {
            SubAction::CondPair { child_true, child_false, .. } => {
                assert_eq!(shown(child_true), want_true);
                assert_eq!(shown(child_false), !want_true);
            },
            _ => panic!("expected a dual conditional binding"),
        }
    };
    check(&ui, true);
    ui.set_bool_cell(cell, false);
    check(&ui, false);
    ui.set_bool_cell(cell, true);
    check(&ui, true);
    match &ui.subs[0].action {
        SubAction::CondPair { child_true, child_false, .. } => {
            assert!(built_id(child_true).is_some());
            assert!(built_id(child_false).is_some());
            assert_ne!(built_id(child_true), built_id(child_false));
        },
        _ => panic!("expected a dual conditional binding"),
    }
}

#[test]
fn teardown_cancels_all_owned_subscriptions() {
    let mut ui = Ui::new();
    let tcell = ui.new_text_cell("a".to_string());
    let bcell = ui.new_bool_cell(true);
    let parent = Component::new(&mut ui, "div", Style::none());
    let child = Component::new(&mut ui, "p", Style::none());
    child.set_inner_html(&mut ui, tcell);
    let pid = parent.html();
    let cid = child.html();
    let parent = parent.with(&mut ui, child);
    let parent = parent.with_if(&mut ui, bcell, blueprint("span", "inner"));
    assert!(ui.subs.iter().all(|s| s.active));
    ui.drop_strong(parent);
    assert_eq!(ui.comps[pid].strong, 0);
    assert_eq!(ui.comps[cid].strong, 0);
    assert!(ui.subs.iter().all(|s| !s.active));
    match &ui.subs[1].action {
        SubAction::Cond { child: Children::Init { id, .. }, .. } => {
            assert_eq!(ui.comps[*id].strong, 0);
        },
        _ => panic!("expected a built conditional child"),
    }
    ui.set_text_cell(tcell, "b".to_string());
    assert_eq!(ui.comps[cid].text, "a");
}

#[test]
fn dropping_parent_orphans_child_cleanly() {
    let mut ui = Ui::new();
    let a = Component::new(&mut ui, "div", Style::none());
    let b = Component::new(&mut ui, "p", Style::none());
    let aid = a.html();
    let bid = b.html();
    let a = a.with(&mut ui, b);
    let effects_before = ui.effects.len();
    ui.drop_strong(a);
    assert_eq!(ui.comps[aid].strong, 0);
    assert_eq!(ui.comps[bid].strong, 0);
    assert_eq!(ui.effects.len(), effects_before);
}

#[test]
fn upgrade_fails_after_teardown() {
    let mut ui = Ui::new();
    let c = Component::new(&mut ui, "div", Style::none());
    let weak = c.downgrade();
    let strong = weak.upgrade(&mut ui).unwrap();
    assert_eq!(strong.html(), c.html());
    assert_eq!(ui.comps[c.html()].strong, 2);
    ui.drop_strong(strong);
    ui.drop_strong(c);
    assert!(weak.upgrade(&mut ui).is_none());
}

#[test]
fn toggle_after_teardown_changes_nothing() {
    let mut ui = Ui::new();
    let cell = ui.new_bool_cell(true);
    let parent = Component::new(&mut ui, "div", Style::none());
    let parent = parent.with_if(&mut ui, cell, blueprint("p", "gone"));
    ui.drop_strong(parent);
    assert!(!ui.subs[0].active);
    let comps_before = ui.comps.len();
    let effects_before = ui.effects.len();
    ui.set_bool_cell(cell, false);
    ui.set_bool_cell(cell, true);
    assert_eq!(ui.comps.len(), comps_before);
    assert_eq!(ui.effects.len(), effects_before);
}

#[test]
fn constant_cell_emits_once_at_subscribe() {
    let mut ui = Ui::new();
    let cell = ui.new_text_cell("fixed".to_string());
    let c = Component::new(&mut ui, "p", Style::none());
    c.set_inner_html(&mut ui, cell);
    assert_eq!(ui.comps[c.html()].text, "fixed");
}

#[test]
fn click_handler_lives_as_dependency() {
    let mut ui = Ui::new();
    let c = Component::new(&mut ui, "button", Style::none());
    c.set_on_click(&mut ui, 7);
    assert!(matches!(
        ui.comps[c.html()].deps[0],
        wasmide::Dependency::Callback(7)
    ));
    assert!(matches!(
        ui.effects.last().unwrap(),
        wasmide::Effect::SetOnClick { handler: 7, .. }
    ));
}
