//! A reactive UI-component engine: a verified model of a component tree
//! whose widget attributes and visibility are bound to mutable cells.
//!
//! The engine owns the whole observable state — components, their
//! dependency lists, reactive cells, live subscriptions — as plain data in
//! a [`Ui`] value, and records every command for the native toolkit in an
//! effect stream that an unverified host shell replays. Its contracts pin
//! down the lifecycle rules: a torn-down component holds no active
//! subscription, a conditional subtree is built lazily and at most once,
//! and of a dual conditional binding exactly one branch is visible after
//! every emission.

use vstd::prelude::*;

pub mod component;
pub mod effect;
pub mod laws;
mod style;
mod ui;

pub use component::{Blueprint, Children, CompState, Component, Dependency, Id, SubAction,
    SubState, WeakComponent};
pub use effect::Effect;
pub use style::Style;
pub use ui::{BoolCellState, TextCellState, Ui};
