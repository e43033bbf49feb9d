//! Markers that widgets tag their objects with.
use crate::markers::Marker;
use vstd::prelude::*;

verus! {

/// Tags a basic button.
#[derive(Debug, Clone, Copy)]
pub struct BasicButton;

/// Tags a button as selected.
#[derive(Debug, Clone, Copy)]
pub struct SelectedButton;

/// Tags a button that cannot be interacted with.
#[derive(Debug, Clone, Copy)]
pub struct DisabledButton;

/// Tags the object under which a modal's content goes.
#[derive(Debug, Clone, Copy)]
pub struct ModalContentParent;

/// Tags the content panel of one tab.
#[derive(Debug, Clone, Copy)]
pub struct TabContent;

/// Tags the button that opens one tab.
#[derive(Debug, Clone, Copy)]
pub struct TabContentButton;

/// Settings of a tabbed view.
pub struct TabbedContentSettings {
    /// One unique name per tab.
    pub tabs: Vec<String>,
    /// The index of the tab shown first.
    pub open_tab: usize,
}

impl Marker for BasicButton {
    open spec fn key_spec() -> Seq<char> {
        "ns_core::widgets::BasicButton"@
    }

    fn type_path() -> (r: String) {
        String::from_str("ns_core::widgets::BasicButton")
    }
}

impl Marker for SelectedButton {
    open spec fn key_spec() -> Seq<char> {
        "ns_core::widgets::SelectedButton"@
    }

    fn type_path() -> (r: String) {
        String::from_str("ns_core::widgets::SelectedButton")
    }
}

impl Marker for DisabledButton {
    open spec fn key_spec() -> Seq<char> {
        "ns_core::widgets::DisabledButton"@
    }

    fn type_path() -> (r: String) {
        String::from_str("ns_core::widgets::DisabledButton")
    }
}

impl Marker for ModalContentParent {
    open spec fn key_spec() -> Seq<char> {
        "ns_core::widgets::ModalContentParent"@
    }

    fn type_path() -> (r: String) {
        String::from_str("ns_core::widgets::ModalContentParent")
    }
}

impl Marker for TabContent {
    open spec fn key_spec() -> Seq<char> {
        "ns_core::widgets::TabContent"@
    }

    fn type_path() -> (r: String) {
        String::from_str("ns_core::widgets::TabContent")
    }
}

impl Marker for TabContentButton {
    open spec fn key_spec() -> Seq<char> {
        "ns_core::widgets::TabContentButton"@
    }

    fn type_path() -> (r: String) {
        String::from_str("ns_core::widgets::TabContentButton")
    }
}

} // verus!
