//! The panel's place in the window, and what the window calls it.

use crate::panel::CallHierarchyPanel;
use vstd::prelude::*;

verus! {

/// The side that the settings name.
#[derive(Debug, Clone, Copy, PartialEq, Eq, Structural)]
pub enum DockSide {
    Left,
    Right,
}

/// The docks of the window.
#[derive(Debug, Clone, Copy, PartialEq, Eq, Structural)]
pub enum DockPosition {
    Left,
    Bottom,
    Right,
}

impl CallHierarchyPanel {
    /// The name under which the window stores the panel's state.
    pub fn persistent_name() -> (name: &'static str)
        ensures
            name@ == "Call Hierarchy Panel"@,
    {
        "Call Hierarchy Panel"
    }

    /// The key by which the panel is found.
    pub fn panel_key() -> (key: &'static str)
        ensures
            key@ == "CallHierarchyPanel"@,
    {
        "CallHierarchyPanel"
    }

    /// The tooltip of the panel's button.
    pub fn icon_tooltip() -> (tooltip: Option<&'static str>)
        ensures
            tooltip matches Some(text) && text@ == "Call Hierarchy Panel"@,
    {
        Some("Call Hierarchy Panel")
    }

    /// Where the panel's button stands among the others.
    pub fn activation_priority() -> (priority: u32)
        ensures
            priority == 7,
    {
        7
    }

    pub open spec fn spec_position(dock: DockSide) -> DockPosition {
        match dock {
            DockSide::Left => DockPosition::Left,
            DockSide::Right => DockPosition::Right,
        }
    }

    /// The dock of a panel whose settings say `dock`.
    #[verifier::when_used_as_spec(spec_position)]
    pub fn position(dock: DockSide) -> (position: DockPosition)
        ensures
            position == Self::position(dock),
            dock is Left ==> position is Left,
            dock is Right ==> position is Right,
    {
        match dock {
            DockSide::Left => DockPosition::Left,
            DockSide::Right => DockPosition::Right,
        }
    }

    /// Whether the panel may stand in a dock: at either side.
    pub fn position_is_valid(position: DockPosition) -> (valid: bool)
        ensures
            valid == (position is Left || position is Right),
    {
        match position {
            DockPosition::Left => true,
            DockPosition::Right => true,
            DockPosition::Bottom => false,
        }
    }

    pub open spec fn spec_set_position(position: DockPosition) -> DockSide {
        match position {
            DockPosition::Left => DockSide::Left,
            DockPosition::Bottom => DockSide::Left,
            DockPosition::Right => DockSide::Right,
        }
    }

    /// What the settings are to say for a panel that is moved to a dock.
    #[verifier::when_used_as_spec(spec_set_position)]
    pub fn set_position(position: DockPosition) -> (dock: DockSide)
        ensures
            dock == Self::set_position(position),
            dock is Right <==> position is Right,
    {
        match position {
            DockPosition::Left => DockSide::Left,
            DockPosition::Bottom => DockSide::Left,
            DockPosition::Right => DockSide::Right,
        }
    }
}

/// A panel that is moved to a dock where it may stand is found there, and every
/// panel stands in such a dock.
pub proof fn law_position_is_what_was_set(position: DockPosition, dock: DockSide)
    ensures
        position is Left || position is Right ==> CallHierarchyPanel::position(
            CallHierarchyPanel::set_position(position),
        ) == position,
        !(CallHierarchyPanel::position(dock) is Bottom),
        CallHierarchyPanel::position(dock) is Left <==> dock is Left,
        CallHierarchyPanel::set_position(position) is Left <==> !(position is Right),
{
}

} // verus!
