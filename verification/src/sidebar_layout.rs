//! The layout of sidebar controls, in whole pixels.
use vstd::prelude::*;

verus! {

/// The width of the sidebar in pixels.
pub const SIDEBAR_WIDTH_PX: u32 = 300;

/// A rounded selector button of the sidebar: a name for the element, the text it
/// shows, and its size, border and bottom margin in pixels. It is drawn black
/// with white centred text.
#[derive(Clone, Debug, PartialEq, Eq)]
pub struct SelectorButton {
    pub name: String,
    pub label: String,
    pub width_px: u32,
    pub height_px: u32,
    pub border_px: u32,
    pub margin_bottom_px: u32,
}

/// The selector button named `name` that shows `value`: three quarters of the
/// sidebar wide, 30 pixels high, with a 5 pixel border and a 4 pixel bottom margin.
pub fn selector_button(name: &str, value: &str) -> (button: SelectorButton)
    ensures
        button.name@ == name@,
        button.label@ == value@,
        button.width_px == SIDEBAR_WIDTH_PX * 3 / 4,
        button.height_px == 30,
        button.border_px == 5,
        button.margin_bottom_px == 4,
{
    SelectorButton {
        name: String::from_str(name),
        label: String::from_str(value),
        width_px: SIDEBAR_WIDTH_PX * 3 / 4,
        height_px: 30,
        border_px: 5,
        margin_bottom_px: 4,
    }
}

} // verus!
