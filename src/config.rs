//! The capture region and the preset settings.
use vstd::prelude::*;

verus! {

pub const PRESET_X: i32 = 2575;
pub const PRESET_Y: i32 = 70;
pub const PRESET_WIDTH: u32 = 870;
pub const PRESET_HEIGHT: u32 = 55;
pub const PRESET_REFRESH_MS: u64 = 500;
pub const PRESET_EMPTY_THRESHOLD: u32 = 2;
pub const PRESET_WINDOW_DETECTION: bool = true;
pub const PRESET_PREPROCESS_IMAGES: bool = false;

/// The rectangle of the screen that is captured.
#[derive(Clone, Copy, Debug, PartialEq, Eq, Structural)]
pub struct Region {
    pub x: i32,
    pub y: i32,
    pub width: u32,
    pub height: u32,
}

impl Region {
    /// The region of the game client's battle text at its default placement.
    pub fn preset() -> (r: Self)
        ensures
            r == (Region { x: PRESET_X, y: PRESET_Y, width: PRESET_WIDTH, height: PRESET_HEIGHT }),
    {
        Region { x: PRESET_X, y: PRESET_Y, width: PRESET_WIDTH, height: PRESET_HEIGHT }
    }
}

/// Whether frames are preprocessed when the setting is absent.
pub fn default_preprocess_images() -> (r: bool)
    ensures
        r == PRESET_PREPROCESS_IMAGES,
{
    PRESET_PREPROCESS_IMAGES
}

/// The window class "PROClient.x86_64" of the game client.
pub open spec fn target_window_class() -> Seq<char> {
    seq!['P', 'R', 'O', 'C', 'l', 'i', 'e', 'n', 't', '.', 'x', '8', '6', '_', '6', '4']
}

/// Whether a focused window of class `class` is the game client.
pub fn is_target_window(class: &str) -> (r: bool)
    ensures
        r == (class@ == target_window_class()),
{
    proof {
        reveal_strlit("PROClient.x86_64");
    }
    let target = "PROClient.x86_64".to_owned();
    assert(target@ =~= target_window_class());
    class.to_owned() == target
}

} // verus!
