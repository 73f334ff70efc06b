//! Payload types of the platform that the dispatcher carries without reading.
use vstd::prelude::*;

verus! {

/// A colour in RGB format, one byte per channel.
#[derive(Clone, Copy, Debug, PartialEq, Eq, Hash, Structural)]
pub struct Rgb {
    pub r: u8,
    pub g: u8,
    pub b: u8,
}

/// Identifier of a custom emoji.
#[derive(Clone, Debug, PartialEq, Eq, Hash)]
pub struct CustomEmojiId(pub String);

/// This object describes the rating of a user based on their Telegram Star
/// spendings.
#[derive(Clone, Copy, Debug, PartialEq, Eq, Hash, Structural)]
pub struct UserRating {
    /// Current level of the user
    pub level: i32,
    /// Numerical value of the user's rating
    pub rating: i32,
    /// The rating value required to get the current level
    pub current_level_rating: i32,
    /// The rating value required to get to the next level
    pub next_level_rating: Option<i32>,
}

/// This object describes the background of a gift.
#[derive(Clone, Copy, Debug, PartialEq, Eq, Hash, Structural)]
pub struct GiftBackground {
    /// Center color of the background in RGB format
    pub center_color: Rgb,
    /// Edge color of the background in RGB format
    pub edge_color: Rgb,
    /// Text color of the background in RGB format
    pub text_color: Rgb,
}

/// This object contains information about the color scheme for a user's name,
/// message replies and link previews based on a unique gift.
#[derive(Clone, Debug, PartialEq, Eq, Hash)]
pub struct UniqueGiftColors {
    /// Custom emoji identifier of the unique gift's model
    pub model_custom_emoji_id: CustomEmojiId,
    /// Custom emoji identifier of the unique gift's symbol
    pub symbol_custom_emoji_id: CustomEmojiId,
    /// Main color used in light themes; RGB format
    pub light_theme_main_color: Rgb,
    /// List of 1-3 additional colors used in light themes; RGB format
    pub light_theme_other_colors: Vec<Rgb>,
    /// Main color used in dark themes; RGB format
    pub dark_theme_main_color: Rgb,
    /// List of 1-3 additional colors used in dark themes; RGB format
    pub dark_theme_other_colors: Vec<Rgb>,
}

} // verus!
