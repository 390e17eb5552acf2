//! Symbol layers: icons and text.

use crate::style_spec::types::Anchor;
use vstd::prelude::*;

verus! {

/// Icons hide behind other symbols unless the style says otherwise.
pub fn default_icon_allow_overlap() -> (result: bool)
    ensures
        !result,
{
    false
}

/// The part of an icon that sits on its anchor point.
#[derive(Debug, Clone, Copy, PartialEq, Eq, Structural)]
pub enum IconAnchor {
    Center,
    Left,
    Right,
    Top,
    Bottom,
    TopLeft,
    TopRight,
    BottomLeft,
    BottomRight,
}

impl Default for IconAnchor {
    fn default() -> (result: Self)
        ensures
            result == IconAnchor::Center,
    {
        IconAnchor::Center
    }
}

/// An icon sits on its anchor point with its centre unless the style says otherwise.
pub fn default_icon_anchor() -> (result: IconAnchor)
    ensures
        result == IconAnchor::Center,
{
    IconAnchor::Center
}

/// Icons keep other symbols from overlapping them unless the style says otherwise.
pub fn default_icon_ignore_placement() -> (result: bool)
    ensures
        !result,
{
    false
}

/// Icons are not flipped to stay upright unless the style says otherwise.
pub fn default_icon_keep_upright() -> (result: bool)
    ensures
        !result,
{
    false
}

/// Text is not shown without its icon unless the style says otherwise.
pub fn default_icon_optional() -> (result: bool)
    ensures
        !result,
{
    false
}

/// The frame that a symbol is aligned to, or the choice left to the placement.
#[derive(Debug, Clone, Copy, PartialEq, Eq, Structural)]
pub enum Alignment {
    MapPlane,
    Viewport,
    Auto,
}

impl Default for Alignment {
    fn default() -> (result: Self)
        ensures
            result == Alignment::Auto,
    {
        Alignment::Auto
    }
}

/// The pitch alignment of icons is left to the placement unless the style says otherwise.
pub fn default_icon_pitch_alignment() -> (result: Alignment)
    ensures
        result == Alignment::Auto,
{
    Alignment::Auto
}

/// The rotation alignment of icons is left to the placement unless the style says otherwise.
pub fn default_icon_rotation_alignment() -> (result: Alignment)
    ensures
        result == Alignment::Auto,
{
    Alignment::Auto
}

/// Whether an icon is stretched to fit its text, and along which axes.
#[derive(Debug, Clone, Copy, PartialEq, Eq, Structural)]
pub enum IconTextFit {
    NoFit,
    Width,
    Height,
    Both,
}

impl Default for IconTextFit {
    fn default() -> (result: Self)
        ensures
            result == IconTextFit::NoFit,
    {
        IconTextFit::NoFit
    }
}

/// Icons are not stretched to their text unless the style says otherwise.
pub fn default_icon_text_fit() -> (result: IconTextFit)
    ensures
        result == IconTextFit::NoFit,
{
    IconTextFit::NoFit
}

/// Symbols may cross tile edges unless the style says otherwise.
pub fn default_symbol_avoid_edges() -> (result: bool)
    ensures
        !result,
{
    false
}

/// Where a symbol is placed on its geometry.
#[derive(Debug, Clone, Copy, PartialEq, Eq, Structural)]
pub enum SymbolPlacement {
    Point,
    Line,
    LineCenter,
}

impl Default for SymbolPlacement {
    fn default() -> (result: Self)
        ensures
            result == SymbolPlacement::Point,
    {
        SymbolPlacement::Point
    }
}

/// The order in which overlapping symbols are drawn.
#[derive(Debug, Clone, Copy, PartialEq, Eq, Structural)]
pub enum SymbolZOrder {
    Auto,
    ViewportY,
    Source,
}

impl Default for SymbolZOrder {
    fn default() -> (result: Self)
        ensures
            result == SymbolZOrder::Auto,
    {
        SymbolZOrder::Auto
    }
}

/// The drawing order of symbols is chosen automatically unless the style says otherwise.
pub fn default_symbol_z_order() -> (result: SymbolZOrder)
    ensures
        result == SymbolZOrder::Auto,
{
    SymbolZOrder::Auto
}

/// Text hides behind other symbols unless the style says otherwise.
pub fn default_text_allow_overlap() -> (result: bool)
    ensures
        !result,
{
    false
}

/// The part of a text that sits on its anchor point.
#[derive(Debug, Clone, Copy, PartialEq, Eq, Structural)]
pub enum TextAnchor {
    Center,
    Left,
    Right,
    Top,
    Bottom,
    TopLeft,
    TopRight,
    BottomLeft,
    BottomRight,
}

impl Default for TextAnchor {
    fn default() -> (result: Self)
        ensures
            result == TextAnchor::Center,
    {
        TextAnchor::Center
    }
}

/// Text keeps other symbols from overlapping it unless the style says otherwise.
pub fn default_text_ignore_placement() -> (result: bool)
    ensures
        !result,
{
    false
}

/// How the lines of a text are justified.
#[derive(Debug, Clone, Copy, PartialEq, Eq, Structural)]
pub enum TextJustify {
    Auto,
    Left,
    Center,
    Right,
}

impl Default for TextJustify {
    fn default() -> (result: Self)
        ensures
            result == TextJustify::Center,
    {
        TextJustify::Center
    }
}

/// Text along a line is flipped to stay upright unless the style says otherwise.
pub fn default_text_keep_upright() -> (result: bool)
    ensures
        result,
{
    true
}

/// Icons are not shown without their text unless the style says otherwise.
pub fn default_text_optional() -> (result: bool)
    ensures
        !result,
{
    false
}

/// The pitch alignment of text is left to the placement unless the style says otherwise.
pub fn default_text_pitch_alignment() -> (result: Alignment)
    ensures
        result == Alignment::Auto,
{
    Alignment::Auto
}

/// The rotation alignment of text is left to the placement unless the style says otherwise.
pub fn default_text_rotation_alignment() -> (result: Alignment)
    ensures
        result == Alignment::Auto,
{
    Alignment::Auto
}

/// A change of letter case applied to a text.
#[derive(Debug, Clone, Copy, PartialEq, Eq, Structural)]
pub enum TextTransform {
    NoTransform,
    UpperCase,
    LowerCase,
}

impl Default for TextTransform {
    fn default() -> (result: Self)
        ensures
            result == TextTransform::NoTransform,
    {
        TextTransform::NoTransform
    }
}

/// Text keeps its letter case unless the style says otherwise.
pub fn default_text_transform() -> (result: TextTransform)
    ensures
        result == TextTransform::NoTransform,
{
    TextTransform::NoTransform
}

/// A place around its anchor point that a text may be moved to.
#[derive(Debug, Clone, Copy, PartialEq, Eq, Structural)]
pub enum TextVariableAnchor {
    Center,
    Left,
    Right,
    Top,
    Bottom,
    TopLeft,
    TopRight,
    BottomLeft,
    BottomRight,
}

impl Default for TextVariableAnchor {
    fn default() -> (result: Self)
        ensures
            result == TextVariableAnchor::Center,
    {
        TextVariableAnchor::Center
    }
}

/// The direction in which a text is written.
#[derive(Debug, Clone, Copy, PartialEq, Eq, Structural)]
pub enum TextWritingMode {
    Horizontal,
    Vertical,
}

impl Default for TextWritingMode {
    fn default() -> (result: Self)
        ensures
            result == TextWritingMode::Horizontal,
    {
        TextWritingMode::Horizontal
    }
}

/// An icon's translation is fixed to the map unless the style says otherwise.
pub fn default_icon_translate_anchor() -> (result: Anchor)
    ensures
        result == Anchor::MapPlane,
{
    Anchor::MapPlane
}

/// A text's translation is fixed to the map unless the style says otherwise.
pub fn default_text_translate_anchor() -> (result: Anchor)
    ensures
        result == Anchor::MapPlane,
{
    Anchor::MapPlane
}

} // verus!
