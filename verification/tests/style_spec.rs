use mapbox_maps::style_spec::layer;
use mapbox_maps::style_spec::layer::{
    Alignment, Cap, IconAnchor, IconTextFit, Join, Pitch, Resampling, SymbolPlacement,
    SymbolZOrder, TextAnchor, TextJustify, TextTransform, TextVariableAnchor, TextWritingMode,
};
use mapbox_maps::style_spec::source::{
    default_cluster, default_encoding, default_generate_id, default_line_metrics, default_scheme,
};
use mapbox_maps::style_spec::{Anchor, Encoding, Scheme, Visibility};

#[test]
fn circle_defaults() {
    assert_eq!(layer::circle::default_pitch_alignment(), Pitch::Viewport);
    assert_eq!(layer::circle::default_pitch_scale(), Pitch::MapPlane);
    assert_eq!(layer::circle::default_translate_anchor(), Anchor::MapPlane);
}

#[test]
fn fill_defaults() {
    assert!(layer::fill::default_antialias());
    assert_eq!(layer::fill::default_translate_anchor(), Anchor::MapPlane);
    assert_eq!(layer::fill_extrusion::default_translate_anchor(), Anchor::MapPlane);
    assert!(layer::fill_extrusion::default_vertical_gradient());
}

#[test]
fn hillshade_line_and_raster_defaults() {
    assert_eq!(layer::hillshade::default_illumination_anchor(), Anchor::Viewport);
    assert_eq!(layer::line::default_translate_anchor(), Anchor::MapPlane);
    assert_eq!(layer::raster::default_resampling(), Resampling::Linear);
}

#[test]
fn symbol_defaults() {
    assert!(!layer::symbol::default_icon_allow_overlap());
    assert_eq!(layer::symbol::default_icon_anchor(), IconAnchor::Center);
    assert!(!layer::symbol::default_icon_ignore_placement());
    assert!(!layer::symbol::default_icon_keep_upright());
    assert!(!layer::symbol::default_icon_optional());
    assert_eq!(layer::symbol::default_icon_pitch_alignment(), Alignment::Auto);
    assert_eq!(layer::symbol::default_icon_rotation_alignment(), Alignment::Auto);
    assert_eq!(layer::symbol::default_icon_text_fit(), IconTextFit::NoFit);
    assert!(!layer::symbol::default_symbol_avoid_edges());
    assert_eq!(layer::symbol::default_symbol_z_order(), SymbolZOrder::Auto);
    assert!(!layer::symbol::default_text_allow_overlap());
    assert!(!layer::symbol::default_text_ignore_placement());
    assert!(layer::symbol::default_text_keep_upright());
    assert!(!layer::symbol::default_text_optional());
    assert_eq!(layer::symbol::default_text_pitch_alignment(), Alignment::Auto);
    assert_eq!(layer::symbol::default_text_rotation_alignment(), Alignment::Auto);
    assert_eq!(layer::symbol::default_text_transform(), TextTransform::NoTransform);
    assert_eq!(layer::symbol::default_icon_translate_anchor(), Anchor::MapPlane);
    assert_eq!(layer::symbol::default_text_translate_anchor(), Anchor::MapPlane);
}

#[test]
fn source_defaults() {
    assert_eq!(default_scheme(), Scheme::XYZ);
    assert_eq!(default_encoding(), Encoding::Mapbox);
    assert!(!default_cluster());
    assert!(!default_generate_id());
    assert!(!default_line_metrics());
}

#[test]
fn enums_default_to_what_a_style_leaves_out() {
    assert_eq!(Pitch::default(), Pitch::MapPlane);
    assert_eq!(Cap::default(), Cap::Butt);
    assert_eq!(Join::default(), Join::Miter);
    assert_eq!(Visibility::default(), Visibility::Visible);
    assert_eq!(Resampling::default(), Resampling::Linear);
    assert_eq!(IconAnchor::default(), IconAnchor::Center);
    assert_eq!(Alignment::default(), Alignment::Auto);
    assert_eq!(IconTextFit::default(), IconTextFit::NoFit);
    assert_eq!(SymbolPlacement::default(), SymbolPlacement::Point);
    assert_eq!(SymbolZOrder::default(), SymbolZOrder::Auto);
    assert_eq!(TextAnchor::default(), TextAnchor::Center);
    assert_eq!(TextJustify::default(), TextJustify::Center);
    assert_eq!(TextTransform::default(), TextTransform::NoTransform);
    assert_eq!(TextVariableAnchor::default(), TextVariableAnchor::Center);
    assert_eq!(TextWritingMode::default(), TextWritingMode::Horizontal);
    assert_eq!(Anchor::default(), Anchor::Viewport);
}
