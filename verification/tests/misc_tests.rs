use ai_isochrone::ensemble::member_label;
use ai_isochrone::grib::FileGribProvider;
use ai_isochrone::grid::SeaCells;
use ai_isochrone::sails::{retention_band, sail_color_rgb, sail_name, switch_rule, SwitchRule, TwaBound};

#[test]
fn sail_colors() {
    assert_eq!(sail_color_rgb(Some(0)), [80, 160, 255]);
    assert_eq!(sail_color_rgb(Some(1)), [255, 170, 60]);
    assert_eq!(sail_color_rgb(Some(2)), [255, 80, 80]);
    assert_eq!(sail_color_rgb(Some(3)), [100, 220, 90]);
    assert_eq!(sail_color_rgb(Some(4)), [200, 100, 255]);
    assert_eq!(sail_color_rgb(Some(5)), [200, 200, 200]);
    assert_eq!(sail_color_rgb(None), [200, 200, 200]);
}

#[test]
fn sail_names_with_fallback() {
    let names = ["Genoa + main", "Gennaker"];
    assert_eq!(sail_name(&names, 1), "Gennaker");
    assert_eq!(sail_name(&names, 2), "Unknown");
}

#[test]
fn member_labels_with_fallback() {
    let labels = vec!["member_0".to_string(), "member_1".to_string()];
    assert_eq!(member_label(&labels, 0), "member_0");
    assert_eq!(member_label(&labels, 7), "member");
}

#[test]
fn retention_bands() {
    assert!(matches!(retention_band(0), TwaBound::AtMost(118)));
    assert!(matches!(retention_band(1), TwaBound::AtMost(140)));
    assert!(matches!(retention_band(2), TwaBound::AtMost(110)));
    assert!(matches!(retention_band(3), TwaBound::AtLeast(78)));
    assert!(matches!(retention_band(4), TwaBound::AtLeast(115)));
    assert!(matches!(retention_band(9), TwaBound::Never));
}

#[test]
fn switching_rules() {
    assert!(matches!(switch_rule(2, 2), SwitchRule::Never));
    assert!(matches!(switch_rule(0, 3), SwitchRule::MarginAnd(TwaBound::AtLeast(120))));
    assert!(matches!(switch_rule(3, 0), SwitchRule::Angle(TwaBound::AtMost(82))));
    assert!(matches!(switch_rule(3, 4), SwitchRule::MarginAnd(TwaBound::AtLeast(150))));
    assert!(matches!(switch_rule(4, 3), SwitchRule::MarginAnd(TwaBound::AtMost(120))));
    assert!(matches!(switch_rule(0, 1), SwitchRule::Margin));
    assert!(matches!(switch_rule(1, 0), SwitchRule::Margin));
}

#[test]
fn file_grib_provider_opens() {
    let p = FileGribProvider::from_file("/nonexistent/file.grb2");
    assert!(p.is_ok());
}

#[test]
fn sea_cells_from_mask() {
    // 2 rows (n_lat = 1) x 3 columns (n_lon = 2)
    let mask = vec![true, false, true, false, false, true];
    let cells = SeaCells::from_mask(1, 2, &mask);
    assert!(cells.is_sea_cell((0, 0)));
    assert!(!cells.is_sea_cell((0, 1)));
    assert!(cells.is_sea_cell((0, 2)));
    assert!(!cells.is_sea_cell((1, 0)));
    assert!(cells.is_sea_cell((1, 2)));
    assert!(!cells.is_sea_cell((2, 0)));
    assert!(!cells.is_sea_cell((-1, 0)));
    let none = SeaCells::from_mask(-1, 3, &Vec::new());
    assert!(!none.is_sea_cell((0, 0)));
}
