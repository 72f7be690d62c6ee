use point_tiler::errors::TilerError;
use point_tiler::parser::{
    check_and_get_extension, create_field_mapping, extract_tile_coords, get_extension,
    get_field_value, parse_optional_field, parse_u32, try_get_extension, Extension,
};

#[test]
fn known_extensions_resolve() {
    assert_eq!(get_extension("las"), Extension::Las);
    assert_eq!(get_extension("laz"), Extension::Laz);
    assert_eq!(get_extension("csv"), Extension::Csv);
    assert_eq!(get_extension("txt"), Extension::Txt);
}

#[test]
fn unknown_extension_resolves_to_nothing() {
    assert_eq!(try_get_extension("pdf"), None);
    assert_eq!(try_get_extension(""), None);
    assert_eq!(try_get_extension("LAS"), None);
}

#[test]
fn empty_input_list_is_an_input_failure() {
    let exts: Vec<String> = vec![];
    assert_eq!(check_and_get_extension(&exts).unwrap_err(), TilerError::InputFailure);
}

#[test]
fn mixed_extensions_are_an_input_failure() {
    let exts = vec!["las".to_string(), "csv".to_string()];
    assert_eq!(check_and_get_extension(&exts).unwrap_err(), TilerError::InputFailure);
}

#[test]
fn unsupported_extension_is_an_input_failure() {
    let exts = vec!["xyz".to_string(), "xyz".to_string()];
    assert_eq!(check_and_get_extension(&exts).unwrap_err(), TilerError::InputFailure);
}

#[test]
fn uniform_extensions_resolve() {
    let exts = vec!["laz".to_string(), "laz".to_string(), "laz".to_string()];
    assert_eq!(check_and_get_extension(&exts).unwrap(), Extension::Laz);
}

#[test]
fn field_mapping_matches_headers_case_insensitively() {
    let headers: Vec<String> =
        ["X", "Y", "Z", "Red", "Scan_Angle"].iter().map(|s| s.to_string()).collect();
    let m = create_field_mapping(&headers, true).unwrap();
    assert_eq!(m.x, Some(0));
    assert_eq!(m.y, Some(1));
    assert_eq!(m.z, Some(2));
    assert_eq!(m.red, Some(3));
    assert_eq!(m.scan_angle, Some(4));
    assert_eq!(m.intensity, None);
}

#[test]
fn missing_coordinate_column_is_a_format_failure() {
    let headers: Vec<String> = ["x", "y", "intensity"].iter().map(|s| s.to_string()).collect();
    assert_eq!(create_field_mapping(&headers, true).unwrap_err(), TilerError::FormatFailure);
}

#[test]
fn headerless_files_use_list_order() {
    let m = create_field_mapping(&Vec::new(), false).unwrap();
    assert_eq!(m.x, Some(0));
    assert_eq!(m.y, Some(1));
    assert_eq!(m.z, Some(2));
    assert_eq!(m.blue, Some(16));
}

#[test]
fn field_values_follow_the_mapping() {
    let headers: Vec<String> = ["x", "y", "z", "r"].iter().map(|s| s.to_string()).collect();
    let m = create_field_mapping(&headers, true).unwrap();
    let record: Vec<String> =
        ["1.5", "2.5", "3.5", "  "].iter().map(|s| s.to_string()).collect();
    assert_eq!(get_field_value(&record, &m, "x").unwrap(), "1.5");
    assert_eq!(get_field_value(&record, &m, "intensity"), None);
    // A blank column reads as absent.
    assert_eq!(parse_optional_field(&record, &m, "r"), None);
    assert_eq!(parse_optional_field(&record, &m, "z").unwrap(), "3.5");
}

#[test]
fn decimal_parsing_is_exact() {
    assert_eq!(parse_u32("0"), Some(0));
    assert_eq!(parse_u32("123"), Some(123));
    assert_eq!(parse_u32("4294967295"), Some(u32::MAX));
    assert_eq!(parse_u32("4294967296"), None);
    assert_eq!(parse_u32(""), None);
    assert_eq!(parse_u32("12a"), None);
    assert_eq!(parse_u32("-3"), None);
}

#[test]
fn tile_coords_come_from_path_components() {
    assert_eq!(extract_tile_coords("18", "232837", "103221").unwrap(), (18, 232837, 103221));
    assert_eq!(extract_tile_coords("256", "0", "0").unwrap_err(), TilerError::IoFailure);
    assert_eq!(extract_tile_coords("7", "x", "0").unwrap_err(), TilerError::IoFailure);
}
