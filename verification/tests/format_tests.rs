use thalweg::bathymetry::Bathymetry;
use thalweg::format::{convert, extension, OutputFormat};

#[test]
fn to_dms_no_value() {
    let expected = "\"Lat (DMS)\" \"Long (DMS)\" \"Depth (m)\"\n";
    assert_eq!(convert(OutputFormat::Dms, &vec![]), expected);
}

#[test]
fn to_dms_one_value() {
    let input = Bathymetry::new(0, 0, 0);
    let expected = "\"Lat (DMS)\" \"Long (DMS)\" \"Depth (m)\"\n00-00-0.000N 00-00-0.000E 0.000\n";
    assert_eq!(convert(OutputFormat::Dms, &vec![input]), expected);
}

#[test]
fn to_dms_many_values() {
    let input = Bathymetry::new(0, 0, 0);
    let expected = "\"Lat (DMS)\" \"Long (DMS)\" \"Depth (m)\"\n00-00-0.000N 00-00-0.000E 0.000\n00-00-0.000N 00-00-0.000E 0.000\n";
    assert_eq!(
        convert(OutputFormat::Dms, &vec![input.clone(), input.clone()]),
        expected
    );
}

#[test]
fn to_geojson_no_value() {
    let expected = "{\"type\":\"FeatureCollection\",\"features\":[{\"type\":\"Feature\",\"properties\":{},\"geometry\":{\"type\":\"LineString\",\"coordinates\":[]}}]}";
    assert_eq!(convert(OutputFormat::GeoJson, &vec![]), expected);
}

#[test]
fn to_geojson_one_value() {
    // latitude 48.7, longitude -123.7, depth 100.4 m in fixed-point units
    let a = Bathymetry::new(487_000_000, -1_237_000_000, 100_400);
    let expected = "{\"type\":\"FeatureCollection\",\"features\":[{\"type\":\"Feature\",\"properties\":{},\"geometry\":{\"type\":\"LineString\",\"coordinates\":[[-123.7,48.7,-100.4]]}}]}";
    assert_eq!(convert(OutputFormat::GeoJson, &vec![a]), expected);
}

#[test]
fn to_geojson_many_values() {
    let a = Bathymetry::new(487_000_000, -1_237_000_000, 100_400);
    let b = Bathymetry::new(497_000_000, -1_237_000_000, 100_400);
    let expected = "{\"type\":\"FeatureCollection\",\"features\":[{\"type\":\"Feature\",\"properties\":{},\"geometry\":{\"type\":\"LineString\",\"coordinates\":[[-123.7,48.7,-100.4],[-123.7,49.7,-100.4]]}}]}";
    assert_eq!(convert(OutputFormat::GeoJson, &vec![a, b]), expected);
}

#[test]
fn to_dms_western_point() {
    let a = Bathymetry::new(487_000_000, -1_237_000_000, 100_400);
    let expected =
        "\"Lat (DMS)\" \"Long (DMS)\" \"Depth (m)\"\n48-42-0.000N 123-42-0.000W 100.400\n";
    assert_eq!(convert(OutputFormat::Dms, &vec![a]), expected);
}

#[test]
fn format_from_str_ignores_case() {
    assert!(matches!(OutputFormat::from_str("dms"), Ok(OutputFormat::Dms)));
    assert!(matches!(OutputFormat::from_str("DMS"), Ok(OutputFormat::Dms)));
    assert!(matches!(
        OutputFormat::from_str("GeoJSON"),
        Ok(OutputFormat::GeoJson)
    ));
    assert!(matches!(
        OutputFormat::from_str("geojson"),
        Ok(OutputFormat::GeoJson)
    ));
}

#[test]
fn format_from_str_rejects_unknown() {
    let r = OutputFormat::from_str("csv");
    assert_eq!(r, Err("unrecognized output format"));
    assert!(OutputFormat::from_str("").is_err());
}

#[test]
fn format_extension_and_default() {
    assert_eq!(extension(OutputFormat::Dms), "txt");
    assert_eq!(extension(OutputFormat::GeoJson), "geojson");
    assert!(matches!(OutputFormat::default(), OutputFormat::Dms));
    assert_eq!(OutputFormat::Dms.as_str(), "dms");
    assert_eq!(OutputFormat::GeoJson.as_str(), "geojson");
}

#[test]
fn to_geojson_zero_depth_point() {
    // 0.5 degrees, depth 0: trimmed decimals, no trailing zeros
    let a = Bathymetry::new(5_000_000, -5_000_000, 0);
    let expected = "{\"type\":\"FeatureCollection\",\"features\":[{\"type\":\"Feature\",\"properties\":{},\"geometry\":{\"type\":\"LineString\",\"coordinates\":[[-0.5,0.5,0]]}}]}";
    assert_eq!(convert(OutputFormat::GeoJson, &vec![a]), expected);
}
