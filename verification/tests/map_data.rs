use supramark_markdown::supramark::container_data::{weather_scalar, WeatherScalar};
use supramark_markdown::supramark::map_data::{map_data_fields, pair_parts, MapKey};

fn fields(value: &str) -> Vec<(MapKey, String)> {
    map_data_fields(value).into_iter().map(|f| (f.key, f.raw)).collect()
}

#[test]
fn map_body_lines_give_their_settings() {
    let body = "center: [48.8, 2.3]\r\nzoom:  12 \n\nmarker:\n  lat: 1.5\n  lng: 2.5\n  other: x\ntitle: t\n  lat: 9\n";
    assert_eq!(
        fields(body),
        vec![
            (MapKey::Center, "[48.8, 2.3]".to_owned()),
            (MapKey::Zoom, "12".to_owned()),
            (MapKey::Lat, "1.5".to_owned()),
            (MapKey::Lng, "2.5".to_owned()),
        ]
    );
    assert!(fields("  center: 1\nzoom:").iter().all(|(k, _)| *k == MapKey::Zoom));
    assert_eq!(fields(""), vec![]);
}

#[test]
fn pair_parts_need_exactly_one_comma() {
    assert_eq!(pair_parts(" [[1, 2]] "), Some(("1".to_owned(), "2".to_owned())));
    assert_eq!(pair_parts("a,b"), Some(("a".to_owned(), "b".to_owned())));
    assert_eq!(pair_parts("[1]"), None);
    assert_eq!(pair_parts("[1,2,3]"), None);
    assert_eq!(pair_parts("[]"), None);
    assert_eq!(pair_parts(",]"), Some(("".to_owned(), "".to_owned())));
}

#[test]
fn weather_scalars() {
    assert!(matches!(weather_scalar(""), WeatherScalar::Empty));
    assert!(matches!(weather_scalar("true"), WeatherScalar::Bool(true)));
    assert!(matches!(weather_scalar("false"), WeatherScalar::Bool(false)));
    assert!(matches!(weather_scalar("-42"), WeatherScalar::Int(-42)));
    assert!(matches!(weather_scalar("+7"), WeatherScalar::Int(7)));
    assert!(matches!(weather_scalar("9223372036854775807"), WeatherScalar::Int(i64::MAX)));
    assert!(matches!(weather_scalar("-9223372036854775808"), WeatherScalar::Int(i64::MIN)));
    match weather_scalar("9223372036854775808") {
        WeatherScalar::Text(t) => assert_eq!(t, "9223372036854775808"),
        _ => panic!("out of range is text"),
    }
    match weather_scalar("\"Oslo\"") {
        WeatherScalar::Text(t) => assert_eq!(t, "Oslo"),
        _ => panic!("quoted text"),
    }
    match weather_scalar("'x") {
        WeatherScalar::Text(t) => assert_eq!(t, "'x"),
        _ => panic!("half quoted text"),
    }
    match weather_scalar("1.5") {
        WeatherScalar::Text(t) => assert_eq!(t, "1.5"),
        _ => panic!("decimal is left as text"),
    }
    assert!(matches!(weather_scalar("-"), WeatherScalar::Text(_)));
}
