use supramark_markdown::supramark::container_data::{
    select_weather_field, vison_data, weather_data, JsonField, JsonParse, VisonOutcome, WeatherConfig,
};

fn keys(es: &[(String, JsonField)]) -> Vec<String> {
    es.iter().map(|(k, _)| k.clone()).collect()
}

#[test]
fn vison_blank_body_is_empty() {
    let r = vison_data("");
    assert!(matches!(r, VisonOutcome::EmptyBody));
    assert_eq!(r.error_message(), Some("empty body".to_owned()));
    assert!(matches!(vison_data("  \n\t "), VisonOutcome::EmptyBody));
}

#[test]
fn vison_object_body_gives_its_members() {
    let r = vison_data("  {\"mark\": \"bar\", \"data\": null}\n");
    assert_eq!(r.error_message(), None);
    match r {
        VisonOutcome::Spec(es) => {
            assert_eq!(keys(&es), vec!["data".to_owned(), "mark".to_owned()]);
            assert!(matches!(es[0].1, JsonField::Null));
            match &es[1].1 {
                JsonField::Value(v) => assert_eq!(v, &serde_json::Value::String("bar".to_owned())),
                JsonField::Null => panic!("mark is not null"),
            }
        },
        _ => panic!("expected an object"),
    }
}

#[test]
fn vison_non_object_and_invalid_json() {
    let r = vison_data("[1, 2]");
    assert!(matches!(r, VisonOutcome::NotObject));
    assert_eq!(r.error_message(), Some("parsed value is not a JSON object".to_owned()));
    let r = vison_data("{");
    match &r {
        VisonOutcome::ParseError(m) => assert!(!m.is_empty()),
        _ => panic!("expected a parse error"),
    }
    assert!(r.error_message().is_some());
}

#[test]
fn weather_json_fields_take_aliases_and_skip_null() {
    let body = "{\"location\": \"Paris\", \"show_forecast\": true, \"days\": null, \"extra\": 1}";
    let d = weather_data(Some("json"), body);
    assert_eq!(d.format, "json");
    assert!(d.error.is_none());
    let entries = match &d.config {
        WeatherConfig::Json(JsonParse::Object(es)) => keys(es),
        _ => panic!("expected an object"),
    };
    assert_eq!(entries, vec!["days", "extra", "location", "show_forecast"]);
    let names: Vec<(String, usize)> = d.fields.clone();
    assert_eq!(names, vec![("location".to_owned(), 2), ("showForecast".to_owned(), 3)]);
}

#[test]
fn weather_json_errors() {
    let d = weather_data(Some("json"), "[1]");
    assert_eq!(d.error, Some("weather JSON config must be an object".to_owned()));
    assert!(d.fields.is_empty());
    assert!(matches!(d.config, WeatherConfig::Unreadable));
    let d = weather_data(Some("json"), "{oops");
    assert!(d.error.is_some());
    assert!(d.fields.is_empty());
}

#[test]
fn weather_key_value_fields_last_entry_wins() {
    let body = "location: Oslo\nunits: metric\nlocation: Bergen\nshowForecast: false\n";
    let d = weather_data(None, body);
    assert_eq!(d.format, "yaml");
    assert!(d.error.is_none());
    match &d.config {
        WeatherConfig::KeyValue(es) => assert_eq!(es.len(), 4),
        _ => panic!("expected key-value entries"),
    }
    assert_eq!(
        d.fields,
        vec![("location".to_owned(), 2), ("units".to_owned(), 1), ("showForecast".to_owned(), 3)]
    );
}

#[test]
fn select_field_prefers_first_alias_present() {
    let es = vec![("show_forecast".to_owned(), false), ("showForecast".to_owned(), false)];
    assert_eq!(select_weather_field(&es, &["showForecast", "show_forecast"]), Some(1));
    let es = vec![("show_forecast".to_owned(), false), ("showForecast".to_owned(), true)];
    assert_eq!(select_weather_field(&es, &["showForecast", "show_forecast"]), None);
    assert_eq!(select_weather_field(&es, &["days"]), None);
}
