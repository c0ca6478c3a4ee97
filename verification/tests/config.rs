use irisnotes::config::{
    base_name, choose_source, json_file_name, json_from_parsed, json_from_printed, json_to_toml,
    toml_file_name, toml_from_converted, toml_from_parsed, toml_from_printed, toml_to_json,
    ConfigError, ConfigSource,
};

#[test]
fn base_name_takes_one_extension_off() {
    assert_eq!(base_name("config.json"), "config");
    assert_eq!(base_name("config.toml"), "config");
    assert_eq!(base_name("config"), "config");
    assert_eq!(base_name("config.yaml"), "config.yaml");
    assert_eq!(base_name("config.toml.json"), "config.toml");
    assert_eq!(base_name("config.json.toml"), "config.json");
    assert_eq!(base_name(".json"), "");
    assert_eq!(base_name("json"), "json");
    assert_eq!(base_name(""), "");
}

#[test]
fn file_names_add_the_extension() {
    assert_eq!(toml_file_name("config"), "config.toml");
    assert_eq!(json_file_name("config"), "config.json");
    assert_eq!(toml_file_name(""), ".toml");
}

#[test]
fn toml_file_goes_before_json_file() {
    assert_eq!(choose_source(true, true), Some(ConfigSource::Toml));
    assert_eq!(choose_source(true, false), Some(ConfigSource::Toml));
    assert_eq!(choose_source(false, true), Some(ConfigSource::Json));
    assert_eq!(choose_source(false, false), None);
}

#[test]
fn toml_becomes_json() {
    let json = toml_to_json("title = \"Notes\"\ncount = 3\n\n[owner]\nname = \"Lisa\"\n").unwrap();
    let value: serde_json::Value = serde_json::from_str(&json).unwrap();
    assert_eq!(value["title"], "Notes");
    assert_eq!(value["count"], 3);
    assert_eq!(value["owner"]["name"], "Lisa");
    assert_eq!(json, "{\"count\":3,\"owner\":{\"name\":\"Lisa\"},\"title\":\"Notes\"}");
}

#[test]
fn empty_toml_is_an_empty_object() {
    assert_eq!(toml_to_json("").unwrap(), "{}");
}

#[test]
fn broken_toml_is_reported_as_such() {
    let error = toml_to_json("title = ").unwrap_err();
    assert!(matches!(error, ConfigError::ParseToml { .. }));
    assert!(error.message().starts_with("Failed to parse TOML: "));
    assert!(error.message().len() > "Failed to parse TOML: ".len());
}

#[test]
fn json_becomes_toml() {
    let document = json_to_toml("{\"title\":\"Notes\",\"owner\":{\"name\":\"Lisa\"},\"tags\":[\"a\",\"b\"]}").unwrap();
    let value: toml::Value = toml::from_str(&document).unwrap();
    assert_eq!(value["title"].as_str(), Some("Notes"));
    assert_eq!(value["owner"]["name"].as_str(), Some("Lisa"));
    assert_eq!(value["tags"][1].as_str(), Some("b"));
    assert!(document.contains("[owner]"));
}

#[test]
fn json_and_back() {
    let json = "{\"a\":1,\"b\":{\"c\":true,\"d\":\"e\"}}";
    let document = json_to_toml(json).unwrap();
    assert_eq!(toml_to_json(&document).unwrap(), json);
}

#[test]
fn broken_json_is_reported_as_such() {
    let error = json_to_toml("{\"a\":").unwrap_err();
    assert!(matches!(error, ConfigError::ParseJson { .. }));
    assert!(error.message().starts_with("Failed to parse JSON: "));
}

#[test]
fn json_null_has_no_form_in_toml() {
    let error = json_to_toml("{\"a\":null}").unwrap_err();
    assert!(matches!(error, ConfigError::ToToml { .. }), "{error:?}");
    assert!(error.message().starts_with("Failed to convert to TOML value: "));
}

#[test]
fn json_that_is_no_object_cannot_be_a_document() {
    let error = json_to_toml("3").unwrap_err();
    assert!(matches!(error, ConfigError::PrintToml { .. }), "{error:?}");
    assert!(error.message().starts_with("Failed to serialize TOML: "));
}

#[test]
fn messages_of_the_errors() {
    let base = || "config".to_string();
    let detail = || "it broke".to_string();
    assert_eq!(ConfigError::NotFound { base: base() }.message(), "Config file config.toml does not exist");
    assert_eq!(
        ConfigError::ReadToml { base: base(), detail: detail() }.message(),
        "Failed to read config.toml: it broke"
    );
    assert_eq!(ConfigError::ReadJson { detail: detail() }.message(), "Failed to read config file: it broke");
    assert_eq!(ConfigError::ParseToml { detail: detail() }.message(), "Failed to parse TOML: it broke");
    assert_eq!(ConfigError::ToJson { detail: detail() }.message(), "Failed to convert TOML to JSON: it broke");
    assert_eq!(ConfigError::ParseJson { detail: detail() }.message(), "Failed to parse JSON: it broke");
    assert_eq!(ConfigError::ToToml { detail: detail() }.message(), "Failed to convert to TOML value: it broke");
    assert_eq!(ConfigError::PrintToml { detail: detail() }.message(), "Failed to serialize TOML: it broke");
    assert_eq!(
        ConfigError::WriteToml { base: base(), detail: detail() }.message(),
        "Failed to write config.toml: it broke"
    );
}

#[test]
fn refused_toml_is_reported_in_the_words_of_the_parser() {
    for document in ["title = ", "= 1", "[a", "a = 1\na = 2\n"] {
        let words = toml::from_str::<toml::Value>(document).unwrap_err().to_string();
        match toml_to_json(document) {
            Err(ConfigError::ParseToml { detail }) => assert_eq!(detail, words, "{document:?}"),
            other => panic!("{document:?} gave {other:?}"),
        }
    }
}

#[test]
fn refused_json_is_reported_in_the_words_of_the_parser() {
    for text in ["{\"a\":", "", "nonsense", "[1, 2"] {
        let words = serde_json::from_str::<serde_json::Value>(text).unwrap_err().to_string();
        match json_to_toml(text) {
            Err(ConfigError::ParseJson { detail }) => assert_eq!(detail, words, "{text:?}"),
            other => panic!("{text:?} gave {other:?}"),
        }
    }
}

#[test]
fn accepted_texts_give_no_parse_error() {
    for document in ["", "a = 1\n", "[t]\nk = \"v\"\n"] {
        assert!(toml::from_str::<toml::Value>(document).is_ok());
        assert!(toml_to_json(document).is_ok(), "{document:?}");
    }
    for text in ["{}", "{\"a\":1}", "3", "{\"a\":null}"] {
        assert!(serde_json::from_str::<serde_json::Value>(text).is_ok());
        assert!(!matches!(json_to_toml(text), Err(ConfigError::ParseJson { .. })), "{text:?}");
    }
}

#[test]
fn printed_json_is_handed_on_as_it_is() {
    let value: toml::Value = toml::from_str("a = 1\n").unwrap();
    assert_eq!(json_from_printed(Ok("{\"a\":1}".to_string())).unwrap(), "{\"a\":1}");
    assert_eq!(json_from_parsed(Ok(value)).unwrap(), "{\"a\":1}");
    match json_from_printed(Err("no luck".to_string())) {
        Err(ConfigError::ToJson { detail }) => assert_eq!(detail, "no luck"),
        other => panic!("{other:?}"),
    }
    match json_from_parsed(Err("bad line".to_string())) {
        Err(ConfigError::ParseToml { detail }) => assert_eq!(detail, "bad line"),
        other => panic!("{other:?}"),
    }
}

#[test]
fn printed_toml_is_handed_on_as_it_is() {
    let value: toml::Value = toml::from_str("a = 1\n").unwrap();
    assert_eq!(toml_from_printed(Ok("a = 1\n".to_string())).unwrap(), "a = 1\n");
    assert_eq!(toml_from_converted(Ok(value)).unwrap(), "a = 1\n");
    let json: serde_json::Value = serde_json::from_str("{\"a\":1}").unwrap();
    assert_eq!(toml_from_parsed(Ok(json)).unwrap(), "a = 1\n");
    match toml_from_printed(Err("no luck".to_string())) {
        Err(ConfigError::PrintToml { detail }) => assert_eq!(detail, "no luck"),
        other => panic!("{other:?}"),
    }
    match toml_from_converted(Err("no form".to_string())) {
        Err(ConfigError::ToToml { detail }) => assert_eq!(detail, "no form"),
        other => panic!("{other:?}"),
    }
    match toml_from_parsed(Err("bad text".to_string())) {
        Err(ConfigError::ParseJson { detail }) => assert_eq!(detail, "bad text"),
        other => panic!("{other:?}"),
    }
}

#[test]
fn later_steps_report_in_the_words_of_the_crates() {
    let no_value = serde_json::from_value::<toml::Value>(serde_json::Value::Null).unwrap_err();
    match json_to_toml("null") {
        Err(ConfigError::ToToml { detail }) => assert_eq!(detail, no_value.to_string()),
        other => panic!("{other:?}"),
    }
    let not_printable = toml::to_string_pretty(&toml::Value::Integer(3)).unwrap_err();
    match json_to_toml("3") {
        Err(ConfigError::PrintToml { detail }) => assert_eq!(detail, not_printable.to_string()),
        other => panic!("{other:?}"),
    }
}
