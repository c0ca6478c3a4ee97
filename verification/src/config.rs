//! The configuration file: which file a name stands for, and the conversion
//! between the TOML that is stored and the JSON that the front end speaks. The
//! parsers and printers are those of the `toml` and `serde_json` crates. Which
//! texts they refuse, and with which words, is given a name here; of the values
//! they build and the texts they print nothing is claimed.

use vstd::prelude::*;
use crate::chars::{from_chars, matches_at, occurs_at, push_all, to_chars};

verus! {

/// `toml::Value`: a TOML value, carried through unread.
#[verifier::external_type_specification]
#[verifier::external_body]
pub struct ExTomlValue(toml::Value);

/// `serde_json::Value`: a JSON value, carried through unread.
#[verifier::external_type_specification]
#[verifier::external_body]
pub struct ExJsonValue(serde_json::Value);

/// What `toml::from_str`, asked for a `toml::Value`, says against a document: the
/// message of its error, or nothing where it takes the document for TOML.
pub uninterp spec fn toml_rejection(document: Seq<char>) -> Option<Seq<char>>;

/// What `serde_json::from_str`, asked for a `serde_json::Value`, says against a
/// text: the message of its error, or nothing where it takes the text for JSON.
pub uninterp spec fn json_rejection(text: Seq<char>) -> Option<Seq<char>>;

/// `toml::from_str`, asked for a `toml::Value`: the document parsed, or the
/// message of the error as its `Display` writes it. Whether the document is
/// refused, and with which message, depends on the document alone. Nothing is
/// claimed of the value.
#[verifier::external_body]
fn parse_toml(document: &str) -> (parsed: Result<toml::Value, String>)
    ensures
        parsed is Ok <==> toml_rejection(document@) is None,
        parsed is Err ==> toml_rejection(document@) == Some(parsed->Err_0@),
{
    toml::from_str::<toml::Value>(document).map_err(|e| format!("{}", e))
}

/// `serde_json::to_string` on a `toml::Value`: the value printed as JSON, or the
/// message of the error as its `Display` writes it. Nothing is claimed of either.
#[verifier::external_body]
fn print_json(value: &toml::Value) -> (printed: Result<String, String>) {
    serde_json::to_string(value).map_err(|e| format!("{}", e))
}

/// `serde_json::from_str`, asked for a `serde_json::Value`: the text parsed, or
/// the message of the error as its `Display` writes it. Whether the text is
/// refused, and with which message, depends on the text alone. Nothing is claimed
/// of the value.
#[verifier::external_body]
fn parse_json(text: &str) -> (parsed: Result<serde_json::Value, String>)
    ensures
        parsed is Ok <==> json_rejection(text@) is None,
        parsed is Err ==> json_rejection(text@) == Some(parsed->Err_0@),
{
    serde_json::from_str::<serde_json::Value>(text).map_err(|e| format!("{}", e))
}

/// `serde_json::from_value`, asked for a `toml::Value`: the JSON value as a TOML
/// value, or the message of the error as its `Display` writes it. Nothing is
/// claimed of either.
#[verifier::external_body]
fn json_as_toml(value: serde_json::Value) -> (converted: Result<toml::Value, String>) {
    serde_json::from_value::<toml::Value>(value).map_err(|e| format!("{}", e))
}

/// `toml::to_string_pretty` on a `toml::Value`: the value printed as a TOML
/// document, or the message of the error as its `Display` writes it. Nothing is
/// claimed of either.
#[verifier::external_body]
fn print_toml(value: &toml::Value) -> (printed: Result<String, String>) {
    toml::to_string_pretty(value).map_err(|e| format!("{}", e))
}

/// Why the configuration could not be read or written. `detail` is what the
/// failing step said.
#[derive(Debug)]
pub enum ConfigError {
    /// Neither `<base>.toml` nor `<base>.json` exists.
    NotFound { base: String },
    /// `<base>.toml` could not be read.
    ReadToml { base: String, detail: String },
    /// The JSON file could not be read.
    ReadJson { detail: String },
    /// The stored document is no TOML.
    ParseToml { detail: String },
    /// The stored document cannot be printed as JSON.
    ToJson { detail: String },
    /// What the front end sent is no JSON.
    ParseJson { detail: String },
    /// What the front end sent has no form in TOML.
    ToToml { detail: String },
    /// The TOML value cannot be printed.
    PrintToml { detail: String },
    /// `<base>.toml` could not be written.
    WriteToml { base: String, detail: String },
}

/// An error as the contracts see it.
pub enum ErrorView {
    NotFound { base: Seq<char> },
    ReadToml { base: Seq<char>, detail: Seq<char> },
    ReadJson { detail: Seq<char> },
    ParseToml { detail: Seq<char> },
    ToJson { detail: Seq<char> },
    ParseJson { detail: Seq<char> },
    ToToml { detail: Seq<char> },
    PrintToml { detail: Seq<char> },
    WriteToml { base: Seq<char>, detail: Seq<char> },
}

impl View for ConfigError {
    type V = ErrorView;

    open spec fn view(&self) -> ErrorView {
        match *self {
            ConfigError::NotFound { base } => ErrorView::NotFound { base: base@ },
            ConfigError::ReadToml { base, detail } => ErrorView::ReadToml {
                base: base@,
                detail: detail@,
            },
            ConfigError::ReadJson { detail } => ErrorView::ReadJson { detail: detail@ },
            ConfigError::ParseToml { detail } => ErrorView::ParseToml { detail: detail@ },
            ConfigError::ToJson { detail } => ErrorView::ToJson { detail: detail@ },
            ConfigError::ParseJson { detail } => ErrorView::ParseJson { detail: detail@ },
            ConfigError::ToToml { detail } => ErrorView::ToToml { detail: detail@ },
            ConfigError::PrintToml { detail } => ErrorView::PrintToml { detail: detail@ },
            ConfigError::WriteToml { base, detail } => ErrorView::WriteToml {
                base: base@,
                detail: detail@,
            },
        }
    }
}

impl ConfigError {
    /// The message of the error.
    pub open spec fn message_text(self) -> Seq<char> {
        match self {
            ConfigError::NotFound { base } => "Config file "@ + base@ + ".toml does not exist"@,
            ConfigError::ReadToml { base, detail } => "Failed to read "@ + base@ + ".toml: "@
                + detail@,
            ConfigError::ReadJson { detail } => "Failed to read config file: "@ + detail@,
            ConfigError::ParseToml { detail } => "Failed to parse TOML: "@ + detail@,
            ConfigError::ToJson { detail } => "Failed to convert TOML to JSON: "@ + detail@,
            ConfigError::ParseJson { detail } => "Failed to parse JSON: "@ + detail@,
            ConfigError::ToToml { detail } => "Failed to convert to TOML value: "@ + detail@,
            ConfigError::PrintToml { detail } => "Failed to serialize TOML: "@ + detail@,
            ConfigError::WriteToml { base, detail } => "Failed to write "@ + base@ + ".toml: "@
                + detail@,
        }
    }

    /// The message of the error.
    pub fn message(&self) -> (text: String)
        ensures
            text@ == self.message_text(),
    {
        let mut out: Vec<char> = Vec::new();
        match self {
            ConfigError::NotFound { base } => {
                push_all(&mut out, &to_chars("Config file "));
                push_all(&mut out, &to_chars(base.as_str()));
                push_all(&mut out, &to_chars(".toml does not exist"));
            },
            ConfigError::ReadToml { base, detail } => {
                push_all(&mut out, &to_chars("Failed to read "));
                push_all(&mut out, &to_chars(base.as_str()));
                push_all(&mut out, &to_chars(".toml: "));
                push_all(&mut out, &to_chars(detail.as_str()));
            },
            ConfigError::ReadJson { detail } => {
                push_all(&mut out, &to_chars("Failed to read config file: "));
                push_all(&mut out, &to_chars(detail.as_str()));
            },
            ConfigError::ParseToml { detail } => {
                push_all(&mut out, &to_chars("Failed to parse TOML: "));
                push_all(&mut out, &to_chars(detail.as_str()));
            },
            ConfigError::ToJson { detail } => {
                push_all(&mut out, &to_chars("Failed to convert TOML to JSON: "));
                push_all(&mut out, &to_chars(detail.as_str()));
            },
            ConfigError::ParseJson { detail } => {
                push_all(&mut out, &to_chars("Failed to parse JSON: "));
                push_all(&mut out, &to_chars(detail.as_str()));
            },
            ConfigError::ToToml { detail } => {
                push_all(&mut out, &to_chars("Failed to convert to TOML value: "));
                push_all(&mut out, &to_chars(detail.as_str()));
            },
            ConfigError::PrintToml { detail } => {
                push_all(&mut out, &to_chars("Failed to serialize TOML: "));
                push_all(&mut out, &to_chars(detail.as_str()));
            },
            ConfigError::WriteToml { base, detail } => {
                push_all(&mut out, &to_chars("Failed to write "));
                push_all(&mut out, &to_chars(base.as_str()));
                push_all(&mut out, &to_chars(".toml: "));
                push_all(&mut out, &to_chars(detail.as_str()));
            },
        }
        from_chars(&out)
    }
}

/// Whether `s` ends with `suffix`.
pub open spec fn ends_with(s: Seq<char>, suffix: Seq<char>) -> bool {
    occurs_at(s, s.len() - suffix.len(), suffix)
}

/// The name of a configuration without its extension: a `.json` at the end is
/// taken off, or else a `.toml`; any other name stays as it is.
pub open spec fn base_name_of(filename: Seq<char>) -> Seq<char> {
    if ends_with(filename, ".json"@) {
        filename.take(filename.len() - ".json"@.len())
    } else if ends_with(filename, ".toml"@) {
        filename.take(filename.len() - ".toml"@.len())
    } else {
        filename
    }
}

/// `text` without `suffix` at its end, or `None` if it does not end with it.
fn strip_suffix(text: &Vec<char>, suffix: &Vec<char>) -> (stripped: Option<Vec<char>>)
    ensures
        match stripped {
            Some(rest) => ends_with(text@, suffix@) && rest@ == text@.take(
                text@.len() - suffix@.len(),
            ),
            None => !ends_with(text@, suffix@),
        },
{
    if suffix.len() > text.len() {
        return None;
    }
    let cut: usize = text.len() - suffix.len();
    if !matches_at(text, cut, suffix) {
        return None;
    }
    let mut rest: Vec<char> = Vec::new();
    let mut i: usize = 0;
    while i < cut
        invariant
            i <= cut <= text.len(),
            rest@ == text@.take(i as int),
        decreases cut - i,
    {
        rest.push(text[i]);
        proof {
            assert(text@.take(i + 1) == text@.take(i as int).push(text@[i as int]));
        }
        i += 1;
    }
    Some(rest)
}

/// The name of a configuration without its extension.
pub fn base_name(filename: &str) -> (base: String)
    ensures
        base@ == base_name_of(filename@),
{
    let name = to_chars(filename);
    match strip_suffix(&name, &to_chars(".json")) {
        Some(rest) => from_chars(&rest),
        None => match strip_suffix(&name, &to_chars(".toml")) {
            Some(rest) => from_chars(&rest),
            None => from_chars(&name),
        },
    }
}

/// The name of the TOML file of a configuration.
pub fn toml_file_name(base: &str) -> (name: String)
    ensures
        name@ == base@ + ".toml"@,
{
    let mut out = to_chars(base);
    push_all(&mut out, &to_chars(".toml"));
    from_chars(&out)
}

/// The name of the JSON file of a configuration.
pub fn json_file_name(base: &str) -> (name: String)
    ensures
        name@ == base@ + ".json"@,
{
    let mut out = to_chars(base);
    push_all(&mut out, &to_chars(".json"));
    from_chars(&out)
}

/// The file that a configuration is read from.
#[derive(Clone, Copy, Debug, PartialEq, Eq, Structural)]
pub enum ConfigSource {
    /// `<base>.toml`, converted to JSON.
    Toml,
    /// `<base>.json` as it is, for configurations written before TOML was used.
    Json,
}

/// Which file to read: the TOML file if it exists, else the JSON file if that
/// exists.
pub fn choose_source(toml_exists: bool, json_exists: bool) -> (source: Option<ConfigSource>)
    ensures
        toml_exists ==> source == Some(ConfigSource::Toml),
        !toml_exists && json_exists ==> source == Some(ConfigSource::Json),
        !toml_exists && !json_exists ==> source is None,
{
    if toml_exists {
        Some(ConfigSource::Toml)
    } else if json_exists {
        Some(ConfigSource::Json)
    } else {
        None
    }
}

/// What reading gives once the stored value has been printed as JSON: the JSON
/// text as it came, or that printing failed and why.
pub open spec fn json_after_print(printed: Result<Seq<char>, Seq<char>>) -> Result<
    Seq<char>,
    ErrorView,
> {
    match printed {
        Ok(text) => Ok(text),
        Err(detail) => Err(ErrorView::ToJson { detail }),
    }
}

/// What writing gives once the TOML value has been printed: the document as it
/// came, or that printing failed and why.
pub open spec fn toml_after_print(printed: Result<Seq<char>, Seq<char>>) -> Result<
    Seq<char>,
    ErrorView,
> {
    match printed {
        Ok(text) => Ok(text),
        Err(detail) => Err(ErrorView::PrintToml { detail }),
    }
}

/// The texts of a result of two strings.
pub open spec fn texts_of(r: Result<String, String>) -> Result<Seq<char>, Seq<char>> {
    match r {
        Ok(text) => Ok(text@),
        Err(detail) => Err(detail@),
    }
}

/// The outcome of a conversion as the contracts see it.
pub open spec fn outcome(r: Result<String, ConfigError>) -> Result<Seq<char>, ErrorView> {
    match r {
        Ok(text) => Ok(text@),
        Err(e) => Err(e@),
    }
}

/// What reading gives once the stored value has been printed as JSON.
pub fn json_from_printed(printed: Result<String, String>) -> (json: Result<String, ConfigError>)
    ensures
        outcome(json) == json_after_print(texts_of(printed)),
{
    match printed {
        Ok(text) => Ok(text),
        Err(detail) => Err(ConfigError::ToJson { detail }),
    }
}

/// What reading gives once the stored document has been parsed: that it is no
/// TOML, with the words of the parser, or what printing its value as JSON gives.
pub fn json_from_parsed(parsed: Result<toml::Value, String>) -> (json: Result<
    String,
    ConfigError,
>)
    ensures
        parsed is Err ==> outcome(json) == Err::<Seq<char>, ErrorView>(
            ErrorView::ParseToml { detail: parsed->Err_0@ },
        ),
        parsed is Ok ==> json is Ok || json->Err_0 is ToJson,
{
    match parsed {
        Err(detail) => Err(ConfigError::ParseToml { detail }),
        Ok(value) => json_from_printed(print_json(&value)),
    }
}

/// Converts a stored TOML document to the JSON that the front end reads. A
/// document that the parser refuses gives `ParseToml` with the words of the
/// parser; every other document gives the JSON that the printer makes of its
/// value, or `ToJson` if the printer fails.
pub fn toml_to_json(document: &str) -> (json: Result<String, ConfigError>)
    ensures
        toml_rejection(document@) is Some ==> outcome(json) == Err::<Seq<char>, ErrorView>(
            ErrorView::ParseToml { detail: toml_rejection(document@)->0 },
        ),
        toml_rejection(document@) is None ==> json is Ok || json->Err_0 is ToJson,
{
    json_from_parsed(parse_toml(document))
}

/// What writing gives once the TOML value has been printed.
pub fn toml_from_printed(printed: Result<String, String>) -> (document: Result<
    String,
    ConfigError,
>)
    ensures
        outcome(document) == toml_after_print(texts_of(printed)),
{
    match printed {
        Ok(text) => Ok(text),
        Err(detail) => Err(ConfigError::PrintToml { detail }),
    }
}

/// What writing gives once the JSON value has been read as a TOML value: that
/// TOML has no such value, with the words of the converter, or what printing the
/// TOML value gives.
pub fn toml_from_converted(converted: Result<toml::Value, String>) -> (document: Result<
    String,
    ConfigError,
>)
    ensures
        converted is Err ==> outcome(document) == Err::<Seq<char>, ErrorView>(
            ErrorView::ToToml { detail: converted->Err_0@ },
        ),
        converted is Ok ==> document is Ok || document->Err_0 is PrintToml,
{
    match converted {
        Err(detail) => Err(ConfigError::ToToml { detail }),
        Ok(value) => toml_from_printed(print_toml(&value)),
    }
}

/// What writing gives once the text of the front end has been parsed: that it is
/// no JSON, with the words of the parser, or what converting its value gives.
pub fn toml_from_parsed(parsed: Result<serde_json::Value, String>) -> (document: Result<
    String,
    ConfigError,
>)
    ensures
        parsed is Err ==> outcome(document) == Err::<Seq<char>, ErrorView>(
            ErrorView::ParseJson { detail: parsed->Err_0@ },
        ),
        parsed is Ok ==> document is Ok || document->Err_0 is ToToml || document->Err_0
            is PrintToml,
{
    match parsed {
        Err(detail) => Err(ConfigError::ParseJson { detail }),
        Ok(value) => toml_from_converted(json_as_toml(value)),
    }
}

/// Converts the JSON that the front end sends to the TOML document that is
/// stored. A text that the parser refuses gives `ParseJson` with the words of the
/// parser; every other text gives the document that the printer makes of its
/// value, or `ToToml` if the value has no form in TOML, or `PrintToml` if the
/// printer fails.
pub fn json_to_toml(content: &str) -> (document: Result<String, ConfigError>)
    ensures
        json_rejection(content@) is Some ==> outcome(document) == Err::<Seq<char>, ErrorView>(
            ErrorView::ParseJson { detail: json_rejection(content@)->0 },
        ),
        json_rejection(content@) is None ==> document is Ok || document->Err_0 is ToToml
            || document->Err_0 is PrintToml,
{
    toml_from_parsed(parse_json(content))
}

} // verus!
