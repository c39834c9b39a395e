//! Providers: the schema they declare, and what they say when they are asked.

use detc::cfs::{Found, Shelf, UAPICFS};
use detc::document::read_json;
use detc::provider::{
    number_of, provider_prefixes, state_of, Installed, Provider, Providers, Schema, Type,
    DEFAULT_ORDER, PROVIDERS_NAME,
};
use detc::value::{get, Datum};

fn json(body: &str) -> Datum {
    read_json(body).expect("the document is JSON")
}

/// The members of an object.
fn members(body: &str) -> Vec<(String, Datum)> {
    match json(body) {
        Datum::Object(entries) => entries,
        _ => panic!("{body} is not an object"),
    }
}

fn same(a: Vec<(String, Datum)>, b: Vec<(String, Datum)>) -> bool {
    Datum::Object(a).same(&Datum::Object(b))
}

fn schema(body: &str) -> Schema {
    Schema::parse(body).expect("the schema is understood")
}

fn installed(key: &str, path: &str, executable: bool) -> Installed {
    Installed {
        key: key.to_string(),
        path: path.to_string(),
        executable,
    }
}

const UNIT: &str = r#"
description: Manage a unit
order: 90
properties:
  enabled:
    type: boolean
    description: Whether the unit starts at boot
    required: true
  state:
    type: string
    default: started
"#;

#[test]
fn test_the_schema_declares_the_types_and_the_order() {
    let unit = schema(UNIT);

    assert_eq!(unit.description(), Some("Manage a unit"));
    assert_eq!(unit.order(), 90);

    let enabled = unit.properties().get("enabled").unwrap();
    assert_eq!(enabled.kind(), Type::Boolean);
    assert!(enabled.required());
    assert_eq!(enabled.description(), Some("Whether the unit starts at boot"));

    // A property with a default is never required, the default answers for it
    let state = unit.properties().get("state").unwrap();
    assert!(!state.required());
    assert!(state.default().unwrap().same(&json("\"started\"")));

    // A schema that declares nothing still has an order, so that its resources can be
    // sorted with the rest
    assert_eq!(schema("{}").order(), DEFAULT_ORDER);
}

#[test]
fn test_an_invalid_schema_is_rejected() {
    for (document, expected) in [
        (
            "properties:\n  a:\n    type: colour\n",
            "Unknown type colour",
        ),
        ("properties:\n  a: {}\n", "does not declare a type"),
        ("order: high\n", "not a whole number"),
        (
            "properties:\n  a:\n    type: integer\n    default: nope\n",
            "The default of property a is invalid",
        ),
    ] {
        let error = Schema::parse(document).err().expect("the schema is rejected");
        assert!(error.contains(expected), "{error}");
    }
}

#[test]
fn test_a_declaration_is_validated_and_completed() {
    let unit = schema(
        r#"
properties:
  enabled: {type: boolean, required: true}
  state: {type: string, default: started}
  retries: {type: integer}
"#,
    );

    let validated = unit.validate(&members(r#"{"enabled": true}"#)).unwrap();

    // The default is filled in, and a property that is neither declared nor required is
    // simply not managed
    assert!(get(&validated, "enabled").unwrap().same(&json("true")));
    assert!(get(&validated, "state").unwrap().same(&json("\"started\"")));
    assert!(get(&validated, "retries").is_none());

    let error = unit
        .validate(&members(r#"{"enabled": true, "nope": 1}"#))
        .err()
        .expect("a property that the provider does not accept is rejected");
    assert!(error.contains("Unknown property nope"), "{error}");

    let error = unit
        .validate(&Vec::new())
        .err()
        .expect("a required property has to be declared");
    assert!(error.contains("Property enabled is required"), "{error}");
}

#[test]
fn test_the_schema_reads_both_sides_the_same_way() {
    let unit = schema("properties:\n  enabled: {type: boolean}\n");

    // A resource that quotes the value, and a shell provider that can only echo text,
    // have to end up with the same value, or the resource reports a difference that
    // applying can never remove
    let declared = members(r#"{"enabled": "yes"}"#);
    let reported = members(r#"{"enabled": "true"}"#);

    assert!(same(unit.validate(&declared).unwrap(), unit.read(&reported)));

    // Without the type there is nothing to read them through, and the two spellings stay
    // different
    let untyped = schema("properties:\n  enabled: {type: string}\n");
    assert!(!same(untyped.validate(&declared).unwrap(), untyped.read(&reported)));

    // A report can describe more of the system than the resource manages, and the extra
    // keys are kept as they arrived
    let extra = unit.read(&members(r#"{"pid": 42}"#));
    assert!(get(&extra, "pid").unwrap().same(&json("42")));
}

#[test]
fn test_values_are_coerced_to_the_declared_type() {
    for (kind, value, expected) in [
        (Type::Boolean, r#""on""#, "true"),
        (Type::Boolean, "false", "false"),
        (Type::Integer, r#"" 3 ""#, "3"),
        (Type::Number, r#""1.5""#, "1.5"),
        (Type::String, "7", r#""7""#),
        (Type::String, "true", r#""true""#),
    ] {
        let coerced = kind.coerce(&json(value)).expect("the value is read as the type");
        assert!(coerced.same(&json(expected)), "{} {value}", kind.name());
    }

    for (kind, value) in [
        (Type::Boolean, r#""maybe""#),
        (Type::Integer, r#""1.5""#),
        (Type::Integer, "1.5"),
        (Type::Number, r#""nope""#),
        (Type::Object, "[]"),
        (Type::Array, "{}"),
    ] {
        assert!(kind.coerce(&json(value)).is_err(), "{} accepted {value}", kind.name());
    }
}

/// The providers of a system, by the prefix and the type of each, whether it holds nothing,
/// and whether it can be run.
fn resolved(files: &[(&str, &str, bool, bool)]) -> Providers {
    let uapi = UAPICFS::with_root(PROVIDERS_NAME, "/").prefixes(&provider_prefixes());
    let shelves: Vec<Shelf> = provider_prefixes()
        .iter()
        .map(|prefix| Shelf {
            main: None,
            dropins: files
                .iter()
                .filter(|file| file.0 == *prefix)
                .map(|(prefix, kind, empty, _)| Found {
                    key: kind.to_string(),
                    path: format!("/{prefix}/detc/providers.d/{kind}"),
                    empty: *empty,
                })
                .collect(),
        })
        .collect();

    let files = uapi
        .entries(&shelves)
        .into_iter()
        .map(|(key, path)| {
            let executable = files.iter().any(|(prefix, kind, _, executable)| {
                *executable && path == format!("/{prefix}/detc/providers.d/{kind}")
            });
            installed(&key, &path, executable)
        })
        .collect();

    Providers::from_system("/", &files)
}

#[test]
fn test_providers_are_overridden_and_masked() {
    assert_eq!(provider_prefixes(), ["usr/libexec", "run/lib", "var/lib"]);

    let mut files = vec![
        ("usr/libexec", "package", false, true),
        ("usr/libexec", "systemd_service", false, true),
    ];
    let providers = resolved(&files);
    let kinds: Vec<&str> = providers.providers().iter().map(|p| p.kind()).collect();
    assert_eq!(kinds, ["package", "systemd_service"]);
    assert_eq!(
        providers.find("package").unwrap().path(),
        "/usr/libexec/detc/providers.d/package"
    );

    // What the administrator installs wins over what the distribution ships and over what
    // is injected into the system, as a provider is code that runs as root
    files.push(("run/lib", "package", false, true));
    files.push(("var/lib", "package", false, true));

    let providers = resolved(&files);
    let package = providers.find("package").unwrap();
    assert_eq!(package.path(), "/var/lib/detc/providers.d/package");
    assert_eq!(
        package.raw_schema(Ok("admin\n".to_string())),
        Ok("admin\n".to_string())
    );

    // An empty file masks the provider entirely
    assert!(providers.find("systemd_service").is_ok());
    files.push(("var/lib", "systemd_service", true, false));
    let providers = resolved(&files);
    assert!(providers.find("systemd_service").is_err());

    // And a file without the exec bit is documentation, not a provider
    files.push(("usr/libexec", "README", false, false));
    let providers = resolved(&files);
    assert!(providers.find("README").is_err());

    let error = providers.find("nothing").err().expect("there is no such provider");
    assert!(error.contains("There is no provider for nothing"), "{error}");
}

#[test]
fn test_a_provider_answers_the_verbs() {
    let provider = Provider::new("unit", "/usr/libexec/detc/providers.d/unit", "/");

    let answered = provider
        .schema(Ok("order: 90\nproperties:\n  enabled: {type: boolean}\n".to_string()))
        .unwrap();
    assert_eq!(answered.order(), 90);

    let desired = members(r#"{"enabled": true}"#);
    assert!(json(&Provider::inspect_request("nginx", &desired))
        .same(&json(r#"{"name": "nginx", "desired": {"enabled": true}}"#)));

    let current = provider
        .inspect(Ok(r#"{"enabled": "true"}"#.to_string()))
        .unwrap()
        .expect("the resource is present");
    assert!(current.same(&json(r#"{"enabled": "true"}"#)));

    let request = Provider::apply_request("nginx", &desired, Some(&current), &Vec::new());
    assert!(json(&request).same(&json(
        r#"{"name": "nginx", "desired": {"enabled": true}, "current": {"enabled": "true"}, "diff": {}}"#
    )));
    provider.apply(Ok(String::new())).unwrap();
}

#[test]
fn test_a_provider_reports_an_absent_resource() {
    let provider = Provider::new("silent", "/usr/libexec/detc/providers.d/silent", "/");

    // Writing nothing and writing `null` both mean that the resource is not in the system
    // yet
    assert!(provider.inspect(Ok(String::new())).unwrap().is_none());
    assert!(provider.inspect(Ok("null\n".to_string())).unwrap().is_none());
    assert!(state_of("{", Err("broken".to_string())).is_err());
}

#[test]
fn test_a_provider_that_fails_is_reported_with_its_type() {
    let provider = Provider::new("broken", "/usr/libexec/detc/providers.d/broken", "/");
    let error = provider
        .schema(Err("exit status: 1".to_string()))
        .err()
        .expect("a provider that cannot report its schema is an error");
    assert!(error.contains("Provider broken failed to schema"), "{error}");
}

#[test]
fn test_the_documentation_lists_the_properties() {
    let doc = schema(UNIT).to_doc();
    assert!(doc.starts_with("Manage a unit\n"), "{doc}");
    assert!(doc.contains("order: 90"), "{doc}");
    assert!(doc.contains("enabled (boolean, required)"), "{doc}");
    assert!(doc.contains("Whether the unit starts at boot"), "{doc}");
    assert!(doc.contains(r#"state (string, default "started")"#), "{doc}");

    assert!(
        schema("{}").to_doc().contains("no properties"),
        "a type without properties says so"
    );
}

#[test]
fn what_was_validated_is_read_back_as_itself() {
    let unit = schema(UNIT);
    let once = unit.validate(&members(r#"{"enabled": "yes", "state": 7}"#)).unwrap();
    let twice = unit.validate(&once).unwrap();

    assert!(same(unit.read(&once), twice));
}

#[test]
fn a_type_is_named_or_refused() {
    for kind in [
        Type::String,
        Type::Boolean,
        Type::Integer,
        Type::Number,
        Type::Array,
        Type::Object,
    ] {
        assert_eq!(Type::from_str(kind.name()), Ok(kind));
    }
    assert!(Type::from_str("colour").is_err());
    assert!(number_of(&json("\"inf\""), Some(None)).is_err());
    assert!(number_of(&json("\"nope\""), None).is_err());
}

#[test]
fn a_whole_number_is_read_out_of_its_text() {
    for n in ["0", "1", "-7", "9223372036854775807", "18446744073709551615"] {
        let said = Type::Number.coerce(&json(n)).unwrap();
        let echoed = Type::Number.coerce(&json(&format!("\" {n}\\n\""))).unwrap();
        assert!(echoed.same(&said), "{n}");
    }

    // A number that is not written as whole stays one
    let half = Type::Number.coerce(&json("\"0.5\"")).unwrap();
    assert!(half.same(&json("0.5")));
    assert!(!Type::Number.coerce(&json("\"1.0\"")).unwrap().same(&json("1")));
}
