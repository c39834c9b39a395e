//! The subcommands of `detc`: what they are asked with.

use detc::detc::{explain, level, tool, Source, Tool, VarArgs};
use detc::objects::indent;
use detc::var::Variables;

fn args(key: &[&str], value: &[&str], kv: &[&str]) -> VarArgs {
    let owned = |list: &[&str]| list.iter().map(|t| t.to_string()).collect();

    VarArgs {
        key: owned(key),
        value: owned(value),
        kv: owned(kv),
    }
}

/// The schema that `doc` appends is set off the way the headers set off an example of
/// their own, and a blank line inside it stays blank.
#[test]
fn a_block_is_set_off_without_a_line_that_ends_in_whitespace() {
    assert_eq!(
        indent("description: A unit\n\nproperties:\n  enabled: true\n"),
        "    description: A unit\n\n    properties:\n      enabled: true\n"
    );

    // A provider that ends its schema without a newline is not run into
    assert_eq!(indent("order: 70"), "    order: 70\n");
    assert_eq!(indent(""), "");
}

#[test]
fn a_locator_says_which_of_the_two_sides_reads_it() {
    // A path and the standard input are read here, and a URL crosses to be read where the
    // bundle is installed
    assert_eq!(Source::from_str("-"), Ok(Source::Stdin));
    assert_eq!(
        Source::from_str("bundles/fleet.detc"),
        Ok(Source::Path("bundles/fleet.detc".to_string()))
    );
    assert_eq!(
        Source::from_str("https://dist.example/fleet.detc"),
        Ok(Source::Url("https://dist.example/fleet.detc".to_string()))
    );
    assert_eq!(
        Source::from_str("http://dist.example/fleet.detc"),
        Ok(Source::Url("http://dist.example/fleet.detc".to_string()))
    );

    assert!(Source::from_str("").is_err());
}

#[test]
fn a_file_url_names_a_file_of_whoever_reads_it() {
    let path = || Ok(Source::Path("/srv/fleet.detc".to_string()));

    assert_eq!(Source::from_str("file:///srv/fleet.detc"), path());
    assert_eq!(Source::from_str("file://localhost/srv/fleet.detc"), path());

    // A file of somewhere else is not one that can be read, and an escape is not decoded
    // rather than being decoded into the wrong name
    let error = Source::from_str("file://dist.example/srv/fleet.detc")
        .expect_err("a file of another host is refused");
    assert!(error.contains("another host"), "{error}");

    let error =
        Source::from_str("file:///srv/one%20bundle.detc").expect_err("an escape is refused");
    assert!(error.contains("escape"), "{error}");
}

#[test]
fn a_scheme_that_is_not_fetched_is_refused_with_the_ones_that_are() {
    let error = Source::from_str("ftp://dist.example/fleet.detc").expect_err("ftp is not fetched");
    assert!(
        error.contains("over http, over https, or as a file"),
        "{error}"
    );
}

#[test]
fn where_a_bundle_came_from_is_recorded_only_when_it_was_fetched() {
    let url = "https://dist.example/fleet.detc";
    assert_eq!(Source::Url(url.to_string()).origin(), url);
    assert_eq!(Source::Stdin.origin(), "local");
    assert_eq!(Source::Path("/srv/fleet.detc".to_string()).origin(), "local");

    assert_eq!(Source::Bytes(vec![1, 2]).bytes(Err("unused".to_string())), Ok(vec![1, 2]));
    assert_eq!(Source::Stdin.bytes(Ok(vec![3])), Ok(vec![3]));
    assert_eq!(
        Source::Stored.bytes(Ok(vec![3])),
        Err("The bundle that was kept is read from the system, not here".to_string())
    );
    assert_eq!(
        Source::Path("/srv/x".to_string()).bytes(Err("denied".to_string())),
        Err("Cannot read /srv/x: denied".to_string())
    );
}

#[test]
fn a_refused_certificate_says_what_a_mirror_is_checked_against() {
    let url = "https://dist.example/fleet.detc";
    assert_eq!(
        explain(url, "timeout", false),
        "Cannot fetch https://dist.example/fleet.detc: timeout"
    );
    assert!(explain(url, "bad certificate", true).contains("compiled into detc"));
}

#[test]
fn setting_a_variable_is_what_writes() {
    assert!(!args(&["a"], &[], &[]).writes(None, false, None));
    assert!(args(&["a"], &["1"], &[]).writes(None, false, None));
    assert!(args(&[], &[], &["a: 1"]).writes(None, false, None));
    assert!(args(&[], &[], &[]).writes(Some("data.yaml"), false, None));
    assert!(!args(&[], &[], &["a: 1"]).writes(None, true, None));
    assert!(!args(&[], &[], &["a: 1"]).writes(None, false, Some("net")));
}

#[test]
fn what_is_typed_overrides_what_the_system_says() {
    let system = || Variables::from_str("dns:\n  domain: lan\nntp: a\n");

    let var = args(&["ntp"], &["b"], &["dns.domain: dev"]).variables(system()).unwrap();
    assert_eq!(var.get_yaml("ntp").unwrap().trim(), "b");
    assert_eq!(var.get_yaml("dns.domain").unwrap().trim(), "dev");

    let error = args(&["a", "b"], &["1"], &[])
        .variables(system())
        .err()
        .expect("there are more keys than values");
    assert!(error.contains("same ammount of key and values"), "{error}");
    assert!(args(&[], &[], &[]).variables(Err("broken".to_string())).is_err());
    assert_eq!(
        args(&["a"], &["1"], &[]).pairs(),
        Ok(vec![("a".to_string(), "1".to_string())])
    );
}

#[test]
fn the_name_of_the_binary_is_the_tool() {
    assert_eq!(tool(Some("detctl")), Tool::Detctl);
    assert_eq!(tool(Some("detcd")), Tool::Detcd);
    assert_eq!(tool(Some("detc")), Tool::Detc);
    assert_eq!(tool(Some("anything")), Tool::Detc);
    assert_eq!(tool(None), Tool::Detc);
}

#[test]
fn nothing_is_reported_unless_it_was_asked_for() {
    let levels: Vec<&str> = (0..7).map(level).collect();
    assert_eq!(
        levels,
        ["OFF", "ERROR", "WARN", "INFO", "DEBUG", "TRACE", "TRACE"]
    );
}
