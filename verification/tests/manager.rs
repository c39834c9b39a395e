//! The interface that drives a system: how a subcommand becomes a call, and back.

use detc::detc::{BundleCommands, Commands, Source, VarArgs};
use detc::document::read_json;
use detc::manager::{
    call, carry, command, end, ends, find, locator, source, Method, Params, INTERFACE,
};
use detc::record::Type;

fn var(key: &[&str], value: &[&str], kv: &[&str]) -> VarArgs {
    let owned = |list: &[&str]| list.iter().map(|t| t.to_string()).collect();

    VarArgs {
        key: owned(key),
        value: owned(value),
        kv: owned(kv),
    }
}

fn unread() -> Result<Vec<u8>, String> {
    Err("nothing is read for this".to_string())
}

fn called(asked: &Commands, dry_run: bool) -> (Method, Params) {
    call(asked, dry_run, unread()).expect("the subcommand is a call")
}

fn variables(
    file: Option<&str>,
    var: VarArgs,
    probes: bool,
    probe: Option<&str>,
) -> Commands {
    Commands::Var {
        file: file.map(String::from),
        var,
        persist: false,
        unset: false,
        probes,
        probe: probe.map(String::from),
    }
}

fn bundle(command: BundleCommands) -> Commands {
    Commands::Bundle { command }
}

fn install(bundle: Source) -> Commands {
    self::bundle(BundleCommands::Install {
        bundle,
        persist: true,
        apply: false,
        allow_unsigned: false,
    })
}

#[test]
fn every_subcommand_reaches_a_method() {
    let commands = [
        (Commands::List { types: true, kind: None }, "ListTypes"),
        (
            Commands::List {
                types: false,
                kind: Some(Type::Probe),
            },
            "List",
        ),
        (
            Commands::Cat {
                object: "/etc/hosts".to_string(),
                kind: None,
                raw: true,
                var: var(&[], &[], &[]),
            },
            "Cat",
        ),
        (
            Commands::Check {
                file: None,
                kind: None,
                var: var(&[], &[], &[]),
            },
            "Check",
        ),
        (
            Commands::Doc {
                object: "nginx.conf".to_string(),
                kind: None,
            },
            "Doc",
        ),
        (
            Commands::Schema {
                provider: "unit".to_string(),
            },
            "Schema",
        ),
        (
            Commands::Apply {
                file: None,
                kind: None,
                var: var(&[], &[], &[]),
            },
            "Apply",
        ),
        (variables(None, var(&[], &[], &[]), true, None), "ListProbes"),
        (
            variables(None, var(&[], &[], &[]), false, Some("hostname")),
            "RunProbe",
        ),
        (
            variables(Some("data.yaml"), var(&[], &[], &[]), false, None),
            "MergeDocument",
        ),
        (
            variables(None, var(&["a"], &["1"], &[]), false, None),
            "SetVariables",
        ),
        (
            variables(None, var(&[], &[], &["a=1"]), false, None),
            "SetVariables",
        ),
        (
            variables(None, var(&["a"], &[], &[]), false, None),
            "GetVariables",
        ),
        (variables(None, var(&[], &[], &[]), false, None), "GetVariables"),
        (
            bundle(BundleCommands::Verify {
                bundle: Source::Bytes(b"a bundle".to_vec()),
            }),
            "VerifyBundle",
        ),
        (bundle(BundleCommands::Status), "GetBundle"),
        (
            install(Source::Url("https://dist.example/fleet.detc".to_string())),
            "InstallBundle",
        ),
        (bundle(BundleCommands::Restore { apply: true }), "InstallBundle"),
        (bundle(BundleCommands::Remove), "RemoveBundle"),
        (
            Commands::Report {
                id: None,
                list: true,
                last: false,
                only_fails: true,
            },
            "ListRuns",
        ),
        (
            Commands::Report {
                id: Some("3".to_string()),
                list: false,
                last: false,
                only_fails: false,
            },
            "GetRun",
        ),
        (
            Commands::Report {
                id: None,
                list: false,
                last: true,
                only_fails: true,
            },
            "GetFailures",
        ),
    ];

    // Every method of the interface is one that something can ask for
    let mut reached: Vec<&str> = Vec::new();

    for (command, expected) in &commands {
        let (method, params) = called(command, false);
        assert_eq!(method.name(), *expected);
        assert_eq!(params.method(), method);

        reached.push(method.name());
    }

    for method in Method::all() {
        assert!(reached.contains(&method.name()), "{}", method.name());
    }
}

#[test]
fn a_call_comes_back_as_the_subcommand_it_was() {
    let apply = Commands::Apply {
        file: Some("/etc/hosts".to_string()),
        kind: Some(Type::Template),
        var: var(&["a"], &["1"], &["b=2"]),
    };

    let (_, params) = called(&apply, true);
    let (back, dry_run) = command(params).unwrap();

    assert!(dry_run);
    assert_eq!(back, apply);
}

/// The bytes of the bundle are what crosses, and a URL is what does not: a path is read
/// here, where it means something, and a URL is forwarded so that the machine which
/// installs the bundle is the one that fetches it.
#[test]
fn a_bundle_crosses_as_bytes_and_a_url_crosses_as_a_url() {
    let file = install(Source::Bytes(b"a bundle".to_vec()));
    let (_, params) = called(&file, false);
    assert_eq!(command(params).unwrap().0, file);

    let url = install(Source::Url("https://dist.example/fleet.detc".to_string()));
    let (_, params) = called(&url, false);

    // Nothing of the file itself is sent, so a fleet of fifty pulls the bundle fifty times
    // from the mirror and never from the admin
    let Params::InstallBundle { bundle: None, .. } = &params else {
        panic!("a URL carries no bundle");
    };
    assert_eq!(command(params).unwrap().0, url);

    // What a path names is read on this side
    let path = install(Source::Path("/srv/fleet.detc".to_string()));
    let (_, params) = call(&path, false, Ok(b"a bundle".to_vec())).unwrap();
    assert_eq!(command(params).unwrap().0, file);
    assert!(call(&path, false, Err("denied".to_string())).is_err());
}

/// The bundle crosses as text, so every byte of it has to arrive as it left, and text that
/// is not a bundle has to say so instead of becoming one.
#[test]
fn every_byte_of_a_bundle_survives_the_crossing() {
    let all: Vec<u8> = (0..=255).collect();

    // Every value, and every length modulo three, so that the padding is exercised in each
    // of the three shapes it has
    for length in [0, 1, 2, 3, 254, 255, 256] {
        let data = all[..length].to_vec();
        let (bundle, url) = locator(&Source::Bytes(data.clone()), unread()).unwrap();

        assert_eq!(url, None, "{length} bytes");
        assert_eq!(source(bundle, None), Ok(Source::Bytes(data)), "{length} bytes");
    }

    for text in ["not base64", "Zm9vYmFy\n", "Zg=", "Zm9-"] {
        let error = source(Some(text.to_string()), None)
            .expect_err("what is not base64 is refused");

        assert!(error.contains("is not base64"), "{text}: {error}");
    }

    assert_eq!(
        locator(&Source::Bytes(b"foobar".to_vec()), unread()).unwrap().0.as_deref(),
        Some("Zm9vYmFy")
    );
}

/// A call that carries no bundle at all is the one thing the machine can install without
/// being given anything: the copy that `--persist` kept.
#[test]
fn a_call_with_no_bundle_in_it_is_a_restore() {
    let restore = bundle(BundleCommands::Restore { apply: true });

    let (method, params) = called(&restore, false);
    assert_eq!(method.name(), "InstallBundle");
    assert_eq!(command(params).unwrap().0, restore);

    assert_eq!(source(None, None), Ok(Source::Stored));
    assert_eq!(locator(&Source::Stored, unread()), Ok((None, None)));
}

/// A bundle is built out of a tree of files, and a tree of files is not something that a
/// call carries, so `create` is refused with the reason.
#[test]
fn a_bundle_is_not_built_from_somewhere_else() {
    let create = bundle(BundleCommands::Create {
        dir: None,
        output: "fleet.detc".to_string(),
        sign: None,
    });

    let error = match call(&create, false, unread()) {
        Err(error) => error,
        Ok(_) => panic!("a bundle was built from somewhere else"),
    };

    assert!(error.contains("run it with detc, not detctl"), "{error}");

    // Nor is a variable taken away over a connection, and a query is not what was asked
    let unset = Commands::Var {
        file: None,
        var: VarArgs {
            key: vec!["dns.domain".to_string()],
            value: Vec::new(),
            kv: Vec::new(),
        },
        persist: false,
        unset: true,
        probes: false,
        probe: None,
    };
    let error = call(&unset, false, unread()).err().expect("no method takes a variable away");
    assert!(error.contains("run it with detc, not detctl"), "{error}");
}

#[test]
fn more_keys_than_values_is_refused_before_anything_is_sent() {
    let command = variables(None, var(&["a", "b"], &["1"], &[]), false, None);

    assert!(call(&command, false, unread()).is_err());
}

#[test]
fn the_end_of_a_stream_is_no_record() {
    for method in Method::all().into_iter().filter(|method| method.stream()) {
        assert!(ends(&end(method)), "{}", method.name());
    }

    assert!(!ends(&read_json(r#"{"type": "probe"}"#).unwrap()));
    assert!(!ends(&read_json("null").unwrap()));
    assert!(ends(&read_json("{}").unwrap()));
}

#[test]
fn a_bundle_is_a_file_or_a_url_and_never_both() {
    let both = carry(Some(Ok(vec![1])), Some("https://dist.example/x".to_string()));
    assert_eq!(
        both,
        Err("A bundle is a file or a URL, and this call carries both".to_string())
    );
}

#[test]
fn a_method_is_found_by_its_full_name() {
    for method in Method::all() {
        assert_eq!(find(&format!("{INTERFACE}.{}", method.name())), Some(method));
    }
    assert_eq!(find("org.detc.Manager.Nope"), None);
    assert_eq!(find("ListTypes"), None);
}

#[test]
fn what_changes_the_system_is_what_writes() {
    let writing: Vec<&str> = Method::all()
        .into_iter()
        .filter(|method| method.writes())
        .map(|method| method.name())
        .collect();
    assert_eq!(
        writing,
        ["Apply", "SetVariables", "MergeDocument", "InstallBundle", "RemoveBundle"]
    );
}

#[test]
fn a_run_is_asked_for_by_its_number() {
    let report = |id: &str| Commands::Report {
        id: Some(id.to_string()),
        list: false,
        last: false,
        only_fails: false,
    };

    assert!(matches!(
        called(&report("12"), false).1,
        Params::GetRun { id: Some(12) }
    ));
    let error = call(&report("last"), false, unread()).err().expect("not a number");
    assert!(error.contains("is not the number of a run"), "{error}");
}
