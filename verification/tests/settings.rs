//! The variables that are set, queried and taken away.

use std::collections::BTreeMap;

use detc::bundle::{Bundle, Found, Holding};
use detc::detc::VarArgs;
use detc::record::{rendered, Record};
use detc::settings::{
    affected, foretell, list_probes, query, refuse_bundled, set_variables, store_document,
    unset_records, unset_variables, variables, Chore, Purpose, Quest, VarRequest,
};
use detc::var::{Store, Variables, DEFAULT_MERGE};

const ROOT: &str = "/sysroot";

fn texts(all: &[&str]) -> Vec<String> {
    all.iter().map(|t| t.to_string()).collect()
}

fn args(key: &[&str], value: &[&str], kv: &[&str]) -> VarArgs {
    VarArgs {
        key: texts(key),
        value: texts(value),
        kv: texts(kv),
    }
}

fn request(args: VarArgs) -> VarRequest {
    VarRequest {
        file: None,
        args,
        persist: false,
        unset: false,
        probes: false,
        probe: None,
    }
}

/// Do what was asked to the drop-ins of a system.
fn perform(files: &mut BTreeMap<String, String>, chores: Vec<Chore>, document: &str) {
    for chore in chores {
        match chore {
            Chore::Put { path, content } => {
                files.insert(path, content);
            }
            Chore::Copy { path } => {
                files.insert(path, document.to_string());
            }
            Chore::Clear { path } => {
                files.remove(&path);
            }
        }
    }
}

#[test]
fn the_arguments_say_which_of_the_things_is_meant() {
    let none = || args(&[], &[], &[]);

    assert_eq!(request(none()).purpose(), Purpose::Whole);
    assert_eq!(request(args(&["a"], &[], &[])).purpose(), Purpose::Keys);
    assert_eq!(request(args(&["a"], &["1"], &[])).purpose(), Purpose::Write);
    assert_eq!(request(args(&[], &[], &["{a: 1}"])).purpose(), Purpose::Write);

    let unset = VarRequest {
        unset: true,
        ..request(args(&["a"], &["1"], &[]))
    };
    assert_eq!(unset.purpose(), Purpose::Unset);

    let probes = VarRequest {
        probes: true,
        ..request(none())
    };
    assert_eq!(probes.purpose(), Purpose::Probes);

    let probe = VarRequest {
        probe: Some("net".to_string()),
        ..request(none())
    };
    assert_eq!(probe.purpose(), Purpose::Probe);
}

#[test]
fn what_is_set_is_kept() {
    let mut files = BTreeMap::new();
    let (chores, end) = set_variables(&args(&["dns.domain"], &["lan"], &[]), Store::Runtime, ROOT);
    assert_eq!(end, Ok(()));
    perform(&mut files, chores, "");

    let runtime = "/sysroot/run/detc/variables/user.d/95-dns-domain.json";
    let persisted = "/sysroot/etc/detc/variables/user.d/90-dns-domain.json";
    assert_eq!(files.keys().collect::<Vec<_>>(), [runtime]);

    let var = Variables::from_str(&files[runtime]).unwrap();
    assert_eq!(var.get_yaml("dns.domain"), Ok("lan\n".to_string()));

    // Persisting an override is a promotion of it and not a second copy
    let (chores, end) =
        set_variables(&args(&["dns.domain"], &["lan"], &[]), Store::Persisted, ROOT);
    assert_eq!(end, Ok(()));
    perform(&mut files, chores, "");
    assert_eq!(files.keys().collect::<Vec<_>>(), [persisted]);
}

#[test]
fn a_mapping_sets_each_of_its_keys() {
    let (chores, end) = set_variables(&args(&[], &[], &["b: 2\na.x: one\n"]), Store::Runtime, ROOT);
    assert_eq!(end, Ok(()));

    let paths: Vec<String> = chores
        .iter()
        .map(|chore| match chore {
            Chore::Put { path, .. } => path.clone(),
            _ => panic!("only what is set is written"),
        })
        .collect();
    assert_eq!(
        paths,
        [
            "/sysroot/run/detc/variables/user.d/95-a-x.json",
            "/sysroot/run/detc/variables/user.d/95-b.json"
        ]
    );

    let (chores, end) = set_variables(&args(&[], &[], &["- 1\n"]), Store::Runtime, ROOT);
    assert!(chores.is_empty() && end.is_err());

    let (chores, end) = set_variables(&args(&["a", "b"], &["1"], &[]), Store::Runtime, ROOT);
    assert!(chores.is_empty() && end.is_err());
}

#[test]
fn the_caller_can_name_the_drop_in_of_a_key() {
    let mut var = Variables::new();
    let mut chores = Vec::new();
    var.set_json_and_store(&mut chores, "a", "1", Store::Runtime, ROOT)
        .unwrap();
    var.set_json_and_store_as(&mut chores, "a", "2", "99-late.json", Store::Runtime, ROOT, false)
        .unwrap();

    // A persisted drop-in of the same name would be read instead
    let error = var
        .set_json_and_store_as(&mut chores, "a", "9", "99-late.json", Store::Runtime, ROOT, true)
        .expect_err("the drop-in is masked");
    assert!(error.contains("is read instead of the drop-in"), "{error}");
    var.set_kv_and_store(&mut chores, "c: 3\n", Store::Runtime, ROOT)
        .unwrap();

    assert_eq!(var.get_yaml("a"), Ok("2\n".to_string()));
    assert_eq!(var.get_yaml("c"), Ok("3\n".to_string()));
    assert!(chores.iter().any(|chore| matches!(
        chore,
        Chore::Put { path, .. } if path == "/sysroot/run/detc/variables/user.d/99-late.json"
    )));
    assert!(var.set_kv_and_store(&mut chores, "[", Store::Runtime, ROOT).is_err());
}

#[test]
fn a_document_is_stored_as_it_was_written() {
    let mut files = BTreeMap::new();
    let body = "# ours\ndns: {domain: lan}\n".to_string();

    let (chores, end) = store_document(
        Ok(Variables::new()),
        "/tmp/net.yaml",
        &Ok(body.clone()),
        Store::Runtime,
        ROOT,
        false,
    );
    assert_eq!(end, Ok(()));
    perform(&mut files, chores, &body);
    assert_eq!(files["/sysroot/run/detc/variables/user.d/95-net.yaml"], body);

    let (chores, end) = store_document(
        Err("broken".to_string()),
        "/tmp/net.yaml",
        &Ok(body.clone()),
        Store::Runtime,
        ROOT,
        false,
    );
    assert!(chores.is_empty());
    assert_eq!(end, Err("broken".to_string()));

    let mut var = Variables::new();
    let (_, end) = var.merge_file_and_store(
        "/tmp/net.yaml",
        &Ok(body),
        Store::Persisted,
        ROOT,
        false,
        DEFAULT_MERGE,
    );
    assert_eq!(end, Ok(()));
    assert_eq!(var.get_yaml("dns.domain"), Ok("lan\n".to_string()));
}

#[test]
fn a_dry_run_names_what_would_be_written() {
    let (dropins, cleared) = affected(
        None,
        &args(&["a"], &["1"], &[]),
        Store::Persisted,
        ROOT,
    )
    .unwrap();
    assert_eq!(dropins, ["/sysroot/etc/detc/variables/user.d/90-a.json"]);
    assert_eq!(cleared, ["/sysroot/run/detc/variables/user.d/95-a.json"]);

    let seen = |all: &[String], there: bool| all.iter().map(|p| (p.clone(), there)).collect();
    assert_eq!(
        rendered(&foretell(&seen(&dropins, false), &seen(&cleared, true), true)),
        "create\tvariable\t/sysroot/etc/detc/variables/user.d/90-a.json\n\
         remove\tvariable\t/sysroot/run/detc/variables/user.d/95-a.json\n"
    );
    assert_eq!(
        rendered(&foretell(&seen(&dropins, true), &seen(&cleared, true), false)),
        "update\tvariable\t/sysroot/etc/detc/variables/user.d/90-a.json\n"
    );
}

#[test]
fn a_file_of_a_bundle_is_not_a_variable_to_set() {
    let holdings = vec![Holding {
        name: "fleet".to_string(),
        list: Ok(Some("run/detc/variables/user.d/95-a.json\n".to_string())),
        state: Found {
            body: Ok(Some("name: fleet".to_string())),
            read: Ok(Bundle {
                name: "fleet".to_string(),
                version: "1".to_string(),
                ..Bundle::nameless()
            }),
        },
    }];
    let path = "/sysroot/run/detc/variables/user.d/95-a.json".to_string();

    let error = refuse_bundled(ROOT, &vec![path], &holdings).expect_err("the bundle owns it");
    assert!(error.contains("belongs to the bundle fleet 1"), "{error}");
    assert!(refuse_bundled(ROOT, &vec!["/sysroot/run/x".to_string()], &holdings).is_ok());

    assert!(unset_variables(&args(&["a"], &[], &[]), ROOT, &holdings).is_err());
    assert!(unset_variables(&args(&["b"], &[], &[]), ROOT, &holdings).is_ok());
}

#[test]
fn a_request_comes_to_one_thing() {
    let none: Vec<Holding> = Vec::new();
    let set = |persist: bool| VarRequest {
        persist,
        ..request(args(&["a"], &["1"], &[]))
    };

    let Ok(Quest::Keep { chores, end }) = variables(&set(true), ROOT, &none, false) else {
        panic!("the key is set");
    };
    assert_eq!(end, Ok(()));
    assert_eq!(chores.len(), 2);

    assert!(matches!(
        variables(&set(false), ROOT, &none, true),
        Ok(Quest::Foretell { dropins, .. }) if dropins.len() == 1
    ));

    let document = VarRequest {
        file: Some("/tmp/net.yaml".to_string()),
        ..request(args(&[], &[], &[]))
    };
    assert!(matches!(variables(&document, ROOT, &none, false), Ok(Quest::Document)));

    let unset = VarRequest {
        unset: true,
        ..request(args(&["a"], &[], &[]))
    };
    assert!(matches!(
        variables(&unset, ROOT, &none, true),
        Ok(Quest::Unset { paths }) if paths.len() == 2
    ));

    let keys = request(args(&["a"], &[], &[]));
    assert!(matches!(variables(&keys, ROOT, &none, false), Ok(Quest::Keys)));

    // A file of a bundle is refused on a dry run as well
    let holdings = vec![Holding {
        name: "fleet".to_string(),
        list: Ok(Some("run/detc/variables/user.d/95-a.json\n".to_string())),
        state: Found {
            body: Ok(Some("name: fleet".to_string())),
            read: Ok(Bundle::nameless()),
        },
    }];
    assert!(variables(&set(false), ROOT, &holdings, true).is_err());
    assert!(variables(&set(true), ROOT, &holdings, true).is_err());
}

#[test]
fn taking_a_variable_away_reaches_both_stores() {
    assert_eq!(
        unset_variables(&args(&["a"], &[], &[]), ROOT, &Vec::new()),
        Ok(texts(&[
            "/sysroot/run/detc/variables/user.d/95-a.json",
            "/sysroot/etc/detc/variables/user.d/90-a.json"
        ]))
    );
    assert_eq!(
        unset_variables(&args(&[], &[], &[]), ROOT, &Vec::new()),
        Err("Which variables to take away is given with -k".to_string())
    );
    assert_eq!(
        unset_variables(&args(&["a"], &["1"], &[]), ROOT, &Vec::new()),
        Err("Taking a variable away needs the key alone, and no value".to_string())
    );

    let path = "/sysroot/run/detc/variables/user.d/95-a.json".to_string();
    assert_eq!(Variables::unset_key("a", Store::Runtime, ROOT, Ok(true)), Ok(Some(path.clone())));
    assert_eq!(Variables::unset_key("a", Store::Runtime, ROOT, Ok(false)), Ok(None));
    assert_eq!(
        Variables::unset_key("a", Store::Runtime, ROOT, Err("denied".to_string())),
        Err(format!("Failed to remove {path}: denied"))
    );

    // What was under it still answers
    assert_eq!(
        rendered(&unset_records("a", ROOT, true, false, Some("/etc/detc/variables/system"))),
        format!("remove\tvariable\t{path}\nremains\tvariable a\t/etc/detc/variables/system\n")
    );
    assert!(unset_records("a", ROOT, false, false, None).is_empty());
}

#[test]
fn the_keys_that_are_asked_for_are_answered_in_turn() {
    let var = Variables::from_str("a: 1\nb: {c: [x]}\n").unwrap();

    let told = query(&var, &texts(&["a", "b.c"]));
    assert_eq!(told.end, Ok(()));
    assert_eq!(
        told.records,
        [
            Record::Text("1\n".to_string()),
            Record::Text("- x\n".to_string())
        ]
    );

    let told = query(&var, &texts(&["a", "nothing", "b"]));
    assert_eq!(told.records.len(), 1);
    assert!(told.end.is_err());

    assert_eq!(
        rendered(&list_probes(&vec![("net".to_string(), "/p/net".to_string())])),
        "net\t/p/net\n"
    );
}
