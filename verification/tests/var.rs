//! The namespace: how it is read, set, and put together from a system.

use std::collections::BTreeMap;

use detc::cfs::{Found, Shelf, UAPICFS};
use detc::document::read_json;
use detc::settings::Chore;
use detc::value::Datum;
use detc::var::{
    mount_point, probe_prefixes, probes_name, strip_extension, Candidate, Documents, Merge, Read, Report,
    Store, Variables, DEFAULT_MERGE, MERGE_KEY, PROBED, SYSTEM_VARIABLES_NAME,
    USER_VARIABLES_NAME,
};

const ROOT: &str = "/sysroot";

fn json(body: &str) -> Datum {
    read_json(body).expect("the document is JSON")
}

fn text(t: &str) -> Datum {
    Datum::String(t.to_string())
}

fn variables(body: &str) -> Variables {
    Variables::from_str(body).expect("the document is understood")
}

fn yaml(var: &Variables, key: &str) -> String {
    var.get_yaml(key).expect("the key is set").trim().to_string()
}

/// The files of a system, by the path that each of them has.
#[derive(Default)]
struct Machine {
    files: BTreeMap<String, String>,
}

impl Machine {
    fn put(&mut self, path: &str, content: &str) {
        self.files.insert(format!("{ROOT}/{path}"), content.to_string());
    }

    fn has(&self, path: &str) -> bool {
        self.files.contains_key(&format!("{ROOT}/{path}"))
    }

    /// Do what setting variables asks for; a document that is copied holds `body`.
    fn perform(&mut self, chores: Vec<Chore>, body: &str) {
        for chore in chores {
            match chore {
                Chore::Put { path, content } => {
                    self.files.insert(path, content);
                }
                Chore::Copy { path } => {
                    self.files.insert(path, body.to_string());
                }
                Chore::Clear { path } => {
                    self.files.remove(&path);
                }
            }
        }
    }

    /// What the system holds of a kind of file.
    fn entries(&self, uapi: &UAPICFS) -> Vec<(String, String)> {
        let shelves = uapi
            .main_paths()
            .iter()
            .map(|main| {
                let dir = format!("{main}.d/");

                Shelf {
                    main: self.files.get(main).map(|content| Found {
                        key: String::new(),
                        path: main.clone(),
                        empty: content.is_empty(),
                    }),
                    dropins: self
                        .files
                        .iter()
                        .filter_map(|(path, content)| {
                            let key = path.strip_prefix(&dir)?;
                            Some(Found {
                                key: key.to_string(),
                                path: path.clone(),
                                empty: content.is_empty(),
                            })
                        })
                        .collect(),
                }
            })
            .collect();

        uapi.entries(&shelves)
    }

    fn documents(&self) -> Result<Documents, String> {
        let system = self.entries(&UAPICFS::with_root(SYSTEM_VARIABLES_NAME, ROOT));
        let user = self.entries(&UAPICFS::with_root(USER_VARIABLES_NAME, ROOT));

        Documents::from_system(&system, &user)
    }

    fn reads(&self) -> Vec<(String, Read)> {
        self.documents()
            .expect("no document is written twice")
            .documents()
            .iter()
            .map(|document| {
                let source = document.source().to_string();
                let body = self.files[&source].clone();
                (source, Ok(body))
            })
            .collect()
    }

    fn probes(&self) -> Vec<Report> {
        let prefixes = probe_prefixes();
        let uapi = UAPICFS::with_root(&probes_name("system"), ROOT)
            .prefixes(&prefixes)
            .recursive(true);

        self.entries(&uapi)
            .iter()
            .map(|(key, path)| Report {
                mount: mount_point("system", key),
                body: match self.files[path].as_str() {
                    "broken" => Err("The probe failed".to_string()),
                    body => Ok(body.to_string()),
                },
            })
            .collect()
    }

    fn namespace(&self) -> Variables {
        let bodies = self.reads().into_iter().map(|(_, body)| body).collect();

        Variables::from_system(&self.probes(), &bodies)
            .expect("the documents are merged")
    }

    fn source_of(&self, key: &str) -> Option<String> {
        self.namespace().source_of(key, &self.reads())
    }

    /// Set a variable, the way the command line does.
    fn set(&mut self, key: &str, value: &str, store: Store) {
        let mut chores = Vec::new();
        Variables::new()
            .set_json_and_store(&mut chores, key, value, store, ROOT)
            .expect("the variable is set");
        self.perform(chores, "");
    }

    /// Store a document, the way the command line does.
    fn store(&mut self, file: &str, body: &str, store: Store) -> Result<(), String> {
        let name = Variables::dropin_file_name(file, store)?;
        let masked = match Variables::masking_path(store, &name, ROOT) {
            Some(path) => self.files.contains_key(&path),
            None => false,
        };
        let (chores, end) = self.namespace().merge_file_and_store(
            file,
            &Ok(body.to_string()),
            store,
            ROOT,
            masked,
            DEFAULT_MERGE,
        );
        self.perform(chores, body);
        end
    }

    fn unset(&mut self, key: &str, store: Store) -> Option<String> {
        let path = Variables::dropin_path(key, store, ROOT);
        let removed = self.files.remove(&path).is_some();

        Variables::unset_key(key, store, ROOT, Ok(removed)).expect("nothing went wrong")
    }
}

#[test]
fn test_documents_are_read_in_any_format() {
    // The same document, in the three formats that are understood
    let json_one = variables(r#"{"dns": {"domain": "lan", "port": 53}}"#);
    let yaml_one = variables("dns:\n  domain: lan\n  port: 53\n");
    let toml_one = variables("[dns]\ndomain = \"lan\"\nport = 53\n");

    for var in [&json_one, &yaml_one, &toml_one] {
        assert_eq!(yaml(var, "dns.domain"), "lan");
        assert_eq!(yaml(var, "dns.port"), "53");
    }

    // The namespace is what a template gets as its context
    assert!(json_one
        .value()
        .same(&json(r#"{"dns": {"domain": "lan", "port": 53}}"#)));

    // And the whole namespace can be shown to the admin
    assert_eq!(
        json_one.to_yaml(),
        Ok("dns:\n  domain: lan\n  port: 53\n".to_string())
    );

    // A document that no parser accepts is reported with what each one complained
    // about, so the author of a YAML file gets a line number instead of a verdict on a
    // format they were not writing
    let err = Variables::from_str("dns:\n  domain: lan\n   search: bad\n")
        .err()
        .expect("the document is not valid in any format");

    assert!(err.starts_with("Format not recognized"), "{err}");
    assert!(err.contains("as YAML: "), "{err}");
    assert!(err.contains("line 3"), "{err}");
    for format in ["JSON", "TOML"] {
        assert!(err.contains(&format!("as {format}: ")), "{err}");
    }
}

#[test]
fn test_get_and_set_dotted_keys() {
    let mut var = Variables::new();

    // The objects that are missing are created along the way
    var.set_value("system.network.mtu", &json("9000")).unwrap();
    assert_eq!(yaml(&var, "system.network.mtu"), "9000");

    // A key without dots is set in the namespace itself
    var.set_value("hostname", &text("test")).unwrap();
    assert_eq!(yaml(&var, "hostname"), "test");

    // An intermediate key addresses the whole subtree
    assert_eq!(yaml(&var, "system.network"), "mtu: 9000");

    // Setting a value that is there replaces it
    var.set_value("system.network.mtu", &json("1500")).unwrap();
    assert_eq!(yaml(&var, "system.network.mtu"), "1500");

    assert!(var.get_value("system.network.gw").is_err());
    assert!(var.get_value("nope").is_err());

    // A scalar is not a subtree, so it cannot hold a value or be navigated
    assert!(var.set_value("hostname.short", &text("test")).is_err());
    assert!(var.get_value("hostname.short").is_err());

    // A key with an empty component addresses a value that cannot be read back with
    // the same syntax
    for key in ["", ".", "a.", ".a", "a..b"] {
        assert!(var.set_value(key, &Datum::Null).is_err(), "{key}");
    }
}

#[test]
fn test_a_number_reads_an_element_of_a_list() {
    let mut var = variables("dns:\n  nameservers: [1.1.1.1, 9.9.9.9]\n");

    assert_eq!(yaml(&var, "dns.nameservers.1"), "9.9.9.9");
    assert!(var.get_value("dns.nameservers.2").is_err());

    // An element of a list cannot be set on its own, and the error says so rather than
    // leaving the reader to guess why the same key that reads does not write
    let err = var
        .set_value("dns.nameservers.0", &text("8.8.8.8"))
        .expect_err("an element of a list cannot be set");
    assert!(err.contains("only a whole list can be set"));

    // And refused for the number and not for the list it would have met
    let err = Variables::new()
        .set_value("dns.nameservers.0", &text("8.8.8.8"))
        .expect_err("an element of a list cannot be set");
    assert!(err.contains("only a whole list can be set"));

    // Wherever the number sits, and not only at the end
    assert!(Variables::new()
        .set_value("system.net.interfaces.0.local", &text("10.0.0.1"))
        .is_err());

    // A number is an index only where there is a list, so a document whose keys are
    // numbers is still read by name
    let var = variables("ports:\n  \"80\": http\n");
    assert_eq!(yaml(&var, "ports.80"), "http");
}

#[test]
fn test_set_from_the_command_line() {
    let mut var = Variables::new();

    // A value that is a document is deserialized
    var.set_json("system.network.mtu", "9000").unwrap();
    var.set_json("dns.nameservers", r#"["1.1.1.1"]"#).unwrap();
    assert!(var.get_value("system.network.mtu").unwrap().same(&json("9000")));
    assert_eq!(yaml(&var, "dns.nameservers"), "- 1.1.1.1");

    // And one that is not is taken as a plain string, so that it does not need to be
    // quoted
    var.set_json("hostname", "test").unwrap();
    assert!(var.get_value("hostname").unwrap().same(&text("test")));

    // A mapping sets several keys at once
    var.set_kv("dns.domain: lan\nsystem.network.mtu: 1500\n").unwrap();
    assert!(var.get_value("dns.domain").unwrap().same(&text("lan")));
    assert!(var.get_value("system.network.mtu").unwrap().same(&json("1500")));

    // But a document that is not a mapping does not name any key
    assert!(var.set_kv("- lan\n").is_err());

    assert_eq!(
        Variables::kv_keys("dns.domain: lan\nsystem.network.mtu: 1500\n").unwrap(),
        ["dns.domain", "system.network.mtu"]
    );
}

#[test]
fn test_probes_mount_point_and_override() {
    let mut machine = Machine::default();
    let libexec = "usr/libexec/detc/probes/system.d";
    let run_lib = "run/lib/detc/probes/system.d";
    let var_lib = "var/lib/detc/probes/system.d";

    // Top level probe, mounted on the category itself
    machine.put(&format!("{libexec}/10-disks"), r#"{"disks": ["sda"]}"#);

    // Subdirectory probes, mounted on system.network
    machine.put(
        &format!("{libexec}/network/10-ip"),
        r#"{"ip": "10.0.0.1", "mtu": 1500}"#,
    );
    machine.put(&format!("{libexec}/network/20-routes"), r#"{"gw": "10.0.0.254"}"#);

    // The injected probe replaces the vendor one with the same relative path, and the
    // one that the admin installed replaces both
    machine.put(&format!("{run_lib}/network/10-ip"), r#"{"ip": "10.0.0.3"}"#);
    machine.put(&format!("{var_lib}/network/10-ip"), r#"{"ip": "10.0.0.2"}"#);

    // A vendor probe masked by an empty file in a higher prefix
    machine.put(&format!("{libexec}/20-legacy"), r#"{"legacy": true}"#);
    machine.put(&format!("{run_lib}/20-legacy"), "");

    // A broken probe is skipped, and does not discard the rest
    machine.put(&format!("{libexec}/90-broken"), "broken");

    let mounts: Vec<String> = machine
        .probes()
        .iter()
        .map(|report| report.mount.join("."))
        .collect();
    assert_eq!(
        mounts,
        ["system", "system", "system.network", "system.network"]
    );

    let var = machine.namespace();

    // The file name orders the probes, but is not part of the mount point
    assert_eq!(yaml(&var, "system.disks"), "- sda");
    assert_eq!(yaml(&var, "system.network.ip"), "10.0.0.2");
    assert_eq!(yaml(&var, "system.network.gw"), "10.0.0.254");

    // The override replaces the whole vendor probe, not only the keys that it
    // redefines
    assert!(var.get_value("system.network.mtu").is_err());
    assert!(var.get_value("system.legacy").is_err());
}

#[test]
fn test_variables_override_probes() {
    let mut machine = Machine::default();
    machine.put(
        "usr/libexec/detc/probes/system.d/network/10-ip",
        r#"{"mtu": 1500, "ip": "10.0.0.1"}"#,
    );
    machine.put(
        "etc/detc/variables/user.d/50-mtu.json",
        r#"{"system": {"network": {"mtu": 9000}}}"#,
    );

    let var = machine.namespace();

    // The admin pins one value, and the rest of the probe survives
    assert_eq!(yaml(&var, "system.network.mtu"), "9000");
    assert_eq!(yaml(&var, "system.network.ip"), "10.0.0.1");
}

#[test]
fn test_merge_strategies() {
    let base = r#"{"dns": {"nameservers": ["1.1.1.1"], "search": ["lan"]}}"#;
    let new = r#"{"dns": {"nameservers": ["8.8.8.8"]}}"#;
    let none: Vec<String> = Vec::new();

    // Objects are merged, but the array is replaced
    let mut var = variables(base);
    var.merge_document(&none, variables(new), Merge::Partial).unwrap();
    assert_eq!(yaml(&var, "dns.nameservers"), "- 8.8.8.8");
    assert_eq!(yaml(&var, "dns.search"), "- lan");

    // Arrays are concatenated
    let mut var = variables(base);
    var.merge_document(&none, variables(new), Merge::Full).unwrap();
    assert_eq!(yaml(&var, "dns.nameservers"), "- 1.1.1.1\n- 8.8.8.8");

    // The whole subtree of the top level key is replaced, so the keys that the document
    // does not mention are gone
    let mut var = variables(base);
    var.merge_document(&none, variables(new), Merge::Replace).unwrap();
    assert_eq!(yaml(&var, "dns.nameservers"), "- 8.8.8.8");
    assert!(var.get_value("dns.search").is_err());

    // The document decides, whatever the default is
    let mut var = variables(base);
    let declared = r#"{"_merge": "full", "dns": {"nameservers": ["8.8.8.8"]}}"#;
    var.merge_document(&none, variables(declared), Merge::Replace).unwrap();
    assert_eq!(yaml(&var, "dns.nameservers"), "- 1.1.1.1\n- 8.8.8.8");

    // And the directive does not reach the namespace
    assert!(var.get_value(MERGE_KEY).is_err());

    let mut var = variables(base);
    let unknown = variables(r#"{"_merge": "nope"}"#);
    assert!(var.merge_document(&none, unknown, Merge::Partial).is_err());
}

#[test]
fn test_a_null_takes_a_value_away() {
    let base = r#"{"dns": {"nameservers": ["1.1.1.1"], "search": ["lan"]}}"#;
    let null = r#"{"dns": {"search": null}}"#;
    let none: Vec<String> = Vec::new();

    // Only the strategy that is RFC 7396 reads a null that way; the other two carry it
    // into the namespace, where a template would render it
    let mut var = variables(base);
    var.merge_document(&none, variables(null), Merge::Partial).unwrap();
    assert!(var.get_value("dns.search").is_err());
    assert_eq!(yaml(&var, "dns.nameservers"), "- 1.1.1.1");

    // Taking away what is not there is not an error
    var.merge_document(&none, variables(null), Merge::Partial).unwrap();
    assert!(var.get_value("dns.search").is_err());

    let mut var = variables(base);
    var.merge_document(&none, variables(null), Merge::Full).unwrap();
    assert_eq!(yaml(&var, "dns.search"), "null");
}

#[test]
fn test_probe_declares_the_merge_strategy() {
    let mut machine = Machine::default();
    let network = "usr/libexec/detc/probes/system.d/network";
    machine.put(&format!("{network}/10-ip"), r#"{"addresses": ["10.0.0.1"]}"#);
    machine.put(
        &format!("{network}/20-vpn"),
        r#"{"_merge": "full", "addresses": ["10.8.0.1"]}"#,
    );

    // Both probes are mounted on system.network, and the second one asks to be added to
    // the addresses that the first one reports
    let var = machine.namespace();
    assert_eq!(yaml(&var, "system.network.addresses"), "- 10.0.0.1\n- 10.8.0.1");
}

#[test]
fn test_persisted_variables_survive_and_win() {
    let mut machine = Machine::default();
    machine.put(
        "usr/share/detc/variables/system.d/10-dns.yaml",
        "dns:\n  nameservers:\n    - a\n",
    );
    machine.put(
        "etc/detc/variables/user.d/50-ssh.yaml",
        "ssh:\n  conf:\n    login: yes\n",
    );

    let mut chores = Vec::new();
    machine
        .namespace()
        .set_kv_and_store(&mut chores, "ssh.conf.login: prohibit", Store::Persisted, ROOT)
        .unwrap();
    machine.perform(chores, "");

    // The drop-in is ordered after the documents written by hand, so the value that was
    // set is the one that the next run reads
    assert_eq!(yaml(&machine.namespace(), "ssh.conf.login"), "prohibit");

    // A document is copied verbatim, so its merge directive survives
    machine
        .store(
            "/sysroot/mydns.yaml",
            "_merge: full\ndns:\n  nameservers:\n    - b\n",
            Store::Persisted,
        )
        .unwrap();
    assert!(machine.has("etc/detc/variables/user.d/90-mydns.yaml"));
    assert_eq!(yaml(&machine.namespace(), "dns.nameservers"), "- a\n- b");

    // A document that is already ordered keeps its place in the sequence
    machine
        .store("/sysroot/10-early.yaml", "dns:\n  domain: lan\n", Store::Persisted)
        .unwrap();
    assert!(machine.has("etc/detc/variables/user.d/10-early.yaml"));

    // The name of the drop-in can be chosen, to place the override before the documents
    // written by hand instead of after them
    let mut chores = Vec::new();
    machine
        .namespace()
        .set_json_and_store_as(
            &mut chores,
            "dns.domain",
            "example.com",
            "05-domain.json",
            Store::Persisted,
            ROOT,
            false,
        )
        .unwrap();
    machine.perform(chores, "");
    assert!(machine.has("etc/detc/variables/user.d/05-domain.json"));
    machine.put("etc/detc/variables/user.d/50-domain.yaml", "dns:\n  domain: lan\n");
    assert_eq!(yaml(&machine.namespace(), "dns.domain"), "lan");

    // A document that is not understood is not persisted
    assert!(machine
        .store("/sysroot/bad.yaml", "not: [a valid\n", Store::Persisted)
        .is_err());
    assert!(!machine.has("etc/detc/variables/user.d/90-bad.yaml"));
}

/// A variable that was not persisted is kept in `run`, and the last thing that was set
/// is the one that answers whichever way round the two were written.
#[test]
fn test_a_variable_is_kept_until_the_next_boot_unless_it_is_persisted() {
    let mut machine = Machine::default();
    let runtime = "run/detc/variables/user.d/95-ntp-server.json";
    let persisted = "etc/detc/variables/user.d/90-ntp-server.json";

    // Nothing was asked to survive, so nothing is written where a reboot cannot reach it
    machine.set("ntp.server", "a", Store::Runtime);
    assert!(machine.has(runtime));
    assert!(!machine.has(persisted));
    assert_eq!(yaml(&machine.namespace(), "ntp.server"), "a");

    // Persisting is a promotion of the same override, so the runtime copy is taken away
    // rather than left behind to answer instead
    machine.set("ntp.server", "b", Store::Persisted);
    assert!(machine.has(persisted));
    assert!(!machine.has(runtime));
    assert_eq!(yaml(&machine.namespace(), "ntp.server"), "b");

    // And the other way round: the runtime drop-in is ordered after the persisted one
    machine.set("ntp.server", "c", Store::Runtime);
    assert!(machine.has(persisted));
    assert_eq!(yaml(&machine.namespace(), "ntp.server"), "c");

    machine.files.retain(|path, _| !path.starts_with("/sysroot/run/"));
    assert_eq!(yaml(&machine.namespace(), "ntp.server"), "b");
}

#[test]
fn test_a_variable_is_taken_away_from_both_stores() {
    let mut machine = Machine::default();
    machine.put(
        "usr/share/detc/variables/system.d/10-core.yaml",
        "ntp:\n  server: shipped\n",
    );
    machine.set("ntp.server", "a", Store::Persisted);
    machine.set("ntp.server", "b", Store::Runtime);

    // Each store answers for its own copy, and the key is in both
    for store in [Store::Runtime, Store::Persisted] {
        assert_eq!(
            machine.unset("ntp.server", store),
            Some(Variables::dropin_path("ntp.server", store, ROOT))
        );
    }

    // A store that no longer holds it says so instead of failing, so the same call can
    // be made twice, or on a machine that never had it
    assert_eq!(machine.unset("ntp.server", Store::Runtime), None);

    // What is left is what was under the drop-ins all along
    assert_eq!(yaml(&machine.namespace(), "ntp.server"), "shipped");

    // And a removal that did not happen says why
    assert_eq!(
        Variables::unset_key("ntp.server", Store::Runtime, ROOT, Err("denied".to_string())),
        Err(
            "Failed to remove /sysroot/run/detc/variables/user.d/95-ntp-server.json: denied"
                .to_string()
        )
    );
}

#[test]
fn test_what_answers_for_a_key_is_the_document_that_won_it() {
    let mut machine = Machine::default();
    machine.put(
        "usr/share/detc/variables/system.d/10-core.yaml",
        "ntp:\n  server: shipped\ndns:\n  domain: lan\n",
    );

    // A key that nothing sets is not in the namespace at all
    assert_eq!(machine.source_of("nothing.here"), None);

    let core = "/sysroot/usr/share/detc/variables/system.d/10-core.yaml".to_string();
    assert_eq!(machine.source_of("ntp.server"), Some(core));

    // Of two documents that set it, the later one is the one that answers
    machine.put("etc/detc/variables/user.d/50-ntp.yaml", "ntp:\n  server: local\n");
    assert_eq!(
        machine.source_of("ntp.server"),
        Some("/sysroot/etc/detc/variables/user.d/50-ntp.yaml".to_string())
    );

    // A null takes the key away rather than setting it, so a document that holds one is
    // not the document that answers
    machine.put("etc/detc/variables/user.d/60-dns.yaml", "dns:\n  domain: null\n");
    assert_eq!(machine.source_of("dns.domain"), None);

    // What no document sets is what a probe reported
    machine.put("usr/libexec/detc/probes/system.d/10-cpu", r#"{"cpus": 4}"#);
    assert_eq!(machine.source_of("system.cpus"), Some(PROBED.to_string()));
}

/// A name that carries its own order is the same name in either store, and the
/// persisted one is the one that is read, so writing the other is refused instead of
/// leaving behind a file that nothing looks at.
#[test]
fn test_a_runtime_document_that_a_persisted_one_masks_is_refused() {
    let mut machine = Machine::default();
    let ordered = "/sysroot/10-early.yaml";

    machine
        .store(ordered, "dns:\n  domain: lan\n", Store::Persisted)
        .unwrap();

    let refused = machine
        .store(ordered, "dns:\n  domain: example.com\n", Store::Runtime)
        .expect_err("the drop-in would be masked");

    assert!(refused.contains("10-early.yaml"));
    assert!(!machine.has("run/detc/variables/user.d/10-early.yaml"));
    assert_eq!(yaml(&machine.namespace(), "dns.domain"), "lan");

    // And so is one whose name was chosen
    let mut chores = Vec::new();
    let refused = Variables::new()
        .set_json_and_store_as(
            &mut chores,
            "dns.domain",
            "lan",
            "10-early.yaml",
            Store::Runtime,
            ROOT,
            true,
        )
        .expect_err("the drop-in would be masked");
    assert!(refused.contains("/sysroot/etc/detc/variables/user.d/10-early.yaml"));
    assert!(chores.is_empty());
}

/// The documents are the files that the namespace was built from, listed in the order in
/// which they were merged and addressed one by one.
#[test]
fn test_the_documents_are_listed_in_the_order_they_are_merged() {
    let mut machine = Machine::default();
    let system = "usr/share/detc/variables/system.d";
    machine.put(&format!("{system}/50-dns.yaml"), "dns:\n  domain: lan\n");
    machine.put(&format!("{system}/10-core.json"), "{\"web\": {\"enabled\": true}}");

    // The file that the drop-ins extend is a document too, and the group is the whole of
    // its name
    machine.put("etc/detc/variables/user", "ntp:\n  server: a\n");
    machine.put("etc/detc/variables/user.d/90-ntp.yaml", "ntp:\n  server: b\n");

    let documents = machine.documents().unwrap();
    let ids: Vec<String> = documents.documents().iter().map(|d| d.id()).collect();

    // The drop-ins of a group are in lexicographic order, the groups are one after the
    // other, and the file comes before the drop-ins that extend it -- which is the order
    // that decides who wins `ntp.server`
    assert_eq!(
        ids,
        ["system/10-core", "system/50-dns", "user", "user/90-ntp"]
    );
    assert_eq!(yaml(&machine.namespace(), "ntp.server"), "b");

    // The extension is not part of the name, and naming it anyway addresses the same
    // document
    let document = documents.find("system/10-core.json").unwrap();
    assert_eq!(document.id(), "system/10-core");
    assert_eq!(document.group(), "system");
    assert_eq!(document.name(), "10-core");
    assert_eq!(
        document.source(),
        "/sysroot/usr/share/detc/variables/system.d/10-core.json"
    );

    assert!(documents.get("system/nope").is_none());
    let error = documents
        .find("system/nope")
        .err()
        .expect("a document that is not there is reported");
    assert!(error.contains("There is no variable document"), "{error}");
}

/// A document that cannot take part in the namespace says so, whether it is the document
/// or the strategy it asks for that is wrong.
#[test]
fn test_a_document_is_checked_without_being_merged() {
    let mut machine = Machine::default();
    let system = "usr/share/detc/variables/system.d";
    let ok = "_merge: full\nweb:\n  port: 80\n";
    let broken = "web: [unclosed\n";
    let strategy = "_merge: sideways\n";
    machine.put(&format!("{system}/10-ok.yaml"), ok);
    machine.put(&format!("{system}/20-broken.yaml"), broken);
    machine.put(&format!("{system}/30-strategy.yaml"), strategy);

    let documents = machine.documents().unwrap();
    documents.find("system/10-ok").unwrap().check(ok).unwrap();

    let error = documents
        .find("system/20-broken")
        .unwrap()
        .check(broken)
        .expect_err("a document that no parser understands is reported");
    assert!(error.contains("Format not recognized"), "{error}");

    let error = documents
        .find("system/30-strategy")
        .unwrap()
        .check(strategy)
        .expect_err("a strategy that does not exist is reported");
    assert!(error.contains("Unknown merge strategy"), "{error}");
}

/// Only the extension tells two documents of one name apart, and the extension is not
/// part of the name.
#[test]
fn test_a_document_written_twice_is_refused() {
    let mut machine = Machine::default();
    let system = "usr/share/detc/variables/system.d";
    machine.put(&format!("{system}/10-core.yaml"), "web:\n  enabled: true\n");
    machine.put(
        &format!("{system}/10-core.json"),
        "{\"web\": {\"enabled\": false}}",
    );

    let error = machine
        .documents()
        .err()
        .expect("two documents of one name are reported");
    assert!(error.contains("is written twice"), "{error}");
}

#[test]
fn a_document_is_found_by_the_address_that_it_has() {
    let mut machine = Machine::default();
    let system = "usr/share/detc/variables/system.d";
    machine.put(&format!("{system}/x.yaml.json"), "{\"web\": 1}");
    machine.put(&format!("{system}/y.yaml"), "web: 2\n");

    let documents = machine.documents().unwrap();
    for document in documents.documents() {
        let found = documents.get(&document.id()).expect("the document is there");
        assert_eq!(found.source(), document.source());
    }
    assert_eq!(documents.get("system/x.yaml").unwrap().name(), "x.yaml");
    assert!(documents.get("system/x").is_none());
}

#[test]
fn what_is_set_is_read_back_and_the_rest_stays() {
    let mut var = variables("dns:\n  domain: lan\nntp:\n  server: a\n");
    var.set_value("dns.search", &json(r#"["lan", "dev"]"#)).unwrap();

    assert!(var.get_value("dns.search").unwrap().same(&json(r#"["lan", "dev"]"#)));
    assert_eq!(yaml(&var, "dns.domain"), "lan");
    assert_eq!(yaml(&var, "ntp.server"), "a");
}

#[test]
fn a_drop_in_is_named_after_its_key_and_ordered_by_its_store() {
    assert_eq!(
        Variables::dropin_name("ssh.conf.login", Store::Persisted),
        "90-ssh-conf-login.json"
    );
    assert_eq!(
        Variables::dropin_name("ssh.conf.login", Store::Runtime),
        "95-ssh-conf-login.json"
    );
    assert_eq!(
        Variables::dropin_file_name("/tmp/mydns.yaml", Store::Runtime),
        Ok("95-mydns.yaml".to_string())
    );
    assert!(Variables::dropin_file_name("/", Store::Runtime).is_err());
    assert_eq!(Variables::masking_path(Store::Persisted, "x", ROOT), None);
    assert_eq!(Variables::replaced_path(Store::Runtime, "x", ROOT), None);
    assert_eq!(Store::of(true), Store::Persisted);
    assert_eq!(Store::of(false), Store::Runtime);
    assert_eq!(strip_extension("10-core.yaml"), "10-core");
    assert_eq!(strip_extension("10-core.conf"), "10-core.conf");
    assert_eq!(
        Variables::user_override("a.b", &json("1")),
        "{\n  \"a\": {\n    \"b\": 1\n  }\n}"
    );
}

#[test]
fn a_strategy_is_named_or_refused() {
    assert_eq!(Merge::from_str("replace"), Ok(Merge::Replace));
    assert_eq!(Merge::from_str("full").map(|m| m.name()), Ok("full"));
    assert_eq!(
        Merge::from_str("sideways"),
        Err("Unknown merge strategy sideways, use replace, partial or full".to_string())
    );
}

#[test]
fn a_namespace_is_extended_below_a_key() {
    let mut var = variables("a:\n  b: 1\n");
    let keys = vec!["a".to_string(), "c".to_string()];
    var.merge_at(&keys, variables("d: 2\n")).unwrap();
    assert_eq!(yaml(&var, "a.b"), "1");
    assert_eq!(yaml(&var, "a.c.d"), "2");

    var.extend(variables("a: 3\n"));
    assert_eq!(yaml(&var, "a"), "3");

    let mut var = variables("l: [1]\n");
    var.full_merge(variables("l: [2]\n"));
    assert_eq!(yaml(&var, "l"), "- 1\n- 2");
    var.merge(variables("l: [3]\n"));
    assert_eq!(yaml(&var, "l"), "- 3");
}

#[test]
fn only_what_can_be_run_is_a_probe() {
    let file = |key: &str, executable: bool| Candidate {
        category: "system".to_string(),
        key: key.to_string(),
        path: format!("/usr/libexec/detc/probes/system.d/{key}"),
        executable,
    };
    let files = vec![
        file("10-os", true),
        file("README", false),
        file("net/ip/10-nic", true),
    ];

    assert_eq!(
        Variables::probes(&files),
        [
            (
                "system".to_string(),
                "/usr/libexec/detc/probes/system.d/10-os".to_string()
            ),
            (
                "system.net.ip".to_string(),
                "/usr/libexec/detc/probes/system.d/net/ip/10-nic".to_string()
            ),
        ]
    );
    assert_eq!(Variables::probe_entries(&files)[1].0, ["system", "net", "ip"]);
}

#[test]
fn the_documents_alone_are_the_namespace_without_the_probes() {
    let bodies: Vec<Read> = vec![Ok("a: 1\n".to_string()), Ok("b: 2\n".to_string())];
    let var = Variables::from_documents(&bodies).unwrap();
    assert_eq!(var.to_yaml(), Ok("a: 1\nb: 2\n".to_string()));

    let broken: Vec<Read> = vec![Err("denied".to_string())];
    assert_eq!(Variables::from_documents(&broken).err().as_deref(), Some("denied"));

    let probe = Variables::from_probe(&Ok("os: linux\n".to_string())).unwrap();
    assert_eq!(probe.get_yaml("os"), Ok("linux\n".to_string()));
    assert_eq!(
        Variables::from_probe(&Err("failed".to_string())).err().as_deref(),
        Some("failed")
    );

    let reports = vec![Report {
        mount: vec!["system".to_string()],
        body: Ok("a: 9\n".to_string()),
    }];
    let var = Variables::from_system_with(&reports, &bodies, DEFAULT_MERGE).unwrap();
    assert_eq!(var.get_yaml("system.a"), Ok("9\n".to_string()));
    assert_eq!(var.get_yaml("a"), Ok("1\n".to_string()));
}
