//! Bundles: how they are built, signed, checked, installed and taken away.

use std::collections::BTreeMap;

use detc::bundle::{
    claim, collect, create, emptied, install, installed, installed_dir, kept, kept_dir,
    kept_path, known, listing, member_mode, named_well, names, needs_restore, open, ours, outstanding,
    owner, parse, place, reachable, recorded, refused, remove, restore, signers_prefixes, trees,
    unpack, verify, Bundle, Found, Holding, Look, Outcome, Recovery, Source, Task, DATA_PREFIX,
    EXEC_PREFIX, FILES, KEPT, LOCAL_ORIGIN, MANIFEST, NAMESPACE, PAYLOAD, SIGNATURE, SIGNERS_NAME,
    STATE, UNSIGNED,
};
use detc::cfs::{self, default_prefixes, Shelf, UAPICFS};
use detc::document::read_yaml;
use detc::signers::{allowed_signers, sign, signed_by, write_down};
use detc::tar::{self, Entry};
use detc::value::{get, Datum};
use detc::var::{probe_prefixes, Read};

const ROOT: &str = "/sysroot";

/// What a manifest says, the fields that it leaves out being empty.
fn described(body: &str) -> Result<Bundle, String> {
    let entries = match read_yaml(body)? {
        Datum::Object(entries) => entries,
        Datum::Null => Vec::new(),
        _ => return Err("not a map".to_string()),
    };
    let text = |name: &str| match get(&entries, name) {
        Some(Datum::String(t)) => t.clone(),
        _ => String::new(),
    };

    Ok(Bundle {
        name: text("name"),
        version: text("version"),
        signer: text("signer"),
        origin: text("origin"),
        persist: matches!(get(&entries, "persist"), Some(Datum::Bool(true))),
    })
}

/// The state of a bundle, as it is stored.
fn stored(bundle: &Bundle) -> String {
    format!(
        "name: '{}'\nversion: '{}'\nsigner: '{}'\norigin: '{}'\npersist: {}\n",
        bundle.name, bundle.version, bundle.signer, bundle.origin, bundle.persist
    )
}

/// A source tree.
type Tree = BTreeMap<String, String>;

fn tree(files: &[(&str, &str)]) -> Tree {
    files
        .iter()
        .map(|(name, content)| (name.to_string(), content.to_string()))
        .collect()
}

/// A source tree with one of everything, and two things that a bundle does not carry.
fn source() -> Tree {
    tree(&[
        (MANIFEST, "name: fleet\nversion: '1'\n"),
        (
            "variables/system.d/10-ssh.yaml",
            "ssh:\n  permit_root_login: 'no'\n",
        ),
        (
            "templates.d/etc/ssh/sshd_config.d/root.conf",
            "PermitRootLogin {{ ssh.permit_root_login }}\n",
        ),
        ("probes/system.d/10-net", "#!/bin/sh\necho '{}'\n"),
        ("providers.d/unit", "#!/bin/sh\nexit 0\n"),
        ("README.md", "how the tree is written\n"),
        (".git/config", "[core]\n"),
    ])
}

/// The files of a tree, as walking it reports them.
fn walked(tree: &Tree) -> Vec<Source> {
    tree.iter()
        .map(|(name, content)| Source {
            name: name.clone(),
            data: Ok(content.as_bytes().to_vec()),
        })
        .collect()
}

fn built(
    tree: &Tree,
    key: Option<(String, Read)>,
) -> Result<(Bundle, Vec<u8>), String> {
    let manifest = tree[MANIFEST].clone();
    let read = described(&manifest);

    create("tree", &Ok(manifest), read, walked(tree), &key)
}

fn unsigned(tree: &Tree) -> Vec<u8> {
    built(tree, None).expect("the bundle is built").1
}

/// A key to sign with, and the `allowed_signers` line of its public half.
fn key(seed: u8, principal: &str) -> ((String, Read), String) {
    let pair = ssh_key::private::Ed25519Keypair::from_seed(&[seed; 32]);
    let private = ssh_key::PrivateKey::from(pair);
    let public = private.public_key().to_openssh().expect("the key is written");
    let body = private
        .to_openssh(ssh_key::LineEnding::LF)
        .expect("the key is written")
        .to_string();

    (
        (format!("/keys/{principal}"), Ok(body)),
        format!("{principal} {public}\n"),
    )
}

/// A system, by the files below its root.
#[derive(Default)]
struct Machine {
    files: BTreeMap<String, (Vec<u8>, u32)>,
}

impl Machine {
    fn put(&mut self, path: &str, content: &str) {
        self.files
            .insert(path.to_string(), (content.as_bytes().to_vec(), 0o644));
    }

    fn has(&self, path: &str) -> bool {
        self.files.contains_key(path)
    }

    fn mode(&self, path: &str) -> u32 {
        self.files[path].1
    }

    fn look(&self, path: &str) -> Look {
        Ok(self
            .files
            .get(path)
            .map(|(data, _)| String::from_utf8(data.clone()).unwrap()))
    }

    fn found(&self, path: &str) -> Found {
        let body = self.look(path);
        let read = match &body {
            Ok(Some(body)) => described(body),
            _ => Ok(Bundle::nameless()),
        };

        Found { body, read }
    }

    /// The names of the files in a directory.
    fn list(&self, dir: &str) -> Vec<String> {
        let dir = format!("{dir}/");

        self.files
            .keys()
            .filter_map(|path| path.strip_prefix(&dir))
            .map(String::from)
            .collect()
    }

    fn named(&self, dir: &str, suffix: &str) -> Vec<String> {
        names(dir, &Ok(self.list(dir)), suffix).expect("the directory is read")
    }

    /// The files of one kind, as the prefixes of the system hold them.
    fn resolved(&self, name: &str) -> Vec<String> {
        let uapi = UAPICFS::with_root(name, "");
        let shelves = uapi
            .search_prefixes()
            .iter()
            .map(|prefix| {
                let dir = format!("{prefix}/{name}.d/");
                Shelf {
                    main: None,
                    dropins: self
                        .files
                        .iter()
                        .filter_map(|(path, (data, _))| {
                            let key = path.strip_prefix(&dir)?;
                            Some(cfs::Found {
                                key: key.to_string(),
                                path: path.clone(),
                                empty: data.is_empty(),
                            })
                        })
                        .collect(),
                }
            })
            .collect();

        uapi.files(&shelves)
    }

    fn installed_found(&self, name: &str) -> Found {
        self.found(&detc::bundle::installed_path(name, STATE))
    }

    fn holdings(&self) -> Vec<Holding> {
        self.named(installed_dir(), FILES)
            .into_iter()
            .map(|name| Holding {
                list: self.look(&detc::bundle::installed_path(&name, FILES)),
                state: self.installed_found(&name),
                name,
            })
            .collect()
    }

    fn installed(&self) -> Vec<Bundle> {
        let states = self
            .named(installed_dir(), STATE)
            .into_iter()
            .map(|name| {
                let found = self.installed_found(&name);
                (name, found)
            })
            .collect();

        installed(ROOT, &states).expect("the states are read")
    }

    fn kept(&self) -> Vec<Bundle> {
        let states = self
            .named(kept_dir(), STATE)
            .into_iter()
            .map(|name| {
                let found = self.found(&kept_path(&name, STATE));
                (name, found)
            })
            .collect();

        kept(ROOT, &states).expect("the states are read")
    }

    fn signers(&self) -> Result<Vec<(String, Read)>, String> {
        Ok(signers_prefixes()
            .iter()
            .filter_map(|prefix| {
                let path = format!("{prefix}/{SIGNERS_NAME}");
                match self.look(&path) {
                    Ok(Some(body)) => Some((path, Ok(body))),
                    _ => None,
                }
            })
            .collect())
    }

    fn verify(&self, file: &[u8], allow_unsigned: bool) -> Result<Bundle, String> {
        let unread = unpack(&self.signers(), file, allow_unsigned)?;
        let read = described(unread.manifest());

        verify(unread, read)
    }

    fn perform(&mut self, tasks: Vec<Task>, bundle: &Bundle, file: &[u8]) {
        for task in tasks {
            match task {
                Task::Write { path, mode, data } => {
                    self.files.insert(path, (data, mode));
                }
                Task::Describe { path, mode } => {
                    self.files.insert(path, (stored(bundle).into_bytes(), mode));
                }
                Task::Keep { path, mode } => {
                    self.files.insert(path, (file.to_vec(), mode));
                }
                Task::Unlink { path, .. } | Task::Discard { path } => {
                    self.files.remove(&path);
                }
                Task::Vacate { .. } => {}
            }
        }
    }

    fn install_from(
        &mut self,
        file: &[u8],
        origin: &str,
        persist: bool,
        allow_unsigned: bool,
        dry_run: bool,
    ) -> Result<Outcome, String> {
        let unread = unpack(&self.signers(), file, allow_unsigned)?;
        let read = described(unread.manifest());
        let name = read.as_ref().map(|b| b.name.clone()).unwrap_or_default();
        let content = open(unread, read)?;
        let list = self.look(&detc::bundle::installed_path(&name, FILES));
        let (outcome, tasks) = install(
            ROOT,
            content,
            origin,
            persist,
            dry_run,
            &self.holdings(),
            &list,
        )?;

        self.perform(tasks, &outcome.bundle, file);
        Ok(outcome)
    }

    fn install(&mut self, file: &[u8], persist: bool) -> Result<Outcome, String> {
        self.install_from(file, LOCAL_ORIGIN, persist, true, false)
    }

    fn remove(&mut self, name: &str, dry_run: bool) -> Option<Outcome> {
        let list = self.look(&detc::bundle::installed_path(name, FILES));
        let (outcome, tasks) = remove(
            ROOT,
            name,
            &self.installed_found(name),
            &self.found(&kept_path(name, STATE)),
            &list,
            dry_run,
        )
        .expect("the states are read")?;

        self.perform(tasks, &Bundle::nameless(), &[]);
        Some(outcome)
    }

    fn reboot(&mut self) {
        self.files.retain(|path, _| !path.starts_with("run/"));
    }

    fn needs_restore(&self) -> bool {
        needs_restore(ROOT, &Ok(self.list(kept_dir())), &self.list(installed_dir()))
    }

    /// Install again what was kept and is not installed, each answered for by name.
    fn restoration(&mut self, dry_run: bool) -> Vec<(String, Result<Outcome, String>)> {
        let mut recovery =
            Recovery::start(ROOT, &Ok(self.list(kept_dir())), &self.list(installed_dir()))
                .expect("the directory is read");

        while let Some(name) = recovery.next().map(String::from) {
            let file = self.files[&kept_path(&name, KEPT)].0.clone();
            let state = self.found(&kept_path(&name, STATE));
            let outcome = restore(ROOT, &name, &Ok(file.clone()), &state).and_then(|terms| {
                self.install_from(
                    &file,
                    &terms.origin,
                    terms.persist,
                    terms.allow_unsigned,
                    dry_run,
                )
            });
            recovery.answer(outcome);
        }

        recovery.end()
    }

    fn restore(&mut self) -> Vec<Outcome> {
        self.restoration(false)
            .into_iter()
            .map(|(_, outcome)| outcome.expect("the bundle is put back"))
            .collect()
    }

    fn owner(&self, path: &str) -> Option<Bundle> {
        owner(ROOT, path, &self.holdings()).expect("the lists are read")
    }
}

/// The one bundle that a system holds, where holding one is the point.
fn one(bundles: Vec<Bundle>) -> Bundle {
    assert_eq!(bundles.len(), 1, "one bundle: {bundles:?}");

    bundles.into_iter().next().expect("the one bundle")
}

#[test]
fn a_tree_becomes_a_bundle_and_the_bundle_becomes_a_system() {
    let mut machine = Machine::default();
    let file = unsigned(&source());

    let bundle = machine.verify(&file, true).unwrap();
    assert_eq!(bundle.name, "fleet");
    assert_eq!(bundle.version, "1");
    assert_eq!(bundle.signer, UNSIGNED);

    assert!(machine.installed().is_empty());
    let outcome = machine.install(&file, false).unwrap();
    assert_eq!(outcome.removed, 0);

    // The data and the executables land in the middle slot of their own search order, and
    // only the executables are executable
    for (name, mode) in [
        ("run/detc/templates.d/etc/ssh/sshd_config.d/root.conf", 0o644),
        ("run/detc/variables/system.d/10-ssh.yaml", 0o644),
        ("run/lib/detc/probes/system.d/10-net", 0o755),
        ("run/lib/detc/providers.d/unit", 0o755),
        ("run/detc/bundles.d/fleet.yaml", 0o644),
        ("run/detc/bundles.d/fleet.files", 0o644),
    ] {
        assert_eq!(machine.mode(name), mode, "{name}");
    }

    // What is not a tree that a bundle carries never left the source
    assert!(!machine.has("run/detc/README.md"));
    assert!(!machine.has("run/detc/.git/config"));

    let state = one(machine.installed());
    assert_eq!(state.name, "fleet");
    assert_eq!(state.origin, LOCAL_ORIGIN);
    assert!(!state.persist);

    let outcome = machine.remove("fleet", false).expect("the bundle is removed");
    assert_eq!(outcome.removed, 6);
    assert!(machine.installed().is_empty());
    assert!(machine.files.is_empty());

    assert_eq!(machine.remove("fleet", false), None);
}

#[test]
fn what_a_bundle_installed_says_so_and_nothing_else_does() {
    let mut machine = Machine::default();
    let path = "run/detc/variables/system.d/10-ssh.yaml";

    // Nothing is installed, so nothing is claimed
    assert_eq!(machine.owner(path), None);

    machine.install(&unsigned(&source()), false).unwrap();

    let what = machine.owner(path).expect("the bundle claims it");
    assert_eq!(what.name, "fleet");
    assert_eq!(what.version, "1");

    // A path in the prefix that a bundle installs into, that this one did not write, and a
    // path in the prefix that no bundle can reach
    assert_eq!(machine.owner("run/detc/templates.d/etc/x"), None);
    assert_eq!(machine.owner("etc/detc/variables/user.d/90-a.json"), None);

    machine.remove("fleet", false);
    assert_eq!(machine.owner(path), None);
}

#[test]
fn a_bundle_that_was_kept_can_be_taken_away_before_it_is_restored() {
    let mut machine = Machine::default();
    machine.install(&unsigned(&source()), true).unwrap();

    // The reboot, which takes the content and leaves the copy
    machine.reboot();
    assert!(machine.installed().is_empty());
    assert!(machine.needs_restore());

    // There is nothing left to unlink, so what is taken away is the copy, and taking it
    // away is what stops the next boot bringing it back
    let outcome = machine.remove("fleet", true).expect("the copy is still a bundle");
    assert_eq!(outcome.bundle.name, "fleet");
    assert_eq!(outcome.removed, 0);
    assert!(machine.needs_restore());

    let outcome = machine.remove("fleet", false).expect("the copy is still a bundle");
    assert_eq!(outcome.removed, 0);
    assert!(machine.kept().is_empty());
    assert!(!machine.needs_restore());

    assert_eq!(machine.remove("fleet", false), None);
}

#[test]
fn what_a_bundle_cannot_carry_is_refused_before_anything_is_written() {
    let mut machine = Machine::default();
    let member = |name: &str, data: &[u8]| Entry::new(name.to_string(), 0o644, data.to_vec());

    for (name, said) in [
        ("etc/passwd", "not one of the trees"),
        ("bundles.d/fleet.files", "which files it wrote"),
        ("templates/etc/passwd", "not one of the trees"),
        ("../escape", "not one of the trees"),
    ] {
        let payload = tar::write(&[
            member(MANIFEST, b"name: fleet\nversion: '1'\n"),
            member(name, b"taken\n"),
        ]);

        // A name that even the archive refuses never reaches the allowlist
        let Ok(payload) = payload else { continue };
        let file = tar::write(&[member(PAYLOAD, &payload)]).unwrap();

        let error = machine
            .install(&file, false)
            .expect_err("what a bundle cannot carry is refused");

        assert!(error.contains(said), "{name}: {error}");
        assert!(machine.files.is_empty(), "{name} wrote something");
    }
}

#[test]
fn a_member_that_is_empty_masks_what_the_distribution_ships() {
    let mut machine = Machine::default();
    machine.put(
        "usr/share/detc/variables/system.d/10-ssh.yaml",
        "ssh:\n  permit_root_login: 'yes'\n",
    );
    assert_eq!(machine.resolved("detc/variables/system").len(), 1);

    let tree = tree(&[
        (MANIFEST, "name: fleet\nversion: '1'\n"),
        ("variables/system.d/10-ssh.yaml", ""),
    ]);
    machine.install(&unsigned(&tree), false).unwrap();

    // The rules of the prefixes do the whole of it: a drop-in of zero bytes in a prefix
    // that wins hides the one below
    assert!(machine.resolved("detc/variables/system").is_empty());
}

#[test]
fn a_version_takes_away_the_one_before_it_and_nothing_else() {
    let mut machine = Machine::default();

    // Something that another injector left in the slot that a bundle shares
    let other = "run/lib/detc/probes/system.d/50-other";
    machine.put(other, "#!\n");

    let first = tree(&[
        (MANIFEST, "name: fleet\nversion: '1'\n"),
        ("templates.d/etc/one.conf", "one\n"),
    ]);
    machine.install(&unsigned(&first), false).unwrap();
    assert!(machine.has("run/detc/templates.d/etc/one.conf"));

    let second = tree(&[
        (MANIFEST, "name: fleet\nversion: '2'\n"),
        ("templates.d/etc/two.conf", "two\n"),
    ]);
    let outcome = machine.install(&unsigned(&second), false).unwrap();

    assert_eq!(outcome.bundle.version, "2");
    assert_eq!(outcome.removed, 1);
    assert!(!machine.has("run/detc/templates.d/etc/one.conf"));
    assert!(machine.has("run/detc/templates.d/etc/two.conf"));

    // What was not its own stayed
    assert!(machine.has(other));
}

#[test]
fn several_bundles_are_installed_at_a_time_and_each_answers_for_its_own() {
    let mut machine = Machine::default();

    let fleet = tree(&[
        (MANIFEST, "name: fleet\nversion: '1'\n"),
        ("templates.d/etc/one.conf", "one\n"),
    ]);
    machine.install(&unsigned(&fleet), true).unwrap();

    let web = tree(&[
        (MANIFEST, "name: web\nversion: '3'\n"),
        ("templates.d/etc/two.conf", "two\n"),
    ]);
    machine.install(&unsigned(&web), false).unwrap();

    // Both are there, by name, and neither took the other away
    let held: Vec<(String, String)> = machine
        .installed()
        .into_iter()
        .map(|what| (what.name, what.version))
        .collect();
    assert_eq!(
        held,
        [
            ("fleet".to_string(), "1".to_string()),
            ("web".to_string(), "3".to_string())
        ]
    );
    assert!(machine.has("run/detc/templates.d/etc/one.conf"));
    assert!(machine.has("run/detc/templates.d/etc/two.conf"));

    // Each file answers with the bundle that wrote it, and only that one was kept, so only
    // that one comes back
    let what = machine.owner("run/detc/templates.d/etc/two.conf");
    assert_eq!(what.map(|what| what.name), Some("web".to_string()));
    assert_eq!(
        machine.kept().into_iter().map(|what| what.name).collect::<Vec<_>>(),
        ["fleet"]
    );

    // And taking one away leaves the other where it is
    machine.remove("fleet", false);
    assert_eq!(one(machine.installed()).name, "web");
    assert!(!machine.has("run/detc/templates.d/etc/one.conf"));
    assert!(machine.has("run/detc/templates.d/etc/two.conf"));
    assert!(!machine.needs_restore());
}

#[test]
fn a_bundle_that_would_write_over_another_one_is_refused() {
    let mut machine = Machine::default();
    let path = "templates.d/etc/chrony.conf";

    let fleet = tree(&[(MANIFEST, "name: fleet\nversion: '1.4'\n"), (path, "one\n")]);
    machine.install(&unsigned(&fleet), false).unwrap();

    // The same path, from a bundle of another name: the two land in the one prefix, and
    // the ladder has nothing to say about which of them wins
    let web = tree(&[(MANIFEST, "name: web\nversion: '3'\n"), (path, "two\n")]);
    let error = machine
        .install(&unsigned(&web), false)
        .expect_err("a path that another bundle wrote is not written over");
    assert!(error.contains("the installed bundle fleet 1.4 wrote"), "{error}");
    assert!(error.contains("take fleet away"), "{error}");

    // Refused before anything was written, so what is there is one whole bundle rather
    // than the halves of two
    assert_eq!(one(machine.installed()).name, "fleet");
    assert_eq!(
        machine.look("run/detc/templates.d/etc/chrony.conf"),
        Ok(Some("one\n".to_string()))
    );

    // And asked on its own
    let wanted = vec!["run/detc/templates.d/etc/chrony.conf".to_string()];
    assert!(claim(ROOT, "web", &wanted, &machine.holdings()).is_err());
    assert!(claim(ROOT, "fleet", &wanted, &machine.holdings()).is_ok());
}

#[test]
fn a_bundle_that_persists_is_installed_again_after_a_reboot() {
    let mut machine = Machine::default();
    let file = unsigned(&source());

    machine.install(&file, true).unwrap();
    assert!(machine.has(&kept_path("fleet", KEPT)));
    assert!(one(machine.installed()).persist);
    assert!(!machine.needs_restore());

    // A reboot, which takes the tmpfs and everything a bundle wrote in it
    machine.reboot();
    assert!(machine.installed().is_empty());
    assert!(machine.needs_restore());

    let restored = machine.restore();
    assert_eq!(restored.len(), 1);
    assert_eq!(restored[0].bundle.name, "fleet");
    assert!(machine.has("run/detc/variables/system.d/10-ssh.yaml"));
    assert!(!machine.needs_restore());

    // Nothing is left to put back, so a restore now does nothing at all
    assert!(machine.restore().is_empty());

    // And a version that does not persist takes away the copy that would otherwise come
    // back in its place
    machine.install(&file, false).unwrap();
    assert!(!machine.has(&kept_path("fleet", KEPT)));
    assert!(machine.kept().is_empty());
    assert!(!machine.needs_restore());
}

#[test]
fn the_same_tree_always_builds_the_same_bytes() {
    let first = unsigned(&source());

    // What a checkout changes and a bundle must not carry: the order in which the
    // directory reports its files
    let tree = source();
    let mut files = walked(&tree);
    files.reverse();
    let manifest = tree[MANIFEST].clone();
    let read = described(&manifest);

    let second = create("tree", &Ok(manifest), read, files, &None).unwrap().1;
    assert_eq!(second, first);
}

#[test]
fn a_bundle_installs_into_the_slot_that_is_reserved_for_it() {
    // Between the distribution and the admin, which is what makes a bundle something the
    // admin of the machine can still override
    assert_eq!(DATA_PREFIX, default_prefixes()[1]);
    assert_eq!(EXEC_PREFIX, probe_prefixes()[1]);
    assert!(!signers_prefixes().contains(&DATA_PREFIX));
}

#[test]
fn a_bundle_carries_what_the_system_looks_for() {
    let names: Vec<(String, bool)> = trees();

    // Every tree the system searches but the one that `detc var` writes
    assert_eq!(
        names,
        [
            ("variables/system".to_string(), false),
            ("templates".to_string(), false),
            ("resources".to_string(), false),
            ("probes/system".to_string(), true),
            ("providers".to_string(), true),
        ]
    );

    // And it is walked into all the same, so that whoever put a document there is told why
    // it is not shipping rather than left to notice
    assert!(reachable("variables/user.d"));
    assert!(!reachable(".git"));
}

#[test]
fn the_variables_of_the_administrator_are_not_a_bundle_to_carry() {
    // The tree that `detc var` writes into `run`, which is the one prefix a bundle also
    // installs into: a bundle that reached it could take away a variable that somebody
    // set, and the next install would put it back
    for name in [
        "variables/user",
        "variables/user.d/95-dns-domain.json",
        "variables/user.d/50-fleet.yaml",
    ] {
        let error = place(name).expect_err("the administrator's tree");

        assert!(error.contains("is where `detc var` writes"), "{error}");
        assert!(error.contains("variables/system.d instead"), "{error}");
        assert!(refused(name).is_some());
        assert!(member_mode(name).is_err());
    }

    // The tree beside it is what a bundle ships variables as, and it still wins over the
    // distribution because of the prefix it lands in
    assert_eq!(
        place("variables/system.d/95-dns-domain.json").unwrap().0,
        "run/detc/variables/system.d/95-dns-domain.json"
    );
}

#[test]
fn only_a_key_that_the_system_allows_signs_a_bundle() {
    let mut machine = Machine::default();
    let (key, line) = self::key(1, "fleet@example");
    let file = built(&source(), Some(key)).unwrap().1;

    // A system that allows nobody checks nothing
    let error = machine
        .verify(&file, false)
        .expect_err("a system with no allowed signers takes no bundle");
    assert!(error.contains(SIGNERS_NAME), "{error}");

    // One that allows somebody else takes no bundle from this key
    let (_, other) = self::key(2, "other@example");
    machine.put("etc/detc/allowed_signers", &other);
    let error = machine
        .verify(&file, false)
        .expect_err("a key that is not allowed is not trusted");
    assert!(error.contains("does not allow"), "{error}");

    // And one that allows this key learns who it belongs to
    machine.put("etc/detc/allowed_signers", &format!("# ours\n\n{other}{line}"));
    let bundle = machine.verify(&file, false).unwrap();
    assert_eq!(bundle.signer, "fleet@example");

    // The signature covers the payload, so a bundle that was changed on the way is not the
    // bundle that was signed
    let mut members = tar::read(&file).unwrap();
    let payload = members
        .iter_mut()
        .find(|member| member.name == PAYLOAD)
        .expect("the payload");
    payload.data[512] ^= 0xff;
    let tampered = tar::write(&members).unwrap();

    let error = machine
        .verify(&tampered, false)
        .expect_err("a payload that was changed is refused");
    assert!(error.contains("not valid"), "{error}");

    assert!(machine.verify(&file, false).is_ok());
}

#[test]
fn a_bundle_is_signed_and_checked_for_what_it_was_made_for() {
    let ((path, body), line) = self::key(3, "fleet@example");
    let files: Result<Vec<(String, Read)>, String> =
        Ok(vec![("/etc/detc/allowed_signers".to_string(), Ok(line))]);

    let signature = sign(NAMESPACE, b"payload", &path, &body).unwrap();
    assert_eq!(
        signed_by(&files, NAMESPACE, b"payload", &signature),
        Ok("fleet@example".to_string())
    );
    assert!(signature.starts_with(b"-----BEGIN SSH SIGNATURE-----"));

    // A signature is only good for what it was made for, and for what it was made of
    assert!(signed_by(&files, "git", b"payload", &signature).is_err());
    assert!(signed_by(&files, NAMESPACE, b"other", &signature).is_err());
    assert!(signed_by(&files, NAMESPACE, b"payload", b"nothing").is_err());
    assert!(sign(NAMESPACE, b"payload", &path, &Ok("no key".to_string())).is_err());
    assert!(sign(NAMESPACE, b"payload", &path, &Err("denied".to_string())).is_err());
}

#[test]
fn an_allowed_signer_that_narrows_what_a_key_may_sign_is_refused() {
    let mut machine = Machine::default();
    let (key, line) = self::key(1, "fleet@example");
    let file = built(&source(), Some(key)).unwrap().1;

    let (principals, key) = line.split_once(' ').expect("the line names a signer");
    machine.put(
        "etc/detc/allowed_signers",
        &format!("{principals} namespaces=\"detc-bundle\" {key}"),
    );

    let error = machine
        .verify(&file, false)
        .expect_err("an option that this system does not read is refused");
    assert!(error.contains("are not read here"), "{error}");

    assert!(allowed_signers(&Err("broken".to_string())).is_err());
    assert_eq!(
        allowed_signers(&Ok(Vec::new())).err().as_deref(),
        Some("There is no detc/allowed_signers in this system, so no signature can be checked; write the key that signs your bundles in etc/detc/allowed_signers")
    );
}

#[test]
fn a_bundle_that_is_not_signed_is_taken_only_when_it_is_asked_for() {
    let machine = Machine::default();
    let file = unsigned(&source());

    let error = machine
        .verify(&file, false)
        .expect_err("an unsigned bundle is refused");
    assert!(error.contains("--allow-unsigned"), "{error}");

    assert_eq!(machine.verify(&file, true).unwrap().signer, UNSIGNED);
}

#[test]
fn nothing_of_a_bundle_is_written_when_the_run_is_a_rehearsal() {
    let mut machine = Machine::default();
    let file = unsigned(&source());

    let outcome = machine
        .install_from(&file, LOCAL_ORIGIN, true, true, true)
        .unwrap();
    assert_eq!(outcome.written, 6);
    assert_eq!(outcome.removed, 0);
    assert!(machine.files.is_empty());

    machine.install(&file, false).unwrap();
    let outcome = machine.remove("fleet", true).expect("there is one to remove");
    assert_eq!(outcome.removed, 6);
    assert_eq!(machine.installed().len(), 1);
}

#[test]
fn a_manifest_that_says_nothing_is_refused() {
    for text in [
        "",
        "name: fleet\n",
        "version: '1'\n",
        "name: fleet\nversion: ''\n",
    ] {
        let error = built(&tree(&[(MANIFEST, text)]), None)
            .expect_err("a bundle that does not say what it is is refused");

        assert!(error.contains("needs a name and a version"), "{text:?}: {error}");
    }

    // And a name that is not a name is refused too: it is a component of the paths where
    // the system keeps what the bundle wrote
    for name in ["../escape", "etc/passwd", ".hidden", "one two"] {
        let text = format!("name: {name:?}\nversion: '1'\n");
        let error = built(&tree(&[(MANIFEST, &text)]), None)
            .expect_err("a name that is not one is refused");

        assert!(error.contains("the way a file name is"), "{name}: {error}");
        assert!(!named_well(name));
    }

    assert!(parse("name: [", Err("broken".to_string())).is_err());
}

#[test]
fn a_bundle_file_holds_a_payload_and_its_signature_and_nothing_else() {
    let member = |name: &str| Entry::new(name.to_string(), 0o644, Vec::new());
    let file = |members: &[Entry]| tar::write(members).unwrap();

    for members in [
        vec![],
        vec![member(SIGNATURE)],
        vec![member(PAYLOAD), member("extra")],
        vec![member(PAYLOAD), member(PAYLOAD)],
    ] {
        assert!(unpack(&Ok(Vec::new()), &file(&members), true).is_err());
    }

    // Neither of the two is there a second time
    let good = unsigned(&source());
    let payload = tar::read(&good).unwrap().remove(0);
    let twice = file(&[payload.clone(), payload]);
    assert!(unpack(&Ok(Vec::new()), &good, true).is_ok());
    let error = unpack(&Ok(Vec::new()), &twice, true).err().expect("a second payload");
    assert_eq!(error, "The bundle holds payload.tar twice");

    // And a payload that says nothing of itself is none
    let empty = tar::write(&[]).unwrap();
    let bundle = file(&[Entry::new(PAYLOAD.to_string(), 0o644, empty)]);
    let error = unpack(&Ok(Vec::new()), &bundle, true).err().expect("no manifest");
    assert!(error.contains("holds no bundle.yaml"), "{error}");
}

#[test]
fn what_was_written_is_what_is_recorded() {
    let paths = vec![
        "run/detc/bundles.d/fleet.yaml".to_string(),
        "run/detc/templates.d/etc/a b.conf".to_string(),
    ];
    assert_eq!(recorded(ROOT, "fleet", &Ok(Some(listing(&paths)))), Ok(paths));
    assert_eq!(recorded(ROOT, "fleet", &Ok(None)), Ok(Vec::new()));
    assert!(recorded(ROOT, "fleet", &Err("denied".to_string())).is_err());

    // What no bundle can have written is left alone
    assert_eq!(
        recorded(
            ROOT,
            "fleet",
            &Ok(Some("etc/passwd\n\nrun/detc/x\n".to_string()))
        ),
        Ok(vec!["run/detc/x".to_string()])
    );
}

#[test]
fn only_the_directories_of_a_bundle_go_with_its_files() {
    assert_eq!(
        emptied("run/lib/detc/providers.d/unit"),
        ["run/lib/detc/providers.d", "run/lib/detc"]
    );
    assert!(ours("run/detc/templates.d/x"));
    assert!(!ours("run/other/x"));

    // Nor is what climbs out of the tree that it starts in
    assert!(!ours("run/detc/../../etc/passwd"));
    assert!(!ours("run/lib/detc/.."));
    assert!(ours("run/detc/..x"));
    assert_eq!(
        recorded(
            ROOT,
            "fleet",
            &Ok(Some("run/detc/../../etc/passwd\nrun/detc/x\n".to_string()))
        ),
        Ok(vec!["run/detc/x".to_string()])
    );
}

#[test]
fn the_bundles_that_a_system_knows_are_named_once_and_in_order() {
    let names = |names: &[&str]| names.iter().map(|n| n.to_string()).collect::<Vec<_>>();

    assert_eq!(
        known(&names(&["web", "base"]), &names(&["fleet", "web"])),
        ["base", "fleet", "web"]
    );
    assert!(known(&Vec::new(), &Vec::new()).is_empty());
}

#[test]
fn a_signature_is_decided_by_the_key_and_by_what_is_signed() {
    let ((path, body), line) = self::key(4, "fleet@example");
    let files: Result<Vec<(String, Read)>, String> =
        Ok(vec![("/etc/detc/allowed_signers".to_string(), Ok(line))]);

    let once = sign(NAMESPACE, b"payload", &path, &body).unwrap();
    assert_eq!(sign(NAMESPACE, b"payload", &path, &body), Ok(once.clone()));
    assert_ne!(sign(NAMESPACE, b"other", &path, &body), Ok(once.clone()));
    assert!(signed_by(&files, NAMESPACE, b"payload", &once).is_ok());

    // A use that has no name is refused by the signing itself, with its reason
    let error = sign("", b"payload", &path, &body).expect_err("there is nothing to sign for");
    assert!(error.starts_with(&format!("Cannot sign the bundle with {path}: ")), "{error}");
    assert_eq!(
        write_down("/keys/x", Err("broken".to_string())),
        Err("Cannot sign the bundle with /keys/x: broken".to_string())
    );
}

#[test]
fn a_bundle_lives_through_its_commands_as_it_was_installed() {
    let mut machine = Machine::default();
    let file = unsigned(&source());
    machine.put("run/detc/templates.d/other", "left alone\n");
    let before = machine.files.clone();

    // What an install writes is the members of the payload but the manifest, and two more
    let payload = tar::read(&tar::read(&file).unwrap().remove(0).data).unwrap();
    let rehearsed = machine.install_from(&file, LOCAL_ORIGIN, true, true, true).unwrap();
    assert_eq!(machine.files, before);
    let installed = machine.install(&file, true).unwrap();
    assert_eq!(installed, rehearsed);
    assert_eq!(installed.written, payload.len() - 1 + 2);

    let owned = machine
        .files
        .keys()
        .filter(|path| machine.owner(path).is_some_and(|b| b.name == "fleet"))
        .count();
    assert_eq!(owned, installed.written);

    // It is to be put back after a reboot, rehearsed or not, until it is
    machine.reboot();
    assert!(machine.needs_restore());
    machine.install_from(&file, LOCAL_ORIGIN, true, true, true).unwrap();
    assert!(machine.needs_restore());
    machine.restore();
    assert!(!machine.needs_restore());

    let foreseen = machine.remove("fleet", true);
    let removed = machine.remove("fleet", false);
    assert_eq!(foreseen, removed);
    assert_eq!(removed.unwrap().removed, installed.written);
    assert_eq!(machine.remove("fleet", false), None);
    assert!(machine.installed().is_empty() && machine.kept().is_empty());
}

#[test]
fn a_restore_answers_for_every_kept_bundle_and_goes_on() {
    let mut machine = Machine::default();
    for name in ["alpha", "beta", "gamma"] {
        let manifest = format!("name: {name}\nversion: \"1\"\n");
        let template = format!("templates.d/etc/{name}.conf");
        let file = unsigned(&tree(&[("bundle.yaml", &manifest), (&template, "x\n")]));
        machine.install(&file, true).unwrap();
    }

    // The copy of one of them is spoiled
    machine.reboot();
    machine.put(&kept_path("beta", KEPT), "spoiled");
    let before = machine.files.clone();

    let names = |answers: &[(String, Result<Outcome, String>)]| -> Vec<(String, bool)> {
        answers.iter().map(|(name, r)| (name.clone(), r.is_ok())).collect()
    };
    let want = [("alpha", true), ("beta", false), ("gamma", true)]
        .map(|(name, worked)| (name.to_string(), worked));

    let rehearsed = machine.restoration(true);
    assert_eq!(names(&rehearsed), want);
    assert_eq!(machine.files, before);

    let answers = machine.restoration(false);
    assert_eq!(names(&answers), want);
    assert!(machine.has("run/detc/templates.d/etc/gamma.conf"));
    assert!(!machine.has("run/detc/templates.d/etc/beta.conf"));

    // What failed is what is left
    assert!(machine.needs_restore());
    assert_eq!(
        outstanding(ROOT, &Ok(machine.list(kept_dir())), &machine.list(installed_dir())),
        Ok(vec!["beta".to_string()])
    );
    assert!(Recovery::start(ROOT, &Err("denied".to_string()), &Vec::new()).is_err());
}

#[test]
fn what_a_corrupted_list_took_away_of_another_bundle_is_not_its_own() {
    let mut machine = Machine::default();
    let file = unsigned(&source());
    machine.install(&file, false).unwrap();
    let other = unsigned(&tree(&[
        ("bundle.yaml", "name: other\nversion: \"1\"\n"),
        ("templates.d/etc/other.conf", "x\n"),
    ]));
    machine.install(&other, false).unwrap();

    // The list of the first names the list of the second, which its next version takes away
    let list = detc::bundle::installed_path("fleet", FILES);
    let body = String::from_utf8(machine.files[&list].0.clone()).unwrap();
    machine.put(&list, &format!("{body}run/detc/bundles.d/other.files\n"));
    machine.install(&file, false).unwrap();

    let owner = |path: &str| machine.owner(path).map(|b| b.name);
    assert_eq!(
        owner("run/detc/variables/system.d/10-ssh.yaml").as_deref(),
        Some("fleet")
    );
    assert_eq!(owner("run/detc/bundles.d/fleet.files").as_deref(), Some("fleet"));
    assert_eq!(owner("run/detc/bundles.d/other.files"), None);
}

#[test]
fn a_bundle_is_kept_under_its_name() {
    assert_eq!(kept_path("fleet", KEPT), "var/lib/detc/bundles.d/fleet.detc");
    assert_eq!(
        names(
            "x",
            &Ok(vec![
                "b.yaml".to_string(),
                "a.yaml".to_string(),
                "a.files".to_string(),
                ".hidden.yaml".to_string()
            ]),
            STATE
        ),
        Ok(vec!["a".to_string(), "b".to_string()])
    );
    assert!(restore(
        ROOT,
        "fleet",
        &Err("denied".to_string()),
        &Found {
            body: Ok(None),
            read: Ok(Bundle::nameless())
        }
    )
    .is_err());
    assert_eq!(member_mode("providers.d/unit"), Ok(Some(0o755)));
    assert_eq!(member_mode("README.md"), Ok(None));
    assert_eq!(collect(Vec::new()), Ok(Vec::new()));
}
