//! The files of the system, by the prefixes that they are looked for in.

use detc::cfs::{default_prefixes, rung, Found, Shelf, UAPICFS};

const SEARCH_PREFIXES: &[&str] = &["usr/share", "run", "etc"];

/// A file that was found in a prefix.
fn found(prefix: &str, dir: &str, key: &str, empty: bool) -> Found {
    Found {
        key: key.to_string(),
        path: format!("/sysroot/{prefix}/{dir}{key}"),
        empty,
    }
}

fn main_file(prefix: &str, name: &str) -> Found {
    Found {
        key: String::new(),
        path: format!("/sysroot/{prefix}/{name}"),
        empty: false,
    }
}

#[test]
fn test_uapi_masking_and_ordering() {
    let uapi = UAPICFS::with_root("myapp.conf", "/sysroot");
    assert_eq!(
        uapi.main_paths(),
        [
            "/sysroot/usr/share/myapp.conf",
            "/sysroot/run/myapp.conf",
            "/sysroot/etc/myapp.conf"
        ]
    );

    let d = "myapp.conf.d/";
    let shelves = vec![
        Shelf {
            main: Some(main_file("usr/share", "myapp.conf")),
            dropins: vec![
                found("usr/share", d, "10-link.conf", false),
                found("usr/share", d, "20-override.conf", false),
            ],
        },
        Shelf {
            main: None,
            dropins: vec![found("run", d, "20-override.conf", false)],
        },
        Shelf {
            // Higher priority wins
            main: Some(main_file("etc", "myapp.conf")),
            dropins: vec![
                // Nothing in it, so it masks the one of the distribution
                found("etc", d, "10-link.conf", true),
                found("etc", d, "05-first.conf", false),
            ],
        },
    ];

    let resolved_files = uapi.files(&shelves);

    assert_eq!(
        resolved_files.len(),
        3,
        "Should have 1 main file and 2 drop-ins"
    );

    // The main file comes first, and the drop-ins behind it in the order of their
    // names
    assert!(resolved_files[0].ends_with("etc/myapp.conf"));
    assert!(resolved_files[1].ends_with("etc/myapp.conf.d/05-first.conf"));
    assert!(resolved_files[2].ends_with("run/myapp.conf.d/20-override.conf"));

    for path in &resolved_files {
        assert!(!path.ends_with("10-link.conf"));
    }
}

#[test]
fn test_uapi_recursive_dropins() {
    let d = "myapp.conf.d/";

    // Without the recursive mode only the directory itself is read
    let uapi = UAPICFS::with_root("myapp.conf", "/sysroot");
    assert!(!uapi.is_recursive());
    assert_eq!(uapi.depth(), 1);

    let uapi = UAPICFS::with_root("myapp.conf", "/sysroot").recursive(true);
    assert!(uapi.is_recursive());
    assert!(uapi.depth() > 1);

    let shelves = vec![
        Shelf {
            main: None,
            dropins: vec![
                found("usr/share", d, "10-top.conf", false),
                found("usr/share", d, "net/20-nic.conf", false),
                found("usr/share", d, "disk/30-part.conf", false),
                // The same file name in another directory is another entry
                found("usr/share", d, "net/30-part.conf", false),
            ],
        },
        Shelf {
            main: None,
            dropins: vec![found("run", d, "net/20-nic.conf", false)],
        },
        Shelf {
            main: None,
            dropins: vec![found("etc", d, "disk/30-part.conf", true)],
        },
    ];
    // Without the recursive mode the subdirectories are ignored
    let top = UAPICFS::with_root("myapp.conf", "/sysroot").files(&shelves);
    assert_eq!(top.len(), 1);
    assert!(top[0].ends_with("usr/share/myapp.conf.d/10-top.conf"));

    // With the recursive mode the same rules apply to the subdirectories
    let resolved_files = uapi.files(&shelves);

    assert_eq!(resolved_files.len(), 3);
    assert!(resolved_files[0].ends_with("usr/share/myapp.conf.d/10-top.conf"));
    assert!(resolved_files[1].ends_with("run/myapp.conf.d/net/20-nic.conf"));
    assert!(resolved_files[2].ends_with("usr/share/myapp.conf.d/net/30-part.conf"));

    // disk/30-part.conf was masked, but net/30-part.conf was not
    for path in &resolved_files {
        assert!(!path.ends_with("disk/30-part.conf"));
    }
}

#[test]
fn test_uapi_custom_prefixes() {
    let uapi = UAPICFS::with_root("probes", "/sysroot").prefixes(&["/usr/libexec", "var/lib"]);

    // The leading separator is ignored
    assert_eq!(*uapi.search_prefixes(), ["usr/libexec", "var/lib"]);

    let shelves = vec![
        Shelf {
            main: None,
            dropins: vec![found("usr/libexec", "probes.d/", "10-bootctl", false)],
        },
        Shelf {
            main: None,
            dropins: vec![found("var/lib", "probes.d/", "10-bootctl", false)],
        },
    ];
    let resolved_files = uapi.files(&shelves);
    assert_eq!(resolved_files.len(), 1);
    assert!(resolved_files[0].ends_with("var/lib/probes.d/10-bootctl"));

    // The default prefixes are still the configuration ones
    let uapi = UAPICFS::with_root("probes", "/sysroot");
    assert_eq!(*uapi.search_prefixes(), default_prefixes());
    assert_eq!(default_prefixes(), SEARCH_PREFIXES);
}

#[test]
fn test_the_rung_of_a_file_and_the_rest_of_its_path() {
    let root = "/sysroot";
    let at = |rung: usize, rest: &str| Some((rung, rest.to_string()));

    // The rung is the index in the ladder, and the rest is what is the same in every
    // prefix of it, which is what names the file that would shadow this one somewhere
    // else
    assert_eq!(
        rung(
            root,
            "/sysroot/usr/share/detc/templates.d/etc/hostname",
            SEARCH_PREFIXES
        ),
        at(0, "detc/templates.d/etc/hostname")
    );
    assert_eq!(
        rung(
            root,
            "/sysroot/etc/detc/templates.d/etc/hostname",
            SEARCH_PREFIXES
        ),
        at(2, "detc/templates.d/etc/hostname")
    );

    // A ladder of its own, for the programs
    assert_eq!(
        rung(
            root,
            "/sysroot/var/lib/detc/providers.d/pkg",
            &["usr/libexec", "run/lib", "var/lib"]
        ),
        at(2, "detc/providers.d/pkg")
    );

    // The highest prefix that holds the path wins, so a ladder whose prefixes nest
    // answers with the more specific one rather than with `lib/detc/x` under `run`
    assert_eq!(
        rung(root, "/sysroot/run/lib/detc/x", &["run", "run/lib"]),
        at(1, "detc/x")
    );

    // Nothing is read, so a file that is not there is answered for
    assert_eq!(
        rung(root, "/sysroot/etc/detc/nothing", SEARCH_PREFIXES),
        at(2, "detc/nothing")
    );

    // A file outside the root, and one inside it but on no rung
    assert_eq!(rung(root, "/elsewhere/etc/detc/x", SEARCH_PREFIXES), None);
    assert_eq!(rung(root, "/sysroot/opt/detc/x", SEARCH_PREFIXES), None);
}

#[test]
fn one_level_is_the_top_of_all_and_no_file_is_seen_twice() {
    let d = "myapp.conf.d/";
    let shelves = vec![
        Shelf {
            main: Some(main_file("usr/share", "myapp.conf")),
            dropins: vec![
                found("usr/share", d, "a", false),
                found("usr/share", d, "net/b", false),
                found("usr/share", d, "z", false),
            ],
        },
        Shelf {
            main: None,
            dropins: vec![found("run", d, "a", false), found("run", d, "z", true)],
        },
        Shelf {
            main: None,
            dropins: vec![found("etc", d, "net/c", false)],
        },
    ];
    let flat = UAPICFS::with_root("myapp.conf", "/sysroot");
    let deep = UAPICFS::with_root("myapp.conf", "/sysroot").recursive(true);

    let keys = |uapi: &UAPICFS| -> Vec<String> {
        uapi.entries(&shelves).into_iter().map(|entry| entry.0).collect()
    };
    assert_eq!(keys(&deep), ["", "a", "net/b", "net/c"]);
    assert_eq!(keys(&flat), ["", "a"]);

    let mut files = deep.files(&shelves);
    assert_eq!(files[0], "/sysroot/usr/share/myapp.conf");
    files.sort();
    files.dedup();
    assert_eq!(files.len(), 4);
}
