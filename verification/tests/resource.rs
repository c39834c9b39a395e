//! Resources: how they are addressed, and what their declarations ask for.

use detc::cfs::{Found, Shelf, UAPICFS};
use detc::document::read_json;
use detc::provider::{Installed, Providers, Schema};
use detc::resource::{
    declare, take_apart, Resources, ORDER_KEY, REQUIRES_KEY, RESOURCES_NAME,
};
use detc::value::{get, Datum};

fn json(body: &str) -> Datum {
    read_json(body).expect("the document is JSON")
}

/// The declarations of a system, by the path of each below the tree.
fn declared(ids: &[&str]) -> Result<Resources, String> {
    let entries = ids
        .iter()
        .map(|id| {
            (
                id.to_string(),
                format!("/usr/share/detc/resources.d/{id}"),
            )
        })
        .collect();

    Resources::from_system(&entries)
}

fn providers(kinds: &[&str]) -> Providers {
    let files = kinds
        .iter()
        .map(|kind| Installed {
            key: kind.to_string(),
            path: format!("/usr/libexec/detc/providers.d/{kind}"),
            executable: true,
        })
        .collect();

    Providers::from_system("/", &files)
}

fn read(body: &str) -> Result<String, String> {
    Ok(body.to_string())
}

#[test]
fn test_the_path_is_the_type_and_the_name() {
    let resources = declared(&["systemd_service/nginx", "file/etc/motd"]).unwrap();
    let ids: Vec<_> = resources.resources().iter().map(|r| r.id()).collect();
    assert_eq!(ids, ["file/etc/motd", "systemd_service/nginx"]);

    // The name can have several components, as some types are named after a path
    let motd = resources.find("file/etc/motd").unwrap();
    assert_eq!(motd.kind(), "file");
    assert_eq!(motd.name(), "etc/motd");
}

#[test]
fn test_the_extension_is_not_part_of_the_name() {
    let resources = declared(&["unit/nginx.yaml"]).unwrap();
    assert_eq!(resources.resources()[0].id(), "unit/nginx");

    // And it can be written or left out when the resource is addressed
    assert_eq!(resources.find("unit/nginx").unwrap().name(), "nginx");
    assert_eq!(resources.find("unit/nginx.yaml").unwrap().name(), "nginx");

    // An extension that is not a document format is part of the name, as there is no
    // reason to think that it is not
    let resources = declared(&["file/sshd_config.d"]).unwrap();
    assert!(resources.find("file/sshd_config.d").is_ok());
}

/// The resources of a system, by the prefix, the path below the tree and the body of each
/// declaration.
fn resolved(files: &[(&str, &str, &str)]) -> Resources {
    let uapi = UAPICFS::with_root(RESOURCES_NAME, "/").recursive(true);
    let shelves: Vec<Shelf> = uapi
        .search_prefixes()
        .iter()
        .map(|prefix| Shelf {
            main: None,
            dropins: files
                .iter()
                .filter(|file| file.0 == *prefix)
                .map(|(prefix, id, body)| Found {
                    key: id.to_string(),
                    path: format!("/{prefix}/detc/resources.d/{id}"),
                    empty: body.is_empty(),
                })
                .collect(),
        })
        .collect();

    Resources::from_system(&uapi.entries(&shelves)).expect("the declarations are resolved")
}

#[test]
fn test_a_resource_is_overridden_and_masked() {
    let mut files = vec![
        ("usr/share", "unit/nginx", "enabled: false\n"),
        ("usr/share", "unit/sshd", "enabled: false\n"),
        // The path is the identity, so the administrator replaces the declaration of the
        // distribution instead of adding a second one
        ("etc", "unit/nginx", "enabled: true\n"),
    ];
    let resources = resolved(&files);
    assert_eq!(resources.resources().len(), 2);

    let nginx = resources.find("unit/nginx").unwrap();
    assert_eq!(nginx.source(), "/etc/detc/resources.d/unit/nginx");
    assert_eq!(
        nginx.content(read("enabled: true\n")),
        Ok("enabled: true\n".to_string())
    );
    let error = nginx.content(Err("denied".to_string())).unwrap_err();
    assert!(error.contains("/etc/detc/resources.d/unit/nginx"), "{error}");

    // And an empty file removes the resource entirely
    files.push(("etc", "unit/sshd", ""));
    let resources = resolved(&files);
    assert_eq!(resources.resources().len(), 1);
    assert!(resources.find("unit/sshd").is_err());
}

#[test]
fn a_resource_is_found_by_the_address_that_it_has() {
    // One ending is taken off the name, and what is left is the name
    let resources = declared(&["unit/x.yaml.json", "unit/y"]).unwrap();
    for resource in resources.resources() {
        assert_eq!(resources.find(&resource.id()).unwrap().id(), resource.id());
    }
    assert_eq!(resources.find("unit/x.yaml").unwrap().name(), "x.yaml");
    assert!(resources.find("unit/x").is_err());
}

#[test]
fn test_a_declaration_without_a_type_is_rejected() {
    let error = declared(&["nginx"])
        .err()
        .expect("a declaration in the root of the tree has no type");
    assert!(error.contains("the type of the resource"), "{error}");
}

#[test]
fn test_two_declarations_of_the_same_resource_are_rejected() {
    // These are two different paths, so neither overrides the other, but they address the
    // same resource once the extension is dropped
    let error = declared(&["unit/nginx", "unit/nginx.yaml"])
        .err()
        .expect("the same resource cannot be declared twice");
    assert!(error.contains("unit/nginx is declared twice"), "{error}");
}

#[test]
fn test_a_declaration_is_expanded_through_the_namespace() {
    let resources = declared(&["unit/nginx"]).unwrap();
    let nginx = resources.find("unit/nginx").unwrap();
    let schema = Schema::parse("properties:\n  enabled: {type: boolean}\n").unwrap();
    let body = "enabled: {{ web.enabled }}\n";

    let desired = nginx
        .desired(&schema, read(body), &json(r#"{"web": {"enabled": true}}"#))
        .unwrap();
    assert!(get(&desired, "enabled").unwrap().same(&json("true")));

    // A variable that is not in the namespace is an error, as applying a resource with a
    // value that was silently dropped is worse than not applying it
    let error = nginx
        .desired(&schema, read(body), &json("{}"))
        .err()
        .expect("an undefined variable is reported");
    assert!(error.contains("`web.enabled`"), "{error}");
    assert!(error.contains("Cannot render unit/nginx"), "{error}");
}

#[test]
fn test_the_declaration_can_move_itself_in_the_order() {
    let resources = declared(&["unit/nginx", "unit/sshd"]).unwrap();
    let schema =
        Schema::parse("order: 90\nproperties:\n  enabled: {type: boolean}\n").unwrap();
    let context = json("{}");
    let nginx = "enabled: true\n";
    let sshd = "_order: 5\nenabled: true\n";

    // Without a directive the resource runs when its type runs
    assert_eq!(
        resources.find("unit/nginx").unwrap().order(&schema, read(nginx), &context),
        Ok(90)
    );
    assert_eq!(
        resources.find("unit/sshd").unwrap().order(&schema, read(sshd), &context),
        Ok(5)
    );

    // And the directive is removed before the state reaches the provider, which does not
    // know about it
    let desired = resources
        .find("unit/sshd")
        .unwrap()
        .desired(&schema, read(sshd), &context)
        .unwrap();
    assert!(get(&desired, ORDER_KEY).is_none());
}

#[test]
fn test_a_declaration_is_checked_against_the_schema() {
    let resources =
        declared(&["unit/good", "unit/unknown", "unit/incomplete", "nothing/here"]).unwrap();
    let providers = providers(&["unit"]);
    let schema = "properties:\n  enabled: {type: boolean, required: true}\n";
    let context = json("{}");
    let check = |id: &str, body: &str| {
        resources
            .find(id)
            .unwrap()
            .check(&providers, read(schema), read(body), &context)
    };

    check("unit/good", "enabled: yes\n").unwrap();

    for (id, body, expected) in [
        ("unit/unknown", "enabled: true\nnope: 1\n", "Unknown property nope"),
        ("unit/incomplete", "{}\n", "Property enabled is required"),
        ("nothing/here", "a: 1\n", "There is no provider for nothing"),
    ] {
        let error = check(id, body).expect_err("the declaration is rejected");
        assert!(error.contains(expected), "{id}: {error}");
    }
}

#[test]
fn the_directives_of_a_declaration_are_taken_out_of_its_state() {
    let declaration = take_apart(
        "unit/nginx",
        json(r#"{"_order": 7, "_requires": ["pkg/nginx"], "enabled": true}"#),
    )
    .unwrap();

    assert_eq!(declaration.order, Some(7));
    assert_eq!(declaration.requires, ["pkg/nginx"]);
    assert!(get(&declaration.state, ORDER_KEY).is_none());
    assert!(get(&declaration.state, REQUIRES_KEY).is_none());
    assert!(get(&declaration.state, "enabled").unwrap().same(&json("true")));

    assert!(take_apart("unit/nginx", json(r#"{"_order": "high"}"#)).is_err());
    assert!(take_apart("unit/nginx", json(r#"{"_requires": "pkg/nginx"}"#)).is_err());
    assert!(take_apart("unit/nginx", json("[]")).is_err());
    assert!(declare("unit/nginx", "x", Err("not understood".to_string())).is_err());
}
