//! The objects of a system: how they are listed, addressed, shown and checked.

use detc::objects::{
    cat, check, check_document, check_probe, check_probes, check_provider, check_providers,
    check_resource, check_resources, check_template, check_templates, check_variables, checked, describe, get_probe, get_provider, guess_object, list, meant_kind, preview, program,
    requirement_errors, resolve_object, resolve_probe, resolve_provider, resolve_typed_object,
    select, source, Learned, Object, System, Verdict, Verdicts,
};
use detc::provider::{Installed, Providers};
use detc::record::{rendered, Type};
use detc::resource::Resources;
use detc::template::Templates;
use detc::var::{Documents, Variables};

const ROOT: &str = "/sysroot";
const UNIT: &str = "properties:\n  enabled: {type: boolean, required: true}\n";

fn pair(a: &str, b: &str) -> (String, String) {
    (a.to_string(), b.to_string())
}

fn system() -> System {
    System {
        root: ROOT.to_string(),
        probes: Ok(vec![
            pair("net", "/sysroot/usr/lib/detc/probes/system.d/net/10-a"),
            pair("net", "/sysroot/usr/lib/detc/probes/system.d/net/20-b"),
            pair("os", "/sysroot/usr/lib/detc/probes/system.d/os/10-release"),
        ]),
        templates: Ok(Templates::from_system(
            ROOT,
            &vec![pair("etc/motd", "/sysroot/etc/detc/templates.d/etc/motd")],
        )),
        resources: Resources::from_system(&vec![pair(
            "unit/nginx",
            "/sysroot/etc/detc/resources.d/unit/nginx",
        )]),
        providers: Ok(Providers::from_system(
            ROOT,
            &vec![Installed {
                key: "unit".to_string(),
                path: "/sysroot/usr/lib/detc/providers.d/unit".to_string(),
                executable: true,
            }],
        )),
        documents: Documents::from_system(
            &vec![pair("10-net.yaml", "/sysroot/etc/detc/variables/system.d/10-net.yaml")],
            &Vec::new(),
        ),
    }
}

#[test]
fn every_object_is_listed_with_what_addresses_it() {
    let told = list(&system(), true, None);
    assert_eq!(told.end, Ok(()));
    assert_eq!(
        rendered(&told.records),
        Type::all().iter().map(|kind| format!("{}\n", kind.name())).collect::<String>()
    );

    let told = list(&system(), false, Some(Type::Resource));
    assert_eq!(
        rendered(&told.records),
        "resource\tunit/nginx\t/sysroot/etc/detc/resources.d/unit/nginx\n"
    );

    let told = list(&system(), false, None);
    assert_eq!(told.records.len(), 7);

    let broken = System {
        resources: Err("two of them".to_string()),
        ..system()
    };
    assert_eq!(list(&broken, false, None).end, Err("two of them".to_string()));
    assert_eq!(list(&broken, false, Some(Type::Template)).end, Ok(()));
}

#[test]
fn a_probe_is_addressed_by_what_it_feeds_or_by_its_program() {
    let system = system();
    let release = "/sysroot/usr/lib/detc/probes/system.d/os/10-release".to_string();

    assert_eq!(get_probe(&system, "os"), Ok(Some(release.clone())));
    assert_eq!(get_probe(&system, "10-release"), Ok(Some(release.clone())));
    assert_eq!(get_probe(&system, "nothing"), Ok(None));
    assert!(get_probe(&system, "net").is_err());

    assert_eq!(resolve_probe(&system, "os", false), Ok(release));
    assert_eq!(resolve_probe(&system, "./mine", true), Ok("./mine".to_string()));
    assert_eq!(
        resolve_probe(&system, "nothing", false),
        Err("There is no probe nothing, use `detc list --type probe`".to_string())
    );

    let unit = "/sysroot/usr/lib/detc/providers.d/unit".to_string();
    assert_eq!(get_provider(&system, "unit"), Ok(Some(unit.clone())));
    assert_eq!(resolve_provider(&system, "unit", false), Ok(unit));
    assert!(resolve_provider(&system, "nothing", false).is_err());
}

#[test]
fn a_name_is_of_the_object_that_it_addresses() {
    let system = system();
    let named = |name: &str| guess_object(&system, name);

    assert!(matches!(named("/etc/motd"), Ok(Object::Template(_))));
    assert!(matches!(named("unit/nginx"), Ok(Object::Resource(_))));
    assert!(matches!(named("os"), Ok(Object::Probe(_))));
    assert!(matches!(named("unit"), Ok(Object::Provider(_))));
    assert!(matches!(named("system/10-net.yaml"), Ok(Object::Variable(_))));
    assert!(named("nothing").is_err());

    assert!(matches!(
        resolve_typed_object(&system, "unit/nginx", Type::Resource, false),
        Ok(Object::Resource(_))
    ));
    assert!(resolve_typed_object(&system, "unit/nginx", Type::Template, false).is_err());
    assert!(matches!(
        resolve_object(&system, "./mine", Some(Type::Probe), true),
        Ok(Object::Probe(_))
    ));

    let object = named("unit/nginx").unwrap();
    assert_eq!(source(&object), "/sysroot/etc/detc/resources.d/unit/nginx");

    assert_eq!(select(&system, Type::Probe, None, false).map(|all| all.len()).ok(), Some(3));
    assert_eq!(
        select(&system, Type::Probe, Some("os"), false).map(|all| all.len()).ok(),
        Some(1)
    );
}

#[test]
fn an_object_is_described_by_the_head_of_its_file() {
    let system = system();
    let body = b"#!/bin/sh\n# Starts and stops units.\n\nexit 0\n".to_vec();

    let unit = guess_object(&system, "unit").unwrap();
    let told = describe(&unit, Ok(body.clone()), &Ok(UNIT.to_string())).unwrap();
    assert!(told.starts_with("Starts and stops units.\n"), "{told}");
    assert!(told.ends_with("\n## Schema\n\n    properties:\n      enabled: {type: boolean, required: true}\n"), "{told}");

    let told = describe(&unit, Ok(body), &Err("no".to_string())).unwrap();
    assert!(told.ends_with("The provider does not say: no\n"), "{told}");
    assert!(describe(&unit, Err("denied".to_string()), &Ok(String::new())).is_err());
}

#[test]
fn what_an_object_holds_is_shown() {
    let system = system();
    let var = preview(Variables::from_str("name: world\n"));
    let read = || Ok("Hello {{ name }}\n".to_string());
    let motd = guess_object(&system, "/etc/motd").unwrap();

    assert_eq!(
        cat(&motd, false, read(), Ok(Vec::new()), &var),
        Ok("Hello world\n".to_string())
    );
    assert_eq!(
        cat(&motd, true, read(), Ok(Vec::new()), &var),
        Ok("Hello {{ name }}\n".to_string())
    );
    assert_eq!(
        cat(&motd, false, read(), Ok(Vec::new()), &Err("broken".to_string())),
        Err("broken".to_string())
    );

    // The files of a run are not known to a preview, and there is a map of them all the same
    let files = Ok("{{ detc.files }}\n".to_string());
    assert!(cat(&motd, false, files, Ok(Vec::new()), &var).is_ok());

    assert_eq!(program("p", "probe", Ok(b"#!/bin/sh\n".to_vec())), Ok("#!/bin/sh\n".to_string()));
    assert_eq!(
        program("p", "probe", Ok(vec![0xff, 0xfe])),
        Err("The probe p is a compiled program and not a script, so there is nothing to show".to_string())
    );
    assert_eq!(
        program("p", "provider", Err("denied".to_string())),
        Err("Cannot read provider p: denied".to_string())
    );
}

fn verdicts(resources: Vec<Verdict>) -> Verdicts {
    Verdicts {
        probes: Ok(Vec::new()),
        templates: Ok(vec![checked("/etc/motd", Ok(()))]),
        resources: Ok(resources),
        providers: Ok(Vec::new()),
        documents: Ok(Vec::new()),
    }
}

#[test]
fn what_cannot_be_instantiated_fails_the_check() {
    let told = check(&verdicts(vec![checked("unit/a", Ok(()))]), None, false);
    assert_eq!(told.end, Ok(()));
    assert_eq!(rendered(&told.records), "ok\t/etc/motd\nok\tunit/a\n");

    let wrong = || vec![checked("unit/a", Err("wrong".to_string()))];
    let told = check(&verdicts(wrong()), None, false);
    assert_eq!(told.end, Err("1 object(s) cannot be instantiated".to_string()));
    assert_eq!(rendered(&told.records), "ok\t/etc/motd\nerror\tunit/a\twrong\n");

    // A single object is a template unless the type says otherwise
    assert_eq!(meant_kind(None, true), Some(Type::Template));
    assert_eq!(check(&verdicts(wrong()), None, true).end, Ok(()));
    assert!(check(&verdicts(wrong()), Some(Type::Resource), true).end.is_err());

    let unread = Verdicts {
        probes: Err("no probes".to_string()),
        ..verdicts(wrong())
    };
    assert_eq!(check(&unread, None, false).end, Err("no probes".to_string()));
}

#[test]
fn each_type_of_object_has_its_own_check() {
    let system = system();
    let context = Variables::from_str("on: true\n").unwrap();
    let providers = system.providers.as_ref().unwrap();
    let resources = system.resources.as_ref().unwrap();
    let templates = system.templates.as_ref().unwrap();

    assert_eq!(check_probe("p", &Ok("a: 1\n".to_string())).error, None);
    assert!(check_probe("p", &Ok("a: [".to_string())).error.is_some());
    assert_eq!(check_probe("p", &Err("failed".to_string())).error.as_deref(), Some("failed"));

    let document = &system.documents.as_ref().unwrap().documents()[0];
    assert_eq!(check_document(document, &Ok("a: 1\n".to_string())).error, None);
    assert!(check_document(document, &Ok("_merge: sideways\n".to_string())).error.is_some());

    let unit = providers.find("unit").unwrap();
    assert_eq!(check_provider(unit, Ok(UNIT.to_string())).error, None);
    assert!(check_provider(unit, Ok("properties: 3\n".to_string())).error.is_some());

    let motd = &templates.templates()[0];
    let ok = check_template(motd, Ok("{{ on }}\n".to_string()), context.value());
    assert_eq!((ok.name.as_str(), ok.error), ("/sysroot/etc/motd", None));
    assert!(check_template(motd, Ok("{{ off }}\n".to_string()), context.value()).error.is_some());

    let nginx = &resources.resources()[0];
    let learned = |body: &str| Learned {
        ran: Ok(UNIT.to_string()),
        read: Ok(body.to_string()),
    };
    let unmet = |body: &str| {
        requirement_errors(
            ROOT,
            templates,
            resources,
            providers,
            &vec![learned(body)],
            context.value(),
        )
    };
    let verdict = |body: &str| {
        check_resource(nginx, providers, &learned(body), context.value(), &unmet(body))
    };

    assert_eq!(verdict("enabled: {{ on }}\n").error, None);
    assert!(verdict("enabled: maybe\n").error.is_some());

    // What is waited for has to be there, whatever the rest of the declaration says
    let waits = "_requires: [unit/missing]\nenabled: true\n";
    assert_eq!(unmet(waits).len(), 1);
    assert!(verdict(waits).error.expect("nothing to wait for").contains("unit/missing"));
    assert_eq!(verdict("_requires: [template:/etc/motd]\n_order: 99\nenabled: true\n").name, "unit/nginx");
}

#[test]
fn several_objects_are_checked_in_their_order() {
    let system = system();
    let context = Variables::new();
    let text = |t: &str| Ok(t.to_string());
    let errors = |all: Vec<Verdict>| all.iter().map(|v| v.error.is_some()).collect::<Vec<_>>();

    assert_eq!(
        errors(check_probes(
            &vec!["a".to_string(), "b".to_string()],
            &vec![text("a: ["), text("a: 1\n")]
        )),
        [true, false]
    );

    let documents = system.documents.as_ref().unwrap();
    let all = documents.documents().iter().collect();
    assert_eq!(errors(check_variables(&all, &vec![text("a: 1\n")])), [false]);

    let providers = system.providers.as_ref().unwrap();
    assert_eq!(
        errors(check_providers(&providers.providers(), &vec![Err("no".to_string())])),
        [true]
    );

    let templates = system.templates.as_ref().unwrap().templates().iter().collect();
    assert_eq!(
        errors(check_templates(&templates, &vec![text("{{ off }}\n")], context.value())),
        [true]
    );

    let resources = system.resources.as_ref().unwrap().resources().iter().collect();
    let learned = vec![Learned {
        ran: text(UNIT),
        read: text("enabled: true\n"),
    }];
    let unmet = vec![("unit/nginx".to_string(), "waits".to_string())];
    let found = check_resources(&resources, providers, &learned, context.value(), &unmet);
    assert_eq!(found[0].error.as_deref(), Some("waits"));
    assert_eq!(
        errors(check_resources(&resources, providers, &learned, context.value(), &Vec::new())),
        [false]
    );
}
