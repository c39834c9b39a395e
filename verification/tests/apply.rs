//! What a run plans, does, and records of the objects of a system.

use std::collections::BTreeMap;

use detc::apply::{
    difference, digest, file_mode, files_key, fingerprint_of, template_id, unmet, unplanned,
    Action, Attempt, Change, Drawn, Observed, Phase, Plan, Requirement, Snapshot, Work,
    DEFAULT_MODE,
};
use detc::document::read_json;
use detc::provider::{Installed, Provider, Providers, Schema};
use detc::resource::Resources;
use detc::template::Template;
use detc::value::{get, Datum};
use detc::var::Variables;

const ROOT: &str = "/sysroot";

fn json(body: &str) -> Datum {
    read_json(body).expect("the document is JSON")
}

/// How a provider of the tests answers.
enum Kind {
    /// Remembers the state it was asked for, and reports its values as text.
    Echo(&'static str),
    /// Says that it did what it was asked to, and never does.
    Lying(&'static str),
}

/// A system: its configuration files, its objects, and what its providers hold.
#[derive(Default)]
struct Machine {
    variables: String,
    files: BTreeMap<String, String>,
    templates: Vec<(String, String)>,
    resources: Vec<(String, String)>,
    providers: BTreeMap<String, Kind>,
    states: BTreeMap<String, String>,
    acted: Vec<String>,
}

impl Machine {
    fn template(&mut self, target: &str, content: &str) {
        self.templates.push((target.to_string(), content.to_string()));
    }

    fn declare(&mut self, id: &str, body: &str) {
        self.resources.retain(|(known, _)| known != id);
        self.resources.push((id.to_string(), body.to_string()));
    }

    fn schema(&self, kind: &str) -> Result<String, String> {
        match self.providers.get(kind) {
            Some(Kind::Echo(schema)) | Some(Kind::Lying(schema)) => Ok(schema.to_string()),
            None => Err("there is no such program".to_string()),
        }
    }

    fn inspect(&self, kind: &str, name: &str) -> Result<String, String> {
        match self.providers.get(kind) {
            Some(Kind::Lying(_)) => Ok(r#"{"enabled": false}"#.to_string()),
            _ => Ok(self
                .states
                .get(&format!("{kind}/{name}"))
                .cloned()
                .unwrap_or_default()),
        }
    }

    /// What the provider makes of a request to apply: every value is kept as text.
    fn act(&mut self, kind: &str, request: &str) -> Result<String, String> {
        if let Some(Kind::Lying(_)) = self.providers.get(kind) {
            return Ok(String::new());
        }

        let Datum::Object(request) = json(request) else {
            panic!("a request is an object");
        };
        let Some(Datum::String(name)) = get(&request, "name") else {
            panic!("a request names the resource");
        };
        let Some(Datum::Object(desired)) = get(&request, "desired") else {
            panic!("a request holds a state");
        };
        let kept: Vec<String> = desired
            .iter()
            .map(|(key, value)| {
                let value = match value {
                    Datum::Bool(b) => b.to_string(),
                    Datum::String(t) => t.clone(),
                    _ => panic!("the tests use texts and booleans"),
                };
                format!("\"{key}\": \"{value}\"")
            })
            .collect();

        self.states
            .insert(format!("{kind}/{name}"), format!("{{{}}}", kept.join(", ")));
        self.acted.push(name.clone());
        Ok(String::new())
    }

    fn var(&self) -> Variables {
        match self.variables.as_str() {
            "" => Variables::new(),
            body => Variables::from_str(body).unwrap(),
        }
    }

    fn all_providers(&self) -> Providers {
        let files = self
            .providers
            .keys()
            .map(|kind| Installed {
                key: kind.clone(),
                path: format!("/usr/libexec/detc/providers.d/{kind}"),
                executable: true,
            })
            .collect();

        Providers::from_system(ROOT, &files)
    }

    fn drawn(&self) -> Vec<Drawn> {
        self.templates
            .iter()
            .map(|(target, content)| {
                let path = format!("{ROOT}{target}");
                Drawn {
                    template: Template::new(
                        &format!("/usr/share/detc/templates.d{target}"),
                        &path,
                    ),
                    read: Ok(content.clone()),
                    found: match self.files.get(&path) {
                        Some(content) => Ok(content.clone()),
                        None => Err(false),
                    },
                }
            })
            .collect()
    }

    fn observed(&self) -> Vec<Observed> {
        let entries = self
            .resources
            .iter()
            .map(|(id, _)| (id.clone(), format!("/usr/share/detc/resources.d/{id}")))
            .collect();
        let resources = Resources::from_system(&entries).unwrap();

        resources
            .resources()
            .iter()
            .map(|resource| {
                let (_, body) = self
                    .resources
                    .iter()
                    .find(|(id, _)| *id == resource.id())
                    .unwrap();
                Observed {
                    resource: detc::resource::Resource::new(
                        resource.kind(),
                        resource.name(),
                        resource.source(),
                    ),
                    schema: self.schema(resource.kind()),
                    read: Ok(body.clone()),
                    inspected: self.inspect(resource.kind(), resource.name()),
                }
            })
            .collect()
    }

    /// A plan for everything that the system declares.
    fn plan(&self) -> Plan {
        Plan::build(
            ROOT,
            &self.var(),
            &self.all_providers(),
            Some(&self.drawn()),
            Some(&self.observed()),
        )
        .expect("the namespace can hold the files of the run")
    }

    /// Do what one object takes, and take down what came of it.
    fn apply_one(&mut self, plan: &mut Plan, index: usize) -> Result<(), String> {
        let name = plan.changes()[index].name().to_string();
        let attempt = match plan.changes()[index].work() {
            Work::Nothing | Work::Impossible => Attempt::Nothing,
            Work::Write { path, content } => {
                self.files.insert(path.to_string(), content.to_string());
                Attempt::Written(Ok(()))
            }
            Work::Ask { provider, apply, .. } => {
                let kind = provider.kind().to_string();
                Attempt::Asked {
                    applied: self.act(&kind, &apply),
                    schema: self.schema(&kind),
                    inspected: self.inspect(&kind, &name),
                }
            }
        };

        plan.apply(index, attempt)
    }

    /// Apply a plan, failing on the first object that cannot be applied.
    fn apply(&mut self, plan: &mut Plan) {
        for index in 0..plan.changes().len() {
            self.apply_one(plan, index).expect("the object is applied");
        }
    }
}

const UNIT: &str = "order: 90\nproperties:\n  enabled: {type: boolean, required: true}\n";

/// What the declaration of a resource expanded to, under one of its keys.
fn desired(change: &Change, key: &str) -> String {
    let applied = change.applied().expect("the change is of a resource");
    match get(applied.desired, key) {
        Some(Datum::String(t)) => t.clone(),
        _ => panic!("{key} is not a text"),
    }
}

#[test]
fn test_a_template_is_written_once() {
    let mut machine = Machine::default();
    machine.template("/etc/hostname", "{{ name }}\n");
    machine.variables = "name: host\n".to_string();

    let mut plan = machine.plan();
    assert!(!plan.is_in_sync());
    assert_eq!(plan.changes()[0].action(), Action::Create);

    machine.apply(&mut plan);
    assert_eq!(machine.files["/sysroot/etc/hostname"], "host\n");

    // A file that would be written with the same bytes is not written again
    let mut plan = machine.plan();
    assert!(plan.is_in_sync());
    assert!(matches!(plan.changes()[0].work(), Work::Nothing));
    machine.apply(&mut plan);

    // And a file that somebody changed by hand is put back
    machine
        .files
        .insert("/sysroot/etc/hostname".to_string(), "edited\n".to_string());
    let mut plan = machine.plan();
    assert_eq!(plan.changes()[0].action(), Action::Update);
    machine.apply(&mut plan);
    assert_eq!(machine.files["/sysroot/etc/hostname"], "host\n");
}

#[test]
fn test_the_mode_of_the_file_in_the_system_is_kept() {
    assert_eq!(file_mode(None, Some(0o100600)), 0o600);

    // A file that is not there yet gets the usual permissions
    assert_eq!(file_mode(None, None), DEFAULT_MODE);
}

/// A file of a bundle is written with the mode the bundle declares, and not with the one
/// of what was there before it.
#[test]
fn test_a_bundle_says_what_the_mode_of_its_files_is() {
    assert_eq!(file_mode(Some(0o755), None), 0o755);
    assert_eq!(file_mode(Some(0o644), Some(0o755)), 0o644);
}

#[test]
fn test_a_resource_converges_and_stays_in_sync() {
    let mut machine = Machine::default();
    machine.providers.insert("unit".to_string(), Kind::Echo(UNIT));
    machine.declare("unit/nginx", "enabled: true\n");

    let mut plan = machine.plan();
    assert_eq!(plan.changes()[0].action(), Action::Create);
    machine.apply(&mut plan);
    assert_eq!(machine.states["unit/nginx"], r#"{"enabled": "true"}"#);

    // The provider reports the state as the string "true" while the resource declares the
    // boolean true, and the schema is what makes the two match.  Without it the resource
    // would be applied on every run.
    let mut plan = machine.plan();
    assert!(plan.is_in_sync());

    // Applying an object that is in sync does not run the provider
    machine.apply(&mut plan);
    assert_eq!(machine.acted, ["nginx"]);

    // And a change in the declaration is picked up, with the difference named in the
    // summary
    machine.declare("unit/nginx", "enabled: false\n");
    let mut plan = machine.plan();
    assert_eq!(plan.changes()[0].action(), Action::Update);
    assert_eq!(plan.changes()[0].summary(), "enabled: true -> false");

    machine.apply(&mut plan);
    assert_eq!(machine.states["unit/nginx"], r#"{"enabled": "false"}"#);
}

#[test]
fn test_a_provider_that_does_nothing_is_caught() {
    let mut machine = Machine::default();

    // This one exits successfully without ever changing anything, which would otherwise
    // look like a resource that is applied on every run and never reported
    machine.providers.insert(
        "lying".to_string(),
        Kind::Lying("properties:\n  enabled: {type: boolean}\n"),
    );
    machine.declare("lying/thing", "enabled: true\n");

    let mut plan = machine.plan();
    assert_eq!(plan.changes()[0].action(), Action::Update);

    let error = machine
        .apply_one(&mut plan, 0)
        .expect_err("a provider that changes nothing is reported");
    assert!(error.contains("still differs after applying it"), "{error}");
    assert!(error.contains("enabled"), "{error}");

    // The state that the run actually reached is kept, even though it is not the one that
    // was asked for, because a history that only recorded the successes would say the
    // system is fine when it is not
    let change = &plan.changes()[0];
    assert_eq!(change.error(), Some(error.as_str()));

    let read = Ok("enabled: true\n".to_string());
    let Ok(Some(Snapshot::Resource { state, desired, .. })) =
        change.snapshot(Phase::Applied, read)
    else {
        panic!("a resource has a state to record");
    };
    assert!(state.unwrap().same(&json(r#"{"enabled": false}"#)));
    assert!(get(&desired, "enabled").unwrap().same(&json("true")));
}

#[test]
fn test_a_file_that_could_not_be_written_is_recorded_as_it_still_is() {
    let mut machine = Machine::default();
    machine.template("/etc/hostname", "new\n");
    machine
        .files
        .insert("/sysroot/etc/hostname".to_string(), "old\n".to_string());

    let mut plan = machine.plan();
    let read = || Ok("new\n".to_string());

    // What was found is what the file holds, not what it is meant to hold
    let Ok(Some(Snapshot::Template { content, template, .. })) =
        plan.changes()[0].snapshot(Phase::Found, read())
    else {
        panic!("a template has a file to record");
    };
    assert_eq!(content.as_deref(), Some("old\n"));

    // And the template itself is recorded next to it, so that the history can say whether
    // the file or what generates it changed
    assert_eq!(template, "new\n");

    plan.apply(0, Attempt::Written(Err("Cannot write /etc/hostname: denied".to_string())))
        .expect_err("a file that cannot be written is reported");

    // The rendering never reached the system, so the history has to keep saying what the
    // file holds rather than what it was meant to hold
    let Ok(Some(Snapshot::Template { content, .. })) =
        plan.changes()[0].snapshot(Phase::Applied, read())
    else {
        panic!("a template has a file to record");
    };
    assert_eq!(content.as_deref(), Some("old\n"));
}

#[test]
fn a_template_that_was_skipped_is_recorded_as_it_was_found() {
    let mut machine = Machine::default();
    machine.template("/etc/hostname", "new\n");
    machine
        .files
        .insert("/sysroot/etc/hostname".to_string(), "old\n".to_string());

    let mut plan = machine.plan();
    plan.skip(0, "pkg/nginx");

    let Ok(Some(Snapshot::Template { content, .. })) =
        plan.changes()[0].snapshot(Phase::Applied, Ok("new\n".to_string()))
    else {
        panic!("a template has a file to record");
    };
    assert_eq!(content.as_deref(), Some("old\n"));
}

#[test]
fn test_an_object_that_cannot_be_worked_out_is_still_in_the_plan() {
    let mut machine = Machine::default();

    // Neither of these can be worked out: the template has no variable to render with,
    // and the resource has no provider to ask
    machine.template("/etc/hostname", "{{ name }}\n");
    machine.declare("nowhere/thing", "enabled: true\n");

    let mut plan = machine.plan();
    assert_eq!(plan.changes().len(), 2);
    assert!(!plan.is_in_sync());

    for index in 0..plan.changes().len() {
        let line = plan.changes()[index].line();
        assert_eq!(plan.changes()[index].action(), Action::Broken);
        assert!(!plan.changes()[index].summary().is_empty(), "{line}");
        assert!(machine.apply_one(&mut plan, index).is_err(), "{line}");
    }

    // And nothing was touched on the way
    assert!(machine.files.is_empty());
}

#[test]
fn test_the_plan_is_ordered_by_the_provider_and_the_declaration() {
    let mut machine = Machine::default();
    machine.providers.insert("unit".to_string(), Kind::Echo(UNIT));
    machine.providers.insert(
        "pkg".to_string(),
        Kind::Echo("order: 10\nproperties:\n  installed: {type: boolean}\n"),
    );

    machine.template("/etc/nginx.conf", "listen 80\n");
    machine.declare("unit/nginx", "enabled: true\n");
    machine.declare("pkg/nginx", "installed: true\n");
    // The declaration moves this one ahead of everything else, whatever its type says
    machine.declare("unit/first", "_order: 1\nenabled: true\n");

    let plan = machine.plan();
    let order: Vec<_> = plan
        .changes()
        .iter()
        .map(|c| format!("{}/{}", c.kind(), c.name()))
        .collect();

    assert_eq!(
        order,
        [
            "unit/first",
            "pkg/nginx",
            "template//sysroot/etc/nginx.conf",
            "unit/nginx",
        ]
    );
}

const SVC: &str = "order: 70\nproperties:\n  config: {type: string}\n";
const WEB: &str = "config: \"{{ detc.files['etc/svc.conf'] | default('') }}\"\n";

#[test]
fn test_a_resource_acts_on_a_configuration_file_that_changed() {
    let mut machine = Machine::default();
    machine.providers.insert("svc".to_string(), Kind::Echo(SVC));
    machine.template("/etc/svc.conf", "port {{ port }}\n");
    machine.variables = "port: 80\n".to_string();
    machine.declare("svc/web", WEB);

    // The digest is of what the file will hold, which the run knows before it has written
    // a byte of it
    let mut plan = machine.plan();
    assert_eq!(desired(&plan.changes()[1], "config"), digest(b"port 80\n"));

    machine.apply(&mut plan);
    assert_eq!(machine.acted.len(), 1);

    // The provider recorded the digest, so the second run agrees with it and the service
    // is left alone
    let mut plan = machine.plan();
    assert!(plan.is_in_sync());
    machine.apply(&mut plan);
    assert_eq!(machine.acted.len(), 1);

    // And a run that moves the file moves the digest with it
    machine.variables = "port: 443\n".to_string();
    let mut plan = machine.plan();
    assert_eq!(plan.changes()[0].action(), Action::Update);
    assert_eq!(plan.changes()[1].action(), Action::Update);
    machine.apply(&mut plan);
    assert_eq!(machine.files["/sysroot/etc/svc.conf"], "port 443\n");
    assert_eq!(machine.acted.len(), 2);
}

#[test]
fn test_a_file_that_is_not_there_reads_as_nothing_to_act_on() {
    let mut machine = Machine::default();
    machine.providers.insert("svc".to_string(), Kind::Echo(SVC));
    machine.declare("svc/web", WEB);

    // Nothing is managed, so the subtree is empty -- and it still has to be there, because
    // the namespace refuses a value that is reached through one that is undefined
    let plan = machine.plan();
    assert_eq!(desired(&plan.changes()[0], "config"), "");

    // A template that will not render is left out of the subtree the same way, so the
    // resource is still worked out rather than dragged down with it
    machine.template("/etc/svc.conf", "{{ missing }}\n");

    let plan = machine.plan();
    assert_eq!(plan.changes()[0].action(), Action::Broken);
    assert_eq!(desired(&plan.changes()[1], "config"), "");
}

#[test]
fn a_digest_names_the_algorithm_and_is_the_one_of_the_bytes() {
    assert_eq!(
        digest(b""),
        "sha256:e3b0c44298fc1c149afbf4c8996fb92427ae41e4649b934ca495991b7852b855"
    );
    assert_eq!(
        digest(b"abc"),
        "sha256:ba7816bf8f01cfea414140de5dae2223b00361a396177a9cb410ff61f20015ad"
    );
    assert_eq!(fingerprint_of(&vec![0x00, 0xff]), "sha256:00ff");
}

#[test]
fn a_requirement_is_met_only_by_what_runs_earlier() {
    let none: Vec<String> = Vec::new();
    let asks = vec!["pkg/nginx".to_string()];
    let requirement = |id: &'static str, order: i64, broken: bool| (id, order, broken);
    let build = |objects: &[(&'static str, i64, bool)], complete: bool| {
        let all: Vec<Requirement> = objects
            .iter()
            .map(|(id, order, broken)| Requirement {
                id,
                order: *order,
                requires: if *id == "unit/nginx" { &asks } else { &none },
                broken: *broken,
            })
            .collect();
        unmet(&all, complete)
    };
    let unit = requirement("unit/nginx", 90, false);

    // Met, by something that runs earlier
    assert!(build(&[requirement("pkg/nginx", 10, false), unit], true).is_empty());

    // Not in the system at all, which only a run that looked at everything can say
    assert_eq!(build(&[unit], true).len(), 1);
    assert!(build(&[unit], false).is_empty());

    // There, but not before
    let late = build(&[requirement("pkg/nginx", 90, false), unit], true);
    assert_eq!(late.len(), 1);
    assert_eq!(late[0].0, 1);
}

#[test]
fn what_is_desired_and_reported_alike_does_not_differ() {
    let schema = Schema::parse(UNIT).unwrap();
    let Datum::Object(desired) = json(r#"{"enabled": true}"#) else {
        panic!("an object");
    };

    assert!(difference(&schema, &desired, Some(&json(r#"{"enabled": "yes"}"#))).is_empty());
    assert_eq!(difference(&schema, &desired, Some(&json(r#"{"enabled": false}"#))).len(), 1);
    assert_eq!(difference(&schema, &desired, None).len(), 1);
}

#[test]
fn a_file_is_named_by_where_it_sits_below_the_root() {
    assert_eq!(files_key("/sysroot", "/sysroot/etc/svc.conf"), "etc/svc.conf");
    assert_eq!(template_id("/sysroot", "/sysroot/etc/svc.conf"), "template/etc/svc.conf");
}

#[test]
fn a_namespace_that_plans_nothing_still_has_the_map_of_files() {
    let var = unplanned(&Variables::from_str("port: 80\n").unwrap()).unwrap();
    assert!(var.get_value("detc.files").unwrap().same(&json("{}")));
    assert_eq!(var.get_yaml("port").unwrap().trim(), "80");
}

#[test]
fn a_resource_that_is_still_not_there_is_reported() {
    let resources = Resources::from_system(&vec![(
        "unit/nginx".to_string(),
        "/usr/share/detc/resources.d/unit/nginx".to_string(),
    )])
    .unwrap();
    let nginx = resources.find("unit/nginx").unwrap();
    let provider = Provider::new("unit", "/usr/libexec/detc/providers.d/unit", "/");
    let Datum::Object(desired) = json(r#"{"enabled": true}"#) else {
        panic!("an object");
    };
    let reach = |applied: Result<String, String>, state: Option<Datum>| {
        detc::apply::reach(
            nginx,
            &provider,
            &desired,
            None,
            applied,
            Schema::parse(UNIT),
            Ok(state),
        )
        .1
    };

    assert_eq!(
        reach(Ok(String::new()), None),
        Err("unit/nginx is still not in the system".to_string())
    );
    assert_eq!(reach(Ok(String::new()), Some(json(r#"{"enabled": "on"}"#))), Ok(()));
    assert!(reach(Err("exit status: 1".to_string()), None).is_err());
}
