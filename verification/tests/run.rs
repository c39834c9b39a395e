//! A run of `apply`: what it looks at, what it does in turn, and what it says.

use detc::apply::{Attempt, Drawn, Observed, Phase, Plan, Work};
use detc::bundle::{Bundle, Outcome};
use detc::journal::tally;
use detc::last::{Last, Run as Dump, LAST};
use detc::provider::{Installed, Providers};
use detc::record::{rendered, Record, Type};
use detc::resource::Resource;
use detc::run::{
    applicable, bundle_record, create_record, drift, is_full, looks_at, planned, removal,
    restoration, status, verified, Deed, Next, Run,
};
use detc::template::Template;
use detc::var::{Read, Variables};

const ROOT: &str = "/sysroot";
const UNIT: &str = "properties:\n  enabled: {type: boolean, required: true}\n";

fn template(target: &str, content: &str, found: Option<&str>) -> Drawn {
    Drawn {
        template: Template::new(
            &format!("/usr/share/detc/templates.d{target}"),
            &format!("{ROOT}{target}"),
        ),
        read: Ok(content.to_string()),
        found: found.map(String::from).ok_or(false),
    }
}

fn unit(name: &str, body: &str) -> Observed {
    Observed {
        resource: Resource::new("unit", name, &format!("/resources.d/unit/{name}")),
        schema: Ok(UNIT.to_string()),
        read: Ok(body.to_string()),
        inspected: Ok(r#"{"enabled": false}"#.to_string()),
    }
}

fn plan(drawn: Vec<Drawn>, observed: Vec<Observed>) -> Plan {
    let providers = Providers::from_system(
        ROOT,
        &vec![Installed {
            key: "unit".to_string(),
            path: "/usr/libexec/detc/providers.d/unit".to_string(),
            executable: true,
        }],
    );

    Plan::build(
        ROOT,
        &Variables::new(),
        &providers,
        Some(&drawn),
        Some(&observed),
    )
    .expect("the plan is built")
}

/// Run a plan: the files are written, and a provider does what `obeys` says.
fn perform(plan: Plan, obeys: fn(&str) -> bool) -> (Run, Vec<Record>) {
    let mut run = Run::start(plan);
    let mut records = Vec::new();

    loop {
        let attempt = match run.next() {
            Next::Done => break,
            Next::Skip => Attempt::Nothing,
            Next::Apply(change) => match change.work() {
                Work::Nothing | Work::Impossible => Attempt::Nothing,
                Work::Write { .. } => Attempt::Written(Ok(())),
                Work::Ask { .. } => Attempt::Asked {
                    applied: Ok(String::new()),
                    schema: Ok(UNIT.to_string()),
                    inspected: Ok(format!("{{\"enabled\": {}}}", obeys(change.name()))),
                },
            },
        };
        records.push(run.turn(attempt));
    }

    (run, records)
}

fn two_units() -> Plan {
    plan(
        vec![template("/etc/motd", "hello\n", Some("hello\n"))],
        vec![
            unit("first", "enabled: true\n"),
            unit(
                "second",
                "_requires: [unit/first]\n_order: 60\nenabled: true\n",
            ),
            unit("third", "enabled: true\n"),
        ],
    )
}

#[test]
fn only_what_has_a_state_is_applied() {
    assert_eq!(applicable(None, false), Ok(None));
    assert_eq!(applicable(None, true), Ok(Some(Type::Template)));
    assert_eq!(applicable(Some(Type::Resource), true), Ok(Some(Type::Resource)));
    assert!(applicable(Some(Type::Probe), false).is_err());
    assert!(applicable(Some(Type::Variable), false).is_err());

    assert_eq!(looks_at(None), (true, true));
    assert_eq!(looks_at(Some(Type::Template)), (true, false));
    assert_eq!(looks_at(Some(Type::Resource)), (false, true));

    assert!(is_full(None, false));
    assert!(!is_full(Some(Type::Template), false));
    assert!(!is_full(None, true));
}

#[test]
fn what_waits_on_a_failure_is_left_alone() {
    let (run, records) = perform(two_units(), |name| name != "first");

    let said = rendered(&records);
    assert!(said.contains("skipped\tunit\tsecond"), "{said}");
    assert!(said.contains("requires unit/first, which was not applied"), "{said}");

    // The one that failed is the one that is counted
    assert_eq!(
        run.end(),
        Err("1 object(s) could not be applied".to_string())
    );

    // What was the way it is declared has nothing to say for itself
    assert_eq!(run.lines().len(), 3);
    assert_eq!(records.len(), 4);
}

#[test]
fn what_was_left_alone_is_neither_failed_nor_changed() {
    let (run, _) = perform(two_units(), |name| name != "first");

    assert_eq!(tally(Phase::Found, run.plan()), "3 update");
    assert_eq!(tally(Phase::Applied, run.plan()), "1 failed, 1 skipped, 1 updated");
}

#[test]
fn what_waits_on_a_broken_object_is_left_alone_wherever_it_stands() {
    // What could not be worked out has no order of its own, so what requires it may come
    // first
    let planned = plan(
        Vec::new(),
        vec![
            unit("broken", "enabled: {{ nothing }}\n"),
            unit(
                "early",
                "_requires: [unit/broken]\n_order: 20\nenabled: true\n",
            ),
        ],
    );
    let (run, records) = perform(planned, |_| true);

    let said = rendered(&records);
    assert!(said.starts_with("skipped\tunit\tearly"), "{said}");
    assert!(said.contains("error\tunit\tbroken"), "{said}");
    assert_eq!(
        run.end(),
        Err("1 object(s) could not be applied".to_string())
    );
}

#[test]
fn a_run_where_everything_works_ends_well() {
    let (run, records) = perform(two_units(), |_| true);

    assert_eq!(run.end(), Ok(()));
    assert_eq!(records.len(), 4);
    assert!(run.plan().changes().iter().all(|change| change.error().is_none()));
}

#[test]
fn what_would_change_is_told_before_it_is_done() {
    let plan = plan(
        vec![
            template("/etc/motd", "hello\n", Some("hello\n")),
            template("/etc/issue", "new\n", None),
        ],
        vec![],
    );

    // Everything that was looked at is listed, and only what moves is written down
    assert_eq!(drift(&plan).len(), 2);
    assert_eq!(planned(&plan).len(), 1);
    assert!(planned(&plan)[0].starts_with("create"), "{:?}", planned(&plan));
}

#[test]
fn the_last_run_holds_what_moved() {
    let before = two_units();
    let reads: Vec<Read> = before
        .changes()
        .iter()
        .map(|_| Ok("source\n".to_string()))
        .collect();

    let last = Last::found(&before, &reads);
    let (run, _) = perform(before, |name| name != "first");
    let dump: Dump = last
        .finish("apply", true, run.plan(), &reads)
        .expect("the plan is the one that was started");

    assert_eq!(dump.command, "apply");
    assert!(dump.complete);
    assert_eq!(dump.failed, 1);

    let named = |name: &str| {
        dump.objects
            .iter()
            .find(|object| object.name.ends_with(name))
            .expect("the object is listed")
    };

    // In sync, and listed with its action and nothing else
    let motd = named("motd");
    assert_eq!(motd.before, None);
    assert_eq!(motd.after, None);
    assert_eq!(motd.error, None);

    let first = named("first");
    assert_eq!(first.planned, "update");
    assert_eq!(first.taken, "error");
    assert!(first.error.is_some());
    assert!(first.desired.is_some() && first.found.is_some());

    let second = named("second");
    assert_eq!(second.taken, "skipped");
    assert_eq!(
        second.error.as_deref(),
        Some("requires unit/first, which was not applied")
    );

    let third = named("third");
    assert_eq!(third.taken, "updated");
    assert_eq!(third.error, None);

    assert_eq!(detc::last::path(ROOT), format!("{ROOT}/{LAST}"));

    // Another plan is not the one that the run started with
    let last = Last::found(&two_units(), &reads);
    assert_eq!(
        last.finish("apply", true, &plan(vec![], vec![]), &Vec::new())
            .err()
            .as_deref(),
        Some("The plan is not the one the run started with")
    );
}

fn bundle(name: &str, version: &str) -> Bundle {
    Bundle {
        name: name.to_string(),
        version: version.to_string(),
        signer: "fleet@example".to_string(),
        origin: "local".to_string(),
        persist: true,
    }
}

fn outcome(name: &str) -> Outcome {
    Outcome {
        bundle: bundle(name, "2"),
        written: 3,
        removed: 1,
    }
}

#[test]
fn what_was_done_to_a_bundle_is_told() {
    let change = |action: &str, summary: &str| Record::Change {
        action: action.to_string(),
        object: "bundle fleet 2".to_string(),
        summary: Some(summary.to_string()),
        error: None,
    };

    assert_eq!(
        bundle_record(Deed::Install.name(false), &outcome("fleet")),
        change("installed", "3 written, 1 removed")
    );
    assert_eq!(
        create_record(&bundle("fleet", "2"), "fleet.detc", true),
        change("create", "fleet.detc")
    );
    assert_eq!(
        removal(&Some(outcome("fleet")), false),
        Ok(change("removed", "3 written, 1 removed"))
    );
    assert_eq!(
        removal(&None, false),
        Err("There is no bundle installed in this system".to_string())
    );
}

#[test]
fn a_bundle_that_cannot_be_trusted_is_the_answer_and_the_failure() {
    let told = verified("fleet.detc", Ok(bundle("fleet", "2")));
    assert_eq!(told.end, Ok(()));
    assert_eq!(
        told.records,
        [Record::Check {
            name: "bundle fleet 2 signed by fleet@example".to_string(),
            error: None
        }]
    );

    let told = verified("fleet.detc", Err("no key".to_string()));
    assert_eq!(told.end, Err("The bundle cannot be trusted".to_string()));
    assert_eq!(
        told.records,
        [Record::Check {
            name: "fleet.detc".to_string(),
            error: Some("no key".to_string())
        }]
    );
}

#[test]
fn the_status_is_what_is_installed_and_what_will_be() {
    let records = status(
        &vec![bundle("fleet", "2")],
        &vec![bundle("fleet", "1"), bundle("web", "3")],
    );
    let named = |name: &str, version: &str| Record::Bundle {
        name: name.to_string(),
        version: version.to_string(),
        signer: "fleet@example".to_string(),
        origin: "local".to_string(),
        persist: true,
    };

    assert_eq!(records, [named("fleet", "2"), named("web", "3")]);
}

#[test]
fn a_bundle_that_cannot_be_put_back_does_not_stop_the_others() {
    let told = restoration(
        &vec![
            ("base".to_string(), Err("first".to_string())),
            ("fleet".to_string(), Ok(outcome("fleet"))),
            ("web".to_string(), Err("second".to_string())),
        ],
        false,
    );

    // Each is answered for by name, and with its own reason
    assert_eq!(
        told.end,
        Err("2 bundle(s) could not be put back".to_string())
    );
    assert_eq!(told.records.len(), 3);
    assert_eq!(
        rendered(&told.records),
        "error\tbundle base\tfirst\n\
         restored\tbundle fleet 2\t3 written, 1 removed\n\
         error\tbundle web\tsecond\n"
    );

    let told = restoration(&vec![("fleet".to_string(), Ok(outcome("fleet")))], true);
    assert_eq!(told.end, Ok(()));
    assert_eq!(
        rendered(&told.records),
        "restore\tbundle fleet 2\t3 written, 1 removed\n"
    );
}
