//! The history of a system: what is recorded of a run, and how it is read back.

use detc::apply::{Phase, Plan, Snapshot};
use detc::document::read_json;
use detc::journal::{
    cause, enabled, message, next_run, parse, path, paths, record, report, run, run_of_message,
    runs, signature, tally, trailer, Logged, Record, Run, Seen, Wanted, DEFAULT_USER, ENABLED,
    PHASE, RUN, USER, VARIABLES,
};
use detc::provider::Providers;
use detc::value::{get, Datum};
use detc::var::Variables;

fn json(body: &str) -> Datum {
    read_json(body).expect("the document is JSON")
}

fn entry(path: &str, content: &str) -> (String, String) {
    (path.to_string(), content.to_string())
}

fn template(content: Option<&str>) -> Snapshot {
    Snapshot::Template {
        target: "/etc/motd".to_string(),
        template: "Hello {{ name }}\n".to_string(),
        content: content.map(String::from),
    }
}

fn empty_plan() -> Plan {
    Plan::build(
        "/",
        &Variables::new(),
        &Providers::from_system("/", &Vec::new()),
        Some(&Vec::new()),
        Some(&Vec::new()),
    )
    .unwrap()
}

#[test]
fn test_a_template_is_recorded_as_what_generates_it_and_what_it_holds() {
    let record = Record::of(&template(Some("Hello world\n")), "/");

    // The source and the rendering sit at the same path under two different trees, so that
    // either history is a single `git log` away
    assert_eq!(
        record.entries,
        [
            entry("templates/etc/motd", "Hello {{ name }}\n"),
            entry("files/etc/motd", "Hello world\n"),
        ]
    );
    assert!(record.gone.is_empty());
}

#[test]
fn test_a_configuration_file_that_is_not_there_yet_is_recorded_as_missing() {
    let record = Record::of(&template(None), "/");

    // Saying nothing would leave the last content the journal held, which would claim the
    // file is still there
    assert_eq!(
        record.entries,
        [entry("templates/etc/motd", "Hello {{ name }}\n")]
    );
    assert_eq!(record.gone, ["files/etc/motd"]);
}

#[test]
fn test_a_resource_is_recorded_as_what_asks_for_it_and_what_it_became() {
    let Datum::Object(desired) = json(r#"{"installed": true}"#) else {
        panic!("an object");
    };
    let snapshot = Snapshot::Resource {
        kind: "pkg".to_string(),
        name: "nginx".to_string(),
        order: 50,
        declared: "installed: true\n".to_string(),
        desired,
        state: Some(json(r#"{"installed": false}"#)),
    };
    let record = Record::of(&snapshot, "/");

    assert_eq!(
        record.entries[0],
        entry("resources/pkg/nginx", "installed: true\n")
    );
    assert!(record.gone.is_empty());

    // What the resource is asked to be and what it reports live together, so that the diff
    // of the two commits of a run is the transition itself
    let (path, state) = &record.entries[1];
    assert_eq!(path, "states/pkg/nginx.json");
    assert!(state.ends_with("}\n"));
    let Datum::Object(state) = json(state) else {
        panic!("an object");
    };
    assert!(get(&state, "order").unwrap().same(&json("50")));
    assert!(get(&state, "desired").unwrap().same(&json(r#"{"installed": true}"#)));
    assert!(get(&state, "state").unwrap().same(&json(r#"{"installed": false}"#)));
}

#[test]
fn test_the_history_is_attributed_to_whoever_the_system_says() {
    let mut var = Variables::new();
    assert_eq!(signature(&var, USER, DEFAULT_USER), DEFAULT_USER);

    let text = |t: &str| Datum::String(t.to_string());
    var.set_value(USER, &text("node-3")).unwrap();
    assert_eq!(signature(&var, USER, DEFAULT_USER), "node-3");

    // A signature holds no angle bracket and no line break, and a system that says something
    // unusable is a system that said nothing
    var.set_value(USER, &text("node <3>\nname")).unwrap();
    assert_eq!(signature(&var, USER, DEFAULT_USER), "node 3name");

    var.set_value(USER, &text("  ")).unwrap();
    assert_eq!(signature(&var, USER, DEFAULT_USER), DEFAULT_USER);

    var.set_value(USER, &json(r#"{"nope": 1}"#)).unwrap();
    assert_eq!(signature(&var, USER, DEFAULT_USER), DEFAULT_USER);

    // A number is still an answer
    let var = Variables::from_str("detc:\n  journal:\n    user: 42\n").unwrap();
    assert_eq!(signature(&var, USER, DEFAULT_USER), "42");
}

#[test]
fn test_the_runs_are_numbered_in_order() {
    assert_eq!(next_run(None), Some(1));

    // The next run reads the number of the last one out of the history, so that it survives
    // a reboot and anything else that loses the process
    let message = format!("test: 1 created\n\n{RUN}: 41\n{PHASE}: applied\n");
    assert_eq!(next_run(Some(&message)), Some(42));
    assert_eq!(run_of_message(&message), Some(41));
    assert_eq!(run_of_message("test: 1 created\n"), None);
}

#[test]
fn the_history_is_on_unless_it_is_turned_off() {
    assert!(enabled(&Variables::new()));
    assert!(!enabled(&Variables::from_str("detc: {journal: {enabled: false}}").unwrap()));

    // A probe written in shell has no way of saying `false`
    let mut var = Variables::new();
    var.set_value(ENABLED, &Datum::String("false".to_string())).unwrap();
    assert!(!enabled(&var));
    var.set_value(ENABLED, &Datum::String("no".to_string())).unwrap();
    assert!(enabled(&var));
}

#[test]
fn a_message_is_read_back() {
    let lines = vec![
        "updated\ttemplate\t/etc/motd".to_string(),
        "error\tunit\tnginx".to_string(),
    ];
    let written = message("apply", 7, Phase::Applied, &empty_plan(), &lines);
    assert_eq!(
        written,
        "apply: no object changed\n\nupdated\ttemplate\t/etc/motd\nerror\tunit\tnginx\n\n\
         Detc-Run: 7\nDetc-Phase: applied\nDetc-Command: apply\n"
    );

    let entry = parse(&written);
    assert_eq!(entry.run, 7);
    assert_eq!(entry.phase, "applied");
    assert_eq!(entry.command, "apply");
    assert_eq!(entry.summary, "no object changed");
    assert_eq!(entry.lines, lines);

    assert_eq!(trailer(&written, PHASE), Some("applied".to_string()));
    assert_eq!(trailer(&written, "Nothing"), None);
    assert_eq!(tally(Phase::Found, &empty_plan()), "no object changed");
}

#[test]
fn a_file_has_one_place_wherever_the_system_is_mounted() {
    assert_eq!(
        paths("/sysroot", "template", "/sysroot/etc/motd"),
        ("templates/etc/motd".to_string(), "files/etc/motd".to_string())
    );
    assert_eq!(
        paths("/", "template", "/etc/motd"),
        ("templates/etc/motd".to_string(), "files/etc/motd".to_string())
    );
    assert_eq!(
        paths("/", "unit", "nginx"),
        (
            "resources/unit/nginx".to_string(),
            "states/unit/nginx.json".to_string()
        )
    );
    assert_eq!(path("/sysroot"), "/sysroot/var/lib/detc/journal.git");
}

#[test]
fn what_could_not_be_worked_out_is_carried_over() {
    let carried = vec![entry("files/etc/issue", "old\n")];
    let seen = vec![
        Seen {
            snapshot: Ok(Some(template(Some("Hello world\n")))),
            carried: Vec::new(),
        },
        Seen {
            snapshot: Err("cannot read".to_string()),
            carried: carried.clone(),
        },
        Seen {
            snapshot: Ok(None),
            carried: carried.clone(),
        },
    ];
    let all = record("/", "name: world\n", &seen);

    assert_eq!(
        all.entries,
        [
            entry(VARIABLES, "name: world\n"),
            entry("templates/etc/motd", "Hello {{ name }}\n"),
            entry("files/etc/motd", "Hello world\n"),
            carried[0].clone(),
            carried[0].clone(),
        ]
    );
    assert!(all.gone.is_empty());
}

fn wanted(id: Option<&str>, list: bool, only_fails: bool) -> Wanted<'_> {
    Wanted {
        id,
        list,
        last: false,
        only_fails,
    }
}

/// One commit of a history.
fn logged(
    run: u64,
    phase: &str,
    id: &str,
    lines: &[&str],
    before: Option<&[(&str, &str)]>,
    now: &[(&str, &str)],
) -> Logged {
    let top = |all: &[(&str, &str)]| all.iter().map(|(n, o)| entry(n, o)).collect();
    let body = message(
        "apply",
        run,
        if phase == "found" { Phase::Found } else { Phase::Applied },
        &empty_plan(),
        &lines.iter().map(|l| l.to_string()).collect(),
    );

    Logged {
        id: id.to_string(),
        time: "2026-07-30 09:47".to_string(),
        message: body,
        top: top(now),
        before: before.map(top),
    }
}

#[test]
fn the_two_commits_of_a_run_are_one_run() {
    let history = vec![
        logged(2, "applied", "ddddddd", &["error\tunit\tnginx"], None, &[]),
        logged(
            2,
            "found",
            "ccccccc",
            &[],
            Some(&[("variables.yaml", "1"), ("templates", "1")]),
            &[("variables.yaml", "2"), ("templates", "1")],
        ),
        logged(1, "found", "aaaaaaa", &["create\ttemplate\t/etc/motd"], None, &[]),
    ];
    let all = runs(&history);

    assert_eq!(all.iter().map(|run| run.id).collect::<Vec<_>>(), [2, 1]);
    assert_eq!(all[0].cause, "a variable changed");
    assert_eq!(all[0].lines, ["error\tunit\tnginx"]);
    assert_eq!(all[0].failures(), ["error\tunit\tnginx"]);
    assert_eq!(all[1].cause, "the system was recorded for the first time");
    assert!(all[1].failures().is_empty());

    assert_eq!(run(&all, 1).map(|run: &Run| run.id), Ok(1));
    assert_eq!(
        run(&all, 9).map(|run: &Run| run.id),
        Err("There is no run 9 in the journal".to_string())
    );

    let told = |wanted: Wanted| report(&wanted, &Ok(()), &Ok(runs(&history)));

    let listed = told(wanted(None, true, false));
    assert_eq!(listed.records.len(), 2);
    assert!(listed.end.is_ok());
    assert_eq!(told(wanted(None, true, true)).records.len(), 1);

    let last = told(wanted(None, false, false));
    assert!(detc::record::rendered(&last.records).starts_with("run\t2\t"));
    let first = told(wanted(Some("1"), false, false));
    assert!(detc::record::rendered(&first.records).starts_with("run\t1\t"));
    let failures = told(wanted(None, false, true));
    assert_eq!(detc::record::rendered(&failures.records), "error\tunit\tnginx\n");

    assert_eq!(
        told(wanted(Some("x"), false, false)).end,
        Err("x is not the number of a run".to_string())
    );
    assert_eq!(
        report(&wanted(None, false, false), &Ok(()), &Ok(Vec::new())).end,
        Err("The journal has no run to report".to_string())
    );
    assert_eq!(
        report(
            &wanted(None, false, false),
            &Err("There is no journal".to_string()),
            &Ok(Vec::new())
        )
        .end,
        Err("There is no journal".to_string())
    );
}

#[test]
fn a_run_is_explained_by_the_inputs_that_moved() {
    let moved = |before: &[(&str, &str)], now: &[(&str, &str)]| {
        cause(Some(&logged(1, "found", "aaaaaaa", &[], Some(before), now)))
    };

    assert_eq!(cause(None), "a probe reported something new");
    assert_eq!(
        moved(&[("files", "1")], &[("files", "2")]),
        "the system was changed outside detc"
    );
    assert_eq!(
        moved(&[("templates", "1")], &[("templates", "2"), ("resources", "1")]),
        "a template and a declaration changed"
    );
}
