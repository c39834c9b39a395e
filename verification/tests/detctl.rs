//! The machines of a run, and what is made of their answers.

use detc::detc::{Commands, VarArgs};
use detc::detctl::{
    fleet_status, hear, message, not_started, reached, reason, refused, settle, status,
    summarize, targets, unstarted, workers, Options, Outcome, Paint, Pass, Roll, Target, Watch,
    JOBS, REMOTE_PATH,
};
use detc::document::read_json;
use detc::hosts::Inventory;
use detc::manager::{self, Params};
use detc::value::Datum;
use detc::varlink::Reply;

fn json(body: &str) -> Datum {
    read_json(body).expect("the document is JSON")
}

fn owned(list: &[&str]) -> Vec<String> {
    list.iter().map(|t| t.to_string()).collect()
}

/// A command line that names hosts and nothing else.
fn hosts(host: &[&str]) -> Options {
    Options {
        host: owned(host),
        remote_path: REMOTE_PATH.to_string(),
        sudo: false,
        ssh_option: Vec::new(),
        command: Vec::new(),
        watch: None,
    }
}

fn reach(options: &Options) -> Vec<Target> {
    targets(options, &Inventory::empty("hosts.yaml".to_string())).expect("there are machines")
}

/// How every machine of a run is reached.
fn argv(options: &Options) -> Vec<Vec<String>> {
    reach(options).into_iter().map(|target| target.argv).collect()
}

/// What every machine of a run is called.
fn named(options: &Options) -> Vec<String> {
    reach(options).into_iter().map(|target| target.name).collect()
}

fn plain() -> Paint {
    Paint {
        on: String::new(),
        off: String::new(),
    }
}

fn marked() -> Paint {
    Paint {
        on: "<".to_string(),
        off: ">".to_string(),
    }
}

fn said(answers: &str, error: Option<&str>, errors: &str) -> Outcome {
    Outcome {
        answers: answers.to_string(),
        error: error.map(String::from),
        errors: errors.to_string(),
    }
}

#[test]
fn a_host_is_reached_with_ssh() {
    assert_eq!(argv(&hosts(&["web1"])), [["ssh", "web1", REMOTE_PATH]]);

    assert_eq!(
        argv(&Options {
            sudo: true,
            remote_path: "/opt/detcd".to_string(),
            ssh_option: owned(&["BatchMode=yes"]),
            ..hosts(&["web1"])
        }),
        [["ssh", "-o", "BatchMode=yes", "web1", "sudo -n /opt/detcd"]]
    );
}

#[test]
fn what_is_not_a_plain_host_is_a_command() {
    assert_eq!(
        argv(&Options {
            command: owned(&["podman exec -i web detcd"]),
            ..hosts(&[])
        }),
        [["sh", "-c", "podman exec -i web detcd"]]
    );
}

#[test]
fn several_hosts_are_several_machines() {
    // Said in either of the two ways, and in both at once
    let expected = ["web1", "web2", "web3"];

    assert_eq!(named(&hosts(&["web1,web2,web3"])), expected);
    assert_eq!(named(&hosts(&["web1", "web2", "web3"])), expected);
    assert_eq!(named(&hosts(&["web1,web2", "web3"])), expected);
}

#[test]
fn a_host_and_a_command_are_both_reached() {
    assert_eq!(
        named(&Options {
            command: owned(&["podman exec -i web detcd"]),
            ..hosts(&["web1"])
        }),
        ["web1", "podman exec -i web detcd"]
    );
}

#[test]
fn a_fleet_is_not_asked_for_a_password() {
    // One machine can be, because there is a terminal for it to prompt on and nothing else
    // competing for it
    assert!(!argv(&hosts(&["web1"]))[0].contains(&"BatchMode=yes".to_string()));

    for argv in argv(&hosts(&["web1,web2"])) {
        assert_eq!(&argv[..3], ["ssh", "-o", "BatchMode=yes"]);
    }

    // And a run that said what it wanted is left with what it said
    let asked = argv(&Options {
        ssh_option: owned(&["BatchMode=no"]),
        ..hosts(&["web1,web2"])
    });

    assert_eq!(&asked[0][..3], ["ssh", "-o", "BatchMode=no"]);
    assert_eq!(asked[0].iter().filter(|a| *a == "-o").count(), 1);

    // Whatever the case it was written in
    let asked = argv(&Options {
        ssh_option: owned(&[" bATCHmode = no"]),
        ..hosts(&["web1,web2"])
    });
    assert_eq!(asked[0].iter().filter(|a| *a == "-o").count(), 1);
}

#[test]
fn a_watch_is_not_asked_for_a_password_either() {
    // Nobody is there for the second tick, so one machine is batched too
    assert_eq!(
        &argv(&Options {
            watch: Some(60),
            ..hosts(&["web1"])
        })[0][..3],
        ["ssh", "-o", "BatchMode=yes"]
    );

    let asked = argv(&Options {
        watch: Some(60),
        ssh_option: owned(&["BatchMode=no"]),
        ..hosts(&["web1"])
    });

    assert_eq!(&asked[0][..3], ["ssh", "-o", "BatchMode=no"]);
    assert_eq!(asked[0].iter().filter(|a| *a == "-o").count(), 1);
}

#[test]
fn a_run_of_no_machine_is_refused() {
    let inventory = Inventory::empty("hosts.yaml".to_string());

    assert_eq!(
        targets(&hosts(&["web1", "!web1"]), &inventory).err().as_deref(),
        Some("Pass --host, or --command for what is not a plain host")
    );
    assert!(targets(&hosts(&["web*"]), &inventory).is_err());
    assert_eq!(JOBS, 10);
}

#[test]
fn a_failure_is_reported_with_the_message_of_detc() {
    let reply = Reply::failed(
        manager::FAILED,
        json(r#"{"message": "There is no template"}"#),
    );

    assert_eq!(refused(&reply), "There is no template");
}

#[test]
fn an_error_with_nothing_to_say_is_still_reported() {
    assert_eq!(
        refused(&Reply::failed(manager::READ_ONLY, json("{}"))),
        "detcd was started read-only, and the command changes the system"
    );

    assert!(refused(&Reply::failed(
        "org.varlink.service.MethodNotFound",
        json("{}")
    ))
    .contains("MethodNotFound"));
}

#[test]
fn a_host_that_was_never_reached_says_what_ssh_said() {
    assert_eq!(
        reason("ssh: connect to host web3 port 22: No route to host\n", 255),
        "ssh: connect to host web3 port 22: No route to host"
    );

    // And when it said nothing, 255 is how it says it never got there
    assert_eq!(reason("", 255), "The host could not be reached");
    assert_eq!(reason("  \n\n", 1), "detcd exited with 1");
}

#[test]
fn the_call_is_the_one_of_the_subcommand() {
    let list = Commands::List {
        types: true,
        kind: None,
    };
    let sent = message(&list, false, Err("unread".to_string())).unwrap();

    assert_eq!(sent.method, "org.detc.Manager.ListTypes");
    assert!(sent.more);
    assert!(matches!(sent.params, Params::ListTypes));

    let cat = Commands::Cat {
        object: "/etc/hosts".to_string(),
        kind: None,
        raw: false,
        var: VarArgs::none(),
    };
    assert!(!message(&cat, false, Err("unread".to_string())).unwrap().more);
}

#[test]
fn a_conversation_ends_with_the_last_answer_or_with_the_reason() {
    assert_eq!(hear(Some(&Reply::more(json("{}")))), Ok(true));
    assert_eq!(hear(Some(&Reply::last(json("{}")))), Ok(false));
    assert_eq!(
        hear(None),
        Err("detcd closed the connection before answering".to_string())
    );
    assert_eq!(
        hear(Some(&Reply::failed(manager::FAILED, json(r#"{"message": "no"}"#)))),
        Err("no".to_string())
    );
}

#[test]
fn a_run_that_failed_is_never_a_success() {
    assert_eq!(status(true, 0), 0);
    assert_eq!(status(false, 0), 1);
    assert_eq!(status(false, 255), 255);
    assert_eq!(status(true, 3), 3);
}

#[test]
fn a_machine_is_explained_by_the_status_it_left_with() {
    let settled = settle(
        Err("detcd closed the connection before answering".to_string()),
        255,
        String::new(),
        "ssh: no route\n".to_string(),
    );
    assert_eq!(settled.error.as_deref(), Some("ssh: no route"));

    let settled = settle(Err("no".to_string()), 0, "a\n".to_string(), String::new());
    assert_eq!(settled.error.as_deref(), Some("no"));
    assert_eq!(settled.answers, "a\n");

    let settled = settle(Ok(()), 0, "a\n".to_string(), "warned\n".to_string());
    assert_eq!(settled.error, None);
    assert_eq!(settled.errors, "warned\n");

    let unstarted = unstarted(not_started("ssh", "No such file"));
    assert_eq!(unstarted.error.as_deref(), Some("Cannot start ssh: No such file"));
}

#[test]
fn no_more_machines_are_reached_at_a_time_than_there_are() {
    assert_eq!(workers(0, 50), 50);
    assert_eq!(workers(10, 50), 10);
    assert_eq!(workers(10, 3), 3);
}

#[test]
fn the_order_of_arrival_does_not_show() {
    let fleet = || reach(&hosts(&["web[1:3]"]));
    let tales = || {
        [
            said("ok\ta\n", None, ""),
            said("", Some("no route"), "ssh: no route\n"),
            said("ok\tc\n", None, "late\n"),
        ]
    };
    let expected = "<web1>\nok\ta\n\n<web2>\nerror\tno route\n\n<web3>\nok\tc\n";

    for order in [[0, 1, 2], [2, 1, 0], [1, 2, 0], [1, 0, 2], [0, 2, 1], [2, 0, 1]] {
        let mut roll = Roll::new(&fleet(), marked());
        let mut tales: Vec<Option<Outcome>> = tales().into_iter().map(Some).collect();
        let mut printed = String::new();
        let mut asides = Vec::new();

        for index in order {
            let now = roll.arrive(index, tales[index].take().unwrap());
            printed.push_str(&now.text);
            asides.extend(now.asides);
        }

        assert_eq!(printed, expected);
        assert_eq!(asides, ["web2\tssh: no route", "web3\tlate"]);
        assert_eq!(
            roll.failures(),
            [("web2".to_string(), "no route".to_string())]
        );
        assert_eq!(fleet_status(&roll.failures()), 1);
    }
}

#[test]
fn a_host_is_reported_the_moment_everything_before_it_was() {
    let mut roll = Roll::new(&reach(&hosts(&["a,b"])), plain());

    assert_eq!(roll.arrive(1, said("late\n", None, "")).text, "");
    assert_eq!(
        roll.arrive(0, said("early\n", None, "")).text,
        "a\nearly\n\nb\nlate\n"
    );
    assert_eq!(fleet_status(&roll.failures()), 0);
}

#[test]
fn the_report_says_how_every_machine_went() {
    assert_eq!(reached(&plain(), &plain(), "web1", &said("", None, "")), "ok web1");
    assert_eq!(
        reached(&plain(), &marked(), "web1", &said("", Some("no route"), "")),
        "<failed> web1  no route"
    );

    assert_eq!(summarize(&marked(), 3, &Vec::new()), ["3 hosts: 3 ok, 0 failed"]);
    assert_eq!(
        summarize(
            &marked(),
            3,
            &vec![("web2".to_string(), "no route".to_string())]
        ),
        ["3 hosts: 2 ok, <1 failed>", "  web2\tno route"]
    );
}

#[test]
fn a_watch_is_silent_until_something_changes() {
    let pass = |answers: &str, code: i32| Pass {
        answers: answers.as_bytes().to_vec(),
        code,
    };
    let mut watch = Watch::new(Some(4));

    assert_eq!(
        watch.tick(pass("ok\n", 0), "09:00"),
        (Some("changed\t09:00\n".to_string()), true)
    );
    assert_eq!(watch.tick(pass("ok\n", 0), "09:01"), (None, true));

    // A host that starts failing without a word is a change
    assert_eq!(
        watch.tick(pass("ok\n", 1), "09:02"),
        (Some("\nchanged\t09:02\n".to_string()), true)
    );
    assert_eq!(
        watch.tick(pass("no\n", 1), "09:03"),
        (Some("\nchanged\t09:03\n".to_string()), false)
    );

    // Where it was not told how often, it goes on
    assert!(Watch::new(None).tick(pass("", 0), "09:00").1);
}
