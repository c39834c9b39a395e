//! What the service answers.

use detc::detc::{Commands, VarArgs};
use detc::detcd::{answered, failed, permit, receive, Admission, Closing, Sink, GONE};
use detc::document::read_json;
use detc::manager::{self, Method};
use detc::record::{Record, Type};
use detc::value::{get, Datum};
use detc::varlink::{Call, Reply, SERVICE};

const IDL: &str = "interface org.detc.Manager\n";
const INTERFACES: &[(&str, &str)] = &[
    (SERVICE, "interface org.varlink.service\n"),
    (manager::INTERFACE, IDL),
];

fn json(body: &str) -> Datum {
    read_json(body).expect("the document is JSON")
}

fn call(method: &str, more: bool) -> Call {
    Call {
        method: method.to_string(),
        parameters: None,
        more,
        oneway: false,
        upgrade: false,
    }
}

fn refused(call: &Call) -> Reply {
    match receive(call, INTERFACES, "0.1.0") {
        Admission::Answered(reply) => reply,
        Admission::Called(method) => panic!("{} was called", method.name()),
    }
}

fn apply(dry_run: bool) -> Result<(Commands, bool), String> {
    Ok((
        Commands::Apply {
            file: None,
            kind: None,
            var: VarArgs::none(),
        },
        dry_run,
    ))
}

#[test]
fn a_streaming_method_is_refused_without_more() {
    let reply = refused(&call("org.detc.Manager.ListTypes", false));

    assert!(!answered(&reply));
    assert_eq!(reply.error.as_deref(), Some(manager::EXPECTED_MORE));
}

#[test]
fn a_stream_ends_with_the_field_of_the_method_and_nothing_in_it() {
    let Admission::Called(method) = receive(
        &call("org.detc.Manager.ListTypes", true),
        INTERFACES,
        "0.1.0",
    ) else {
        panic!("a call with more is let in");
    };
    assert_eq!(method, Method::ListTypes);

    let mut sink = Sink::new(method);
    for kind in Type::all() {
        // Every record is sent as it is said
        assert_eq!(sink.emit(Record::Type(kind)), Ok(Some(Record::Type(kind))));
    }

    let Ok(Closing::End(last)) = sink.finish() else {
        panic!("a stream ends");
    };
    assert!(last.same(&json(r#"{"type": null}"#)));
}

#[test]
fn a_method_that_is_not_declared_is_reported_as_missing() {
    let reply = refused(&call("org.detc.Manager.Nope", true));

    assert!(!answered(&reply));
    assert_eq!(
        reply.error.as_deref(),
        Some("org.varlink.service.MethodNotFound")
    );
}

#[test]
fn read_only_refuses_what_changes_the_system() {
    let reply = permit(Method::Apply, apply(false), true)
        .err()
        .expect("the method changes the system");

    assert!(!answered(&reply));
    assert_eq!(reply.error.as_deref(), Some(manager::READ_ONLY));

    // And a service that is not read only does not
    assert!(permit(Method::Apply, apply(false), false).is_ok());
}

#[test]
fn read_only_allows_a_dry_run_of_the_same_method() {
    assert!(permit(Method::Apply, apply(true), true).is_ok());
    assert!(permit(
        Method::List,
        Ok((Commands::List { types: false, kind: None }, false)),
        true
    )
    .is_ok());
}

#[test]
fn a_call_of_the_other_interface_is_answered_by_the_service() {
    let reply = refused(&Call {
        parameters: Some(json(r#"{"interface": "org.detc.Manager"}"#)),
        ..call("org.varlink.service.GetInterfaceDescription", false)
    });

    assert!(answered(&reply));
    let Some(Datum::Object(entries)) = &reply.parameters else {
        panic!("a reply carries an object");
    };
    assert!(get(entries, "description")
        .unwrap()
        .same(&Datum::String(IDL.to_string())));
}

#[test]
fn a_caller_that_asks_for_nothing_is_not_answered() {
    assert_eq!(detc::varlink::message(Vec::new()), Ok(None));
    assert_eq!(GONE, "The caller went away without asking for anything");
}

#[test]
fn a_call_that_asks_for_no_answer_is_answered() {
    for (oneway, upgrade, parameter) in [(true, false, "oneway"), (false, true, "upgrade")] {
        let reply = refused(&Call {
            oneway,
            upgrade,
            ..call("org.detc.Manager.Cat", false)
        });

        assert_eq!(
            reply.error.as_deref(),
            Some("org.varlink.service.InvalidParameter")
        );
        let Some(Datum::Object(entries)) = &reply.parameters else {
            panic!("a reply carries an object");
        };
        assert!(get(entries, "parameter")
            .unwrap()
            .same(&Datum::String(parameter.to_string())));
    }
}

#[test]
fn a_command_that_is_not_understood_fails_with_the_reason() {
    let reply = permit(Method::Cat, Err("missing field `name`".to_string()), false)
        .err()
        .expect("there is nothing to run");

    assert_eq!(reply.error.as_deref(), Some(manager::FAILED));
    assert!(reply
        .parameters
        .unwrap()
        .same(&json(r#"{"message": "missing field `name`"}"#)));
    assert_eq!(failed("x").error.as_deref(), Some(manager::FAILED));
}

#[test]
fn a_document_in_pieces_is_one_reply() {
    let mut sink = Sink::new(Method::GetVariables);
    assert_eq!(sink.emit(Record::Text("a: 1\n".to_string())), Ok(None));
    assert_eq!(sink.emit(Record::Text("b: 2\n".to_string())), Ok(None));

    let Ok(Closing::Record(record)) = sink.finish() else {
        panic!("the document is the answer");
    };
    assert_eq!(record, Record::Text("a: 1\nb: 2\n".to_string()));
}

#[test]
fn a_method_that_answers_once_answers_once() {
    let mut sink = Sink::new(Method::Cat);
    assert_eq!(sink.emit(Record::Text("a\n".to_string())), Ok(None));
    assert_eq!(
        sink.emit(Record::Line("b".to_string())),
        Err("Cat answers with one reply".to_string())
    );

    // Neither of the two is the answer then
    let dropped = sink.finish().err().expect("there is no answer left");
    assert_eq!(dropped, "Cat answered nothing");

    let nothing = Sink::new(Method::Cat).finish().err().expect("there is no answer");
    assert_eq!(nothing, "Cat answered nothing");
}
