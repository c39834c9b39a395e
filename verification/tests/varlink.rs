//! The messages of a conversation, and the interface that describes a service.

use detc::document::read_json;
use detc::value::{get, Datum};
use detc::varlink::{
    frame, invalid_parameter, message, method_in, method_not_found, service, Call, Reply,
    PRODUCT, SERVICE,
};

const IDL: &str = "interface org.varlink.service\n";

fn json(body: &str) -> Datum {
    read_json(body).expect("the document is JSON")
}

fn call(method: &str, parameters: Option<Datum>) -> Call {
    Call {
        method: method.to_string(),
        parameters,
        more: false,
        oneway: false,
        upgrade: false,
    }
}

/// A member of the parameters of a reply.
fn parameter(reply: &Reply, name: &str) -> Datum {
    match &reply.parameters {
        Some(Datum::Object(entries)) => get(entries, name).expect("the member is there").copy(),
        _ => panic!("a reply carries an object"),
    }
}

#[test]
fn a_message_is_a_json_object_and_a_nul() {
    assert_eq!(frame(b"{\"method\":\"A\"}".to_vec()), b"{\"method\":\"A\"}\0");
}

#[test]
fn what_is_framed_is_read_back() {
    for body in [&b""[..], b"{}", b"\0", b"{\"a\":1}"] {
        assert_eq!(message(frame(body.to_vec())), Ok(Some(body.to_vec())));
    }
    assert_eq!(message(Vec::new()), Ok(None));
}

#[test]
fn a_message_that_is_not_terminated_is_an_error() {
    let error = message(b"{\"method\":\"Cut\"}".to_vec()).unwrap_err();

    assert!(error.contains("cut"), "{error}");
}

#[test]
fn a_call_of_another_interface_is_not_answered_here() {
    assert!(service(&call("org.detc.Manager.ListTypes", None), &[], "0").is_none());
    assert!(service(&call("org.varlink.serviceGetInfo", None), &[], "0").is_none());
}

#[test]
fn the_service_says_what_it_speaks() {
    let reply = service(
        &call("org.varlink.service.GetInfo", None),
        &[(SERVICE, IDL), ("org.detc.Manager", "")],
        "0.1.0",
    )
    .unwrap();

    assert!(reply.error.is_none());
    assert!(!reply.continues);
    assert!(parameter(&reply, "product").same(&json("\"detc\"")));
    assert!(parameter(&reply, "version").same(&json("\"0.1.0\"")));
    assert!(parameter(&reply, "interfaces")
        .same(&json(r#"["org.varlink.service", "org.detc.Manager"]"#)));
    assert_eq!(PRODUCT, "detc");
}

#[test]
fn the_description_is_the_one_that_is_served() {
    let asked = call(
        "org.varlink.service.GetInterfaceDescription",
        Some(json(r#"{"interface": "org.varlink.service"}"#)),
    );
    let reply = service(&asked, &[(SERVICE, IDL)], "0").unwrap();

    assert!(parameter(&reply, "description").same(&Datum::String(IDL.to_string())));
}

#[test]
fn an_interface_that_is_not_served_has_no_description() {
    let asked = call(
        "org.varlink.service.GetInterfaceDescription",
        Some(json(r#"{"interface": "org.example.Other"}"#)),
    );
    let reply = service(&asked, &[(SERVICE, IDL)], "0").unwrap();

    assert_eq!(
        reply.error.as_deref(),
        Some("org.varlink.service.InterfaceNotFound")
    );

    // And one that is not named at all is a parameter that is missing
    let asked = call("org.varlink.service.GetInterfaceDescription", None);
    let reply = service(&asked, &[(SERVICE, IDL)], "0").unwrap();
    assert_eq!(
        reply.error.as_deref(),
        Some("org.varlink.service.InvalidParameter")
    );
}

#[test]
fn a_method_the_service_does_not_have_is_reported_as_such() {
    let reply = service(&call("org.varlink.service.Whatever", None), &[], "0").unwrap();

    assert_eq!(
        reply.error.as_deref(),
        Some("org.varlink.service.MethodNotFound")
    );
    assert!(parameter(&reply, "method").same(&json("\"org.varlink.service.Whatever\"")));
}

#[test]
fn a_reply_says_whether_there_is_more_and_whether_it_failed() {
    let last = Reply::last(json("{}"));
    assert!(!last.continues && last.error.is_none());

    let more = Reply::more(json("{}"));
    assert!(more.continues && more.error.is_none());

    let failed = Reply::failed("org.example.Broken", json("{}"));
    assert!(!failed.continues);
    assert_eq!(failed.error.as_deref(), Some("org.example.Broken"));

    assert!(parameter(&method_not_found("A"), "method").same(&json("\"A\"")));
    assert!(parameter(&invalid_parameter("oneway"), "parameter").same(&json("\"oneway\"")));
    assert_eq!(method_in("org.a", "org.a.B"), Some("B".to_string()));
    assert_eq!(method_in("org.a", "org.ab.B"), None);
}
