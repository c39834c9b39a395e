//! How what a verb has to say is written down.

use detc::record::{rendered, Commit, Record, Type};

#[test]
fn a_document_is_written_as_it_is() {
    let text = "no trailing newline".to_string();
    assert_eq!(rendered(&vec![Record::Text(text)]), "no trailing newline");
}

#[test]
fn every_other_record_ends_with_a_newline() {
    assert_eq!(rendered(&vec![Record::Type(Type::Probe)]), "probe\n");
}

#[test]
fn an_object_is_the_type_the_name_and_the_source() {
    assert_eq!(
        Record::Object {
            kind: Type::Template,
            name: "/etc/chrony/chrony.conf".to_string(),
            source: "/usr/share/detc/templates/chrony.conf".to_string(),
        }
        .line(),
        "template\t/etc/chrony/chrony.conf\t/usr/share/detc/templates/chrony.conf"
    );
}

#[test]
fn a_check_says_ok_or_error() {
    assert_eq!(
        Record::Check {
            name: "unit".to_string(),
            error: None,
        }
        .line(),
        "ok\tunit"
    );

    assert_eq!(
        Record::Check {
            name: "unit".to_string(),
            error: Some("no schema".to_string()),
        }
        .line(),
        "error\tunit\tno schema"
    );
}

#[test]
fn a_change_shows_the_detail_it_has() {
    let change = |summary, error| Record::Change {
        action: "updated".to_string(),
        object: "template /etc/hosts".to_string(),
        summary,
        error,
    };

    assert_eq!(change(None, None).line(), "updated\ttemplate /etc/hosts");

    assert_eq!(
        change(Some("enabled".to_string()), None).line(),
        "updated\ttemplate /etc/hosts\tenabled"
    );

    // A failed change reports why, and never both
    assert_eq!(
        change(Some("enabled".to_string()), Some("denied".to_string())).line(),
        "updated\ttemplate /etc/hosts\tdenied"
    );
}

#[test]
fn a_bundle_says_what_it_is_and_where_it_came_from() {
    let bundle = |persist| Record::Bundle {
        name: "fleet".to_string(),
        version: "3".to_string(),
        signer: "fleet@example".to_string(),
        origin: "https://dist.example/fleet.detc".to_string(),
        persist,
    };

    assert_eq!(
        bundle(true).line(),
        "fleet\t3\tfleet@example\thttps://dist.example/fleet.detc\tpersistent"
    );

    assert_eq!(
        bundle(false).line(),
        "fleet\t3\tfleet@example\thttps://dist.example/fleet.detc\ttransient"
    );
}

#[test]
fn a_run_in_full_is_a_block_of_lines() {
    let detail = Record::RunDetail {
        id: 3,
        time: "2026-07-30 09:47".to_string(),
        command: "apply".to_string(),
        cause: "manual".to_string(),
        found: Some(Commit {
            id: "aa11".to_string(),
            summary: "2 objects".to_string(),
        }),
        applied: None,
        lines: vec!["updated\ttemplate /etc/hosts".to_string()],
    };

    assert_eq!(
        rendered(&vec![detail]),
        "run\t3\t2026-07-30 09:47\tapply\n\
         cause\tmanual\n\
         found\taa11\t2 objects\n\
         \n\
         updated\ttemplate /etc/hosts\n"
    );
}

#[test]
fn a_run_with_nothing_recorded_has_no_blank_line() {
    let detail = Record::RunDetail {
        id: 1,
        time: "2026-07-30 09:47".to_string(),
        command: "apply".to_string(),
        cause: "manual".to_string(),
        found: None,
        applied: None,
        lines: Vec::new(),
    };

    assert_eq!(
        rendered(&vec![detail]),
        "run\t1\t2026-07-30 09:47\tapply\ncause\tmanual\n"
    );
}

#[test]
fn the_other_records_are_one_line_each() {
    let records = vec![
        Record::Probe {
            mount: "system".to_string(),
            path: "/usr/libexec/detc/probes/system.d/10-net".to_string(),
        },
        Record::Run {
            id: 7,
            time: "2026-07-30 09:47".to_string(),
            command: "apply".to_string(),
            summary: "1 updated".to_string(),
        },
        Record::Line("error\tunit nginx".to_string()),
    ];

    assert_eq!(
        rendered(&records),
        "system\t/usr/libexec/detc/probes/system.d/10-net\n\
         7\t2026-07-30 09:47\tapply\t1 updated\n\
         error\tunit nginx\n"
    );
    assert_eq!(
        Type::all().iter().map(|kind| kind.name()).collect::<Vec<_>>(),
        ["probe", "template", "resource", "provider", "variable"]
    );
}
