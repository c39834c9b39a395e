//! Templates: the files that they instantiate, and what they render to.

use detc::cfs::{Found, Shelf, UAPICFS};
use detc::document::read_json;
use detc::template::{render, report, Failure, Template, Templates, TEMPLATES_NAME};
use detc::value::Datum;

fn json(body: &str) -> Datum {
    read_json(body).expect("the document is JSON")
}

fn read(body: &str) -> Result<String, String> {
    Ok(body.to_string())
}

fn found(prefix: &str, key: &str, empty: bool) -> Found {
    Found {
        key: key.to_string(),
        path: format!("/sysroot/{prefix}/detc/templates.d/{key}"),
        empty,
    }
}

fn templates(shelves: Vec<Shelf>) -> Templates {
    let uapi = UAPICFS::with_root(TEMPLATES_NAME, "/sysroot").recursive(true);

    Templates::from_system("/sysroot", &uapi.entries(&shelves))
}

fn shelf(dropins: Vec<Found>) -> Shelf {
    Shelf { main: None, dropins }
}

#[test]
fn test_templates_replicate_the_root() {
    let templates = templates(vec![
        shelf(vec![
            found("usr/share", "etc/ssh/ssh.conf", false),
            found("usr/share", "etc/hostname", false),
            found("usr/share", "etc/apache2/mods-enabled/mysite.conf", false),
        ]),
        // The injected template masks the vendor one, so the file is not instantiated at
        // all
        shelf(vec![found("run", "etc/apache2/mods-enabled/mysite.conf", true)]),
        // The admin template of the same file wins
        shelf(vec![found("etc", "etc/ssh/ssh.conf", false)]),
    ]);
    let resolved = templates.templates();

    assert_eq!(resolved.len(), 2);

    // Sorted by the file that they instantiate
    assert_eq!(resolved[0].target(), "/sysroot/etc/hostname");
    assert_eq!(
        resolved[0].source(),
        "/sysroot/usr/share/detc/templates.d/etc/hostname"
    );

    assert_eq!(resolved[1].target(), "/sysroot/etc/ssh/ssh.conf");
    assert_eq!(
        resolved[1].source(),
        "/sysroot/etc/detc/templates.d/etc/ssh/ssh.conf"
    );
}

#[test]
fn test_template_find_and_render() {
    let templates = templates(vec![shelf(vec![found(
        "usr/share",
        "etc/ssh/sshd_config.d/root.conf",
        false,
    )])]);
    let body = "PermitRootLogin={{ssh.conf.permit_root_login}}\n";

    // Addressed with the path in the root file system, or with the path in the current
    // system
    let template = templates.find("/etc/ssh/sshd_config.d/root.conf").unwrap();
    assert_eq!(
        template.target(),
        templates
            .find("/sysroot/etc/ssh/sshd_config.d/root.conf")
            .unwrap()
            .target()
    );

    let context = json(r#"{"ssh": {"conf": {"permit_root_login": "yes"}}}"#);
    assert_eq!(
        template.render(read(body), &context),
        Ok("PermitRootLogin=yes\n".to_string())
    );

    // The template itself, not the instantiated content
    assert_eq!(template.content(read(body)), Ok(body.to_string()));

    assert!(templates.find("/etc/hostname").is_err());
}

#[test]
fn test_render_error_names_the_expression() {
    let templates = templates(vec![shelf(vec![found(
        "usr/share",
        "etc/chrony/chrony.conf",
        false,
    )])]);
    let template = templates.find("/etc/chrony/chrony.conf").unwrap();

    let error = template
        .check(
            read("# Generated by detc\nserver {{ntp.server}} iburst\n"),
            &json("{}"),
        )
        .expect_err("the variable is not in the namespace");

    // The file that is not written, why, the expression that failed, and where it is in
    // the template
    assert!(error.contains("/etc/chrony/chrony.conf"), "{error}");
    assert!(error.contains("undefined value"), "{error}");
    assert!(error.contains("`ntp.server`"), "{error}");
    assert!(error.contains("chrony.conf:2"), "{error}");
}

#[test]
fn test_templates_ignore_the_main_file() {
    let templates = templates(vec![Shelf {
        main: Some(Found {
            key: String::new(),
            path: "/sysroot/usr/share/detc/templates".to_string(),
            empty: false,
        }),
        dropins: Vec::new(),
    }]);

    assert!(templates.templates().is_empty());
}

#[test]
fn a_template_that_cannot_be_read_says_so() {
    let template = Template::new("/usr/share/detc/templates.d/etc/motd", "/etc/motd");
    let error = template.render(Err("denied".to_string()), &json("{}")).unwrap_err();
    assert!(error.contains("/usr/share/detc/templates.d/etc/motd"), "{error}");

    // The last line feed is kept, and nothing is escaped
    assert_eq!(
        render("motd", "motd", "<{{ name }}>\n", &json(r#"{"name": "a&b"}"#)),
        Ok("<a&b>\n".to_string())
    );
}

#[test]
fn a_failure_is_told_with_what_is_known_of_it() {
    let failure = Failure {
        kind: "undefined value".to_string(),
        detail: Some("there is none".to_string()),
        range: Some((3, 7)),
        line: Some(1),
        causes: vec!["first".to_string(), "second".to_string()],
    };
    assert_eq!(
        report("/etc/motd", "motd.tpl", "{{ name }}", Err(failure)),
        Err(
            "Cannot render /etc/motd: undefined value: there is none `name` (in motd.tpl:1): first: second"
                .to_string()
        )
    );

    // An expression that is not in the content is left out
    let failure = Failure {
        kind: "syntax error".to_string(),
        detail: None,
        range: Some((3, 700)),
        line: None,
        causes: Vec::new(),
    };
    assert_eq!(
        report("/etc/motd", "motd.tpl", "{{ name }}", Err(failure)),
        Err("Cannot render /etc/motd: syntax error (in motd.tpl)".to_string())
    );
    assert_eq!(
        report("/etc/motd", "motd.tpl", "", Ok("done".to_string())),
        Ok("done".to_string())
    );
}
