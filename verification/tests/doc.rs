//! The documentation that a file carries at its head.

use detc::doc::{extract, header};

#[test]
fn test_the_header_is_what_the_file_opens_with() {
    let body = "\
# What this is for.
#
# And the detail of it.

set -eu
# Not documentation: this one is below the code
echo hello
";

    assert_eq!(
        extract(body).expect("the file opens with a comment"),
        "What this is for.\n\nAnd the detail of it.\n"
    );
}

/// The line that says how a program is run says nothing about what it does.
#[test]
fn test_a_shebang_is_not_part_of_the_header() {
    let body = "#!/bin/sh\n\n# What this probe reports.\n\nset -eu\n";

    assert_eq!(
        extract(body).expect("the program opens with a comment"),
        "What this probe reports.\n"
    );

    // And a program that says nothing but how it is run says nothing
    assert_eq!(extract("#!/bin/sh\nset -eu\n"), None);
}

/// A header is prose that somebody laid out, and it comes back the way they laid it
/// out.
#[test]
fn test_the_layout_of_the_header_is_kept() {
    let body = "\
# A unit.
#
# ## Restarting when a file changes
#
#     enabled: true
#     _order: 70
#
# That is the pattern.
enabled: true
";

    assert_eq!(
        extract(body).expect("the document opens with a comment"),
        "A unit.\n\
         \n\
         ## Restarting when a file changes\n\
         \n\
         \x20   enabled: true\n\
         \x20   _order: 70\n\
         \n\
         That is the pattern.\n"
    );
}

#[test]
fn test_a_file_that_says_nothing_about_itself_has_no_header() {
    assert_eq!(extract(""), None);
    assert_eq!(extract("web:\n  enabled: true\n"), None);

    // A block of nothing but signs is a block of nothing
    assert_eq!(extract("#\n#\nweb: true\n"), None);
}

#[test]
fn test_the_header_of_a_file_is_read_and_a_program_is_not() {
    let body = b"# What this sets.\nweb:\n  enabled: true\n".to_vec();
    assert_eq!(
        header("10-core.yaml", Ok(body)),
        Ok("What this sets.\n".to_string())
    );

    let error = header("bare.yaml", Ok(b"web: true\n".to_vec()))
        .expect_err("a file that says nothing is reported");
    assert!(error.contains("says nothing about itself"), "{error}");

    let error = header("compiled", Ok(vec![0x7f, b'E', b'L', b'F', 0xff, 0xfe]))
        .expect_err("a program that is not text is reported");
    assert!(error.contains("compiled program"), "{error}");

    let error = header("missing", Err("No such file or directory".to_string()))
        .expect_err("a file that is not there");
    assert!(error.contains("Cannot read"), "{error}");
}
