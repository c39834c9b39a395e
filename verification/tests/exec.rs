//! How the programs of a system are run, and what is made of what they say.

use detc::exec::{environment, is_executable, output, retry, DETC_ROOT_ENV, RUN_LOCK_ENV};

#[test]
fn test_a_program_sees_the_root_and_its_own_directory() {
    assert_eq!(
        environment("/sysroot", None),
        [(DETC_ROOT_ENV, "/sysroot".to_string())]
    );
    assert_eq!(DETC_ROOT_ENV, "DETC_ROOT");
}

#[test]
fn test_a_program_is_told_about_the_lock_only_while_a_run_holds_it() {
    assert_eq!(environment("/", None).len(), 1);
    assert_eq!(
        environment("/", Some("/var/lib/detc/run.lock")),
        [
            (DETC_ROOT_ENV, "/".to_string()),
            (RUN_LOCK_ENV, "/var/lib/detc/run.lock".to_string())
        ]
    );
}

#[test]
fn test_a_program_that_fails_is_an_error() {
    let error = output("/broken", false, "exit status: 3", b"something\n".to_vec())
        .expect_err("a program that exits with a failure is reported");
    assert!(error.contains("failed with status"), "{error}");

    // What it managed to write is discarded, as a partial document is worse than no
    // document at all
    assert!(!error.contains("something"), "{error}");
}

#[test]
fn what_a_program_says_is_text() {
    assert_eq!(
        output("/fine", true, "exit status: 0", "añb\n".as_bytes().to_vec()),
        Ok("añb\n".to_string())
    );

    let error = output("/odd", true, "exit status: 0", vec![0xff, 0xfe]).unwrap_err();
    assert!(error.starts_with("/odd wrote output that is not valid UTF-8: "), "{error}");
}

#[test]
fn test_only_the_exec_bit_makes_a_program() {
    assert!(!is_executable(0o644));
    assert!(is_executable(0o755));
    assert!(is_executable(0o001));
}

#[test]
fn a_busy_program_is_tried_again_a_few_times_and_ever_later() {
    assert_eq!(retry(0), Some(5));
    assert_eq!(retry(4), Some(25));
    assert_eq!(retry(5), None);
}
