//! The stages that a command goes through.

use detc::detc::{BundleCommands, Source};
use detc::record::Type;
use detc::verbs::{apply_system, bundle, tree, Journey, Stage};

/// Go through stages, some of which fail, and say which were reached, what was reported,
/// and how it ended.
fn travel(
    stages: Vec<Stage>,
    fails: &[Stage],
) -> (Vec<Stage>, Vec<String>, Result<(), String>) {
    let mut journey = Journey::start(stages);
    let (mut seen, mut reports) = (Vec::new(), Vec::new());

    while let Some(stage) = journey.next() {
        seen.push(stage);
        let r = match fails.contains(&stage) {
            true => Err(format!("{stage:?}")),
            false => Ok(()),
        };
        reports.extend(journey.pass(r));
    }

    (seen, reports, journey.end())
}

#[test]
fn a_dry_run_leaves_the_system_alone() {
    assert_eq!(
        apply_system(None, false, true),
        Ok(vec![Stage::Recover, Stage::Plan, Stage::Foretell])
    );
    assert_eq!(
        bundle(
            &BundleCommands::Create {
                dir: None,
                output: "-".to_string(),
                sign: None
            },
            true
        ),
        [Stage::Build, Stage::Tell]
    );
}

#[test]
fn a_run_has_the_system_for_itself() {
    let stages = apply_system(None, false, false).unwrap();
    assert_eq!(stages[0], Stage::Lock);
    assert_eq!(stages.len(), 8);
    assert!(apply_system(Some(Type::Probe), false, false).is_err());
}

#[test]
fn the_bookkeeping_does_not_decide() {
    let stages = || apply_system(None, false, false).unwrap();

    let (seen, reports, end) = travel(stages(), &[Stage::Found, Stage::Applied, Stage::Dump]);
    assert_eq!(seen.len(), 8);
    assert_eq!(end, Ok(()));
    assert_eq!(
        reports,
        [
            "Cannot record the state of the system: Found",
            "Cannot record the state of the system: Applied",
            "Cannot write what the run did: Dump"
        ]
    );

    // What could not be applied fails the run, once what it did is recorded
    let (seen, reports, end) = travel(stages(), &[Stage::Judge]);
    assert_eq!(
        seen[4..],
        [Stage::Converge, Stage::Applied, Stage::Dump, Stage::Judge]
    );
    assert!(reports.is_empty());
    assert_eq!(end, Err("Judge".to_string()));

    // A run that cannot say what came of an object goes no further
    let (seen, reports, end) = travel(stages(), &[Stage::Converge]);
    assert_eq!(seen.last(), Some(&Stage::Converge));
    assert!(reports.is_empty());
    assert_eq!(end, Err("Converge".to_string()));

    // And what the run needs stops it
    let (seen, _, end) = travel(stages(), &[Stage::Recover]);
    assert_eq!(seen, [Stage::Lock, Stage::Recover]);
    assert_eq!(end, Err("Recover".to_string()));
}

#[test]
fn a_bundle_is_installed_and_applied_when_it_is_asked_for() {
    let install = |source: Source, apply: bool| BundleCommands::Install {
        bundle: source,
        persist: false,
        apply,
        allow_unsigned: false,
    };

    assert_eq!(bundle(&install(Source::Stdin, false), false), [Stage::Install]);
    assert_eq!(bundle(&install(Source::Stored, false), false), [Stage::Restore]);

    let stages = bundle(&install(Source::Stdin, true), false);
    assert_eq!(stages[..2], [Stage::Install, Stage::Lock]);
    assert_eq!(
        bundle(&BundleCommands::Restore { apply: true }, true),
        [Stage::Restore, Stage::Recover, Stage::Plan, Stage::Foretell]
    );
    assert_eq!(bundle(&BundleCommands::Status, false), [Stage::Status]);
    assert_eq!(bundle(&BundleCommands::Remove, false), [Stage::Remove]);

    let verify = BundleCommands::Verify {
        bundle: Source::Stdin,
    };
    assert_eq!(bundle(&verify, false), [Stage::Verify]);
}

#[test]
fn a_bundle_that_is_the_output_says_nothing_else() {
    let create = |output: &str| BundleCommands::Create {
        dir: None,
        output: output.to_string(),
        sign: None,
    };

    assert_eq!(bundle(&create("-"), false), [Stage::Build, Stage::Send]);
    assert_eq!(
        bundle(&create("fleet.detc"), false),
        [Stage::Build, Stage::Write, Stage::Tell]
    );

    assert_eq!(tree(None), ".");
    assert_eq!(tree(Some("src")), "src");
}
