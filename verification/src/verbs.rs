//! The stages that `apply` and `bundle` go through, and which of them can fail a
//! command.
//!
//! What a stage does is up to whoever drives it.  What is decided here is which
//! stages there are, the order that they come in, and what the failure of one of
//! them means for the others and for the command.

use vstd::prelude::*;

use crate::bundle::{installing, reinstalling, removing, Found, Holding, Load, Look, Trial};
use crate::detc::{BundleCommands, BundleVerb, Locator, Source};
use crate::path;
use crate::record::Type;
use crate::run::{applicable, applicable_kind};
use crate::text;
use crate::var;

verus! {

/// One stage of a command.
#[derive(Clone, Copy, Debug, PartialEq, Eq, Structural)]
pub enum Stage {
    /// Wait until no other run converges the system, and keep it that way until the
    /// command is over.
    Lock,
    /// Put back the bundles that were kept and are not installed, where there are any.
    Recover,
    /// Work out what the objects that were selected need.
    Plan,
    /// Say what would happen to each object.
    Foretell,
    /// Record the system as the run found it.
    Found,
    /// Give each object its turn, and say what came of it.
    Converge,
    /// Record the system as the run left it.
    Applied,
    /// Write what the run did where anything can read it.
    Dump,
    /// Say whether every object could be applied.
    Judge,
    /// Build a bundle out of a tree.
    Build,
    /// Write the bundle to the standard output.
    Send,
    /// Write the bundle to a file.
    Write,
    /// Say what was built.
    Tell,
    /// Check a bundle, and say what came of it.
    Verify,
    /// Install a bundle, and say what it did.
    Install,
    /// Install again the bundles that were kept, and say what it did.
    Restore,
    /// Say which bundles there are.
    Status,
    /// Take a bundle away, and say what it did.
    Remove,
}

/// The stages of a run.  It converges the system alone, so it waits for the others
/// first, and holds them off until what it did is recorded.  A dry run says what
/// would happen, and takes nothing: a drift report has to stay runnable at any
/// time.
pub open spec fn run_stages(dry_run: bool) -> Seq<Stage> {
    if dry_run {
        seq![Stage::Recover, Stage::Plan, Stage::Foretell]
    } else {
        seq![
            Stage::Lock,
            Stage::Recover,
            Stage::Plan,
            Stage::Found,
            Stage::Converge,
            Stage::Applied,
            Stage::Dump,
            Stage::Judge,
        ]
    }
}

/// The stages of a run that is asked for only sometimes.
pub open spec fn run_if(apply: bool, dry_run: bool) -> Seq<Stage> {
    if apply {
        run_stages(dry_run)
    } else {
        Seq::empty()
    }
}

/// Whether what is built goes to the standard output.  The archive is the output
/// then, and a record that describes it would be one more member of it.
pub open spec fn is_output(output: Seq<char>) -> bool {
    path::same_route(output, "-"@)
}

/// The stages of a verb on bundles.
pub open spec fn bundle_stages(verb: BundleVerb, dry_run: bool) -> Seq<Stage> {
    match verb {
        BundleVerb::Create { output, .. } => if dry_run {
            seq![Stage::Build, Stage::Tell]
        } else if is_output(output) {
            seq![Stage::Build, Stage::Send]
        } else {
            seq![Stage::Build, Stage::Write, Stage::Tell]
        },
        BundleVerb::Verify { .. } => seq![Stage::Verify],
        BundleVerb::Install { bundle, apply, .. } => (if bundle is Stored {
            seq![Stage::Restore]
        } else {
            seq![Stage::Install]
        }) + run_if(apply, dry_run),
        BundleVerb::Restore { apply } => seq![Stage::Restore] + run_if(apply, dry_run),
        BundleVerb::Status => seq![Stage::Status],
        BundleVerb::Remove => seq![Stage::Remove],
    }
}

/// The stages of `apply`, or why it does not run at all.
pub fn apply_system(kind: Option<Type>, file: bool, dry_run: bool) -> (r: Result<Vec<Stage>, String>)
    ensures
        match (applicable_kind(kind, file), r) {
            (Ok(_), Ok(stages)) => stages@ == run_stages(dry_run),
            (Err(e), Err(m)) => m@ == e,
            _ => false,
        },
{
    match applicable(kind, file) {
        Ok(_) => {
            let mut stages: Vec<Stage> = Vec::new();
            add_run(&mut stages, dry_run);
            assert(stages@ =~= run_stages(dry_run));
            Ok(stages)
        },
        Err(e) => Err(e),
    }
}

/// Add the stages of a run.
fn add_run(stages: &mut Vec<Stage>, dry_run: bool)
    ensures
        final(stages)@ == old(stages)@ + run_stages(dry_run),
{
    if !dry_run {
        stages.push(Stage::Lock);
    }
    stages.push(Stage::Recover);
    stages.push(Stage::Plan);
    if dry_run {
        stages.push(Stage::Foretell);
    } else {
        stages.push(Stage::Found);
        stages.push(Stage::Converge);
        stages.push(Stage::Applied);
        stages.push(Stage::Dump);
        stages.push(Stage::Judge);
    }
    assert(stages@ =~= old(stages)@ + run_stages(dry_run));
}

/// The stages of a verb on bundles: what builds, checks and installs the tree of
/// objects that a bundle carries.
pub fn bundle(command: &BundleCommands, dry_run: bool) -> (r: Vec<Stage>)
    ensures
        r@ == bundle_stages(command@, dry_run),
{
    let mut stages: Vec<Stage> = Vec::new();
    match command {
        BundleCommands::Create { dir: _, output, sign: _ } => {
            stages.push(Stage::Build);
            if dry_run {
                stages.push(Stage::Tell);
            } else if path::same(output.as_str(), "-") {
                stages.push(Stage::Send);
            } else {
                stages.push(Stage::Write);
                stages.push(Stage::Tell);
            }
        },
        BundleCommands::Verify { bundle: _ } => {
            stages.push(Stage::Verify);
        },
        BundleCommands::Install { bundle, persist: _, apply, allow_unsigned: _ } => {
            match bundle {
                Source::Stored => {
                    stages.push(Stage::Restore);
                },
                _ => {
                    stages.push(Stage::Install);
                },
            }
            if *apply {
                add_run(&mut stages, dry_run);
            }
        },
        BundleCommands::Restore { apply } => {
            stages.push(Stage::Restore);
            if *apply {
                add_run(&mut stages, dry_run);
            }
        },
        BundleCommands::Status => {
            stages.push(Stage::Status);
        },
        BundleCommands::Remove => {
            stages.push(Stage::Remove);
        },
    }
    assert(stages@ =~= bundle_stages(command@, dry_run));
    stages
}

/// The tree that a bundle is built out of: the one that was named, or the directory
/// that the command was run in.
pub fn tree(dir: Option<&str>) -> (r: &str)
    ensures
        r@ == (match dir {
            Some(dir) => dir@,
            None => "."@,
        }),
{
    match dir {
        Some(dir) => dir,
        None => ".",
    }
}

/// What the failure of a stage means.
pub enum Weight {
    /// The command goes no further.
    Stops,
    /// The command reports it and nothing more: its end says what happened to the
    /// system, and not what happened to the bookkeeping.
    Reports(Seq<char>),
}

/// What the failure of a stage means.
pub open spec fn weight(stage: Stage) -> Weight {
    match stage {
        Stage::Found => Weight::Reports("Cannot record the state of the system: "@),
        Stage::Applied => Weight::Reports("Cannot record the state of the system: "@),
        Stage::Dump => Weight::Reports("Cannot write what the run did: "@),
        _ => Weight::Stops,
    }
}

/// A command that is under way, as plain values.
pub struct Trail {
    pub stages: Seq<Stage>,
    pub at: nat,
    pub end: Result<(), Seq<char>>,
}

/// A command before its first stage.
pub open spec fn embarked(stages: Seq<Stage>) -> Trail {
    Trail { stages, at: 0, end: Ok(()) }
}

/// A command after one more stage, and what is reported of it.
pub open spec fn passed(t: Trail, r: Result<(), Seq<char>>) -> (Trail, Option<Seq<char>>) {
    match r {
        Ok(_) => (Trail { at: t.at + 1, ..t }, None),
        Err(e) => match weight(t.stages[t.at as int]) {
            Weight::Stops => (Trail { at: t.stages.len(), end: Err(e), ..t }, None),
            Weight::Reports(what) => (Trail { at: t.at + 1, ..t }, Some(what + e)),
        },
    }
}

/// A command that is under way.
pub struct Journey {
    stages: Vec<Stage>,
    at: usize,
    end: Result<(), String>,
}

impl View for Journey {
    type V = Trail;

    closed spec fn view(&self) -> Trail {
        Trail { stages: self.stages@, at: self.at as nat, end: var::outcome(self.end) }
    }
}

impl Journey {
    /// Whether the command is at one of its stages, or past the last.
    pub open spec fn wf(&self) -> bool {
        self@.at <= self@.stages.len()
    }

    /// Start a command.
    pub fn start(stages: Vec<Stage>) -> (r: Self)
        ensures
            r@ == embarked(stages@),
            r.wf(),
    {
        Journey { stages, at: 0, end: Ok(()) }
    }

    /// The stage that comes next, when there is one.
    pub fn next(&self) -> (r: Option<Stage>)
        requires
            self.wf(),
        ensures
            r == (if self@.at < self@.stages.len() {
                Some(self@.stages[self@.at as int])
            } else {
                None
            }),
    {
        if self.at < self.stages.len() {
            Some(self.stages[self.at])
        } else {
            None
        }
    }

    /// Pass the next stage, by what came of it, and say what there is to report of
    /// it.
    pub fn pass(&mut self, r: Result<(), String>) -> (report: Option<String>)
        requires
            old(self).wf(),
            old(self)@.at < old(self)@.stages.len(),
        ensures
            final(self).wf(),
            (final(self)@, text::text_of(report)) == passed(old(self)@, var::outcome(r)),
    {
        let count: usize = self.stages.len();
        assert(self.at < count);
        let stage = self.stages[self.at];
        match r {
            Ok(_) => {
                self.at = self.at + 1;
                None
            },
            Err(e) => match stage {
                Stage::Found | Stage::Applied => {
                    self.at = self.at + 1;
                    let mut m = "Cannot record the state of the system: ".to_owned();
                    m.append(e.as_str());
                    Some(m)
                },
                Stage::Dump => {
                    self.at = self.at + 1;
                    let mut m = "Cannot write what the run did: ".to_owned();
                    m.append(e.as_str());
                    Some(m)
                },
                _ => {
                    self.at = count;
                    self.end = Err(e);
                    None
                },
            },
        }
    }

    /// How the command ended.
    pub fn end(self) -> (r: Result<(), String>)
        ensures
            var::outcome(r) == self@.end,
    {
        self.end
    }
}

/// A command after the stages that it reached of the first `n`, by what came of each
/// of them.
pub open spec fn travelled(
    stages: Seq<Stage>,
    results: Seq<Result<(), Seq<char>>>,
    n: nat,
) -> Trail
    decreases n,
{
    if n == 0 {
        embarked(stages)
    } else {
        let t = travelled(stages, results, (n - 1) as nat);
        if t.at < stages.len() {
            passed(t, results[n - 1]).0
        } else {
            t
        }
    }
}

/// Whether a stage changes the system, or anything else of the machine, by itself.  One
/// that installs a bundle, puts bundles back or takes one away does the tasks that were
/// decided for it and nothing else.
pub open spec fn acts(stage: Stage) -> bool {
    match stage {
        Stage::Lock => true,
        Stage::Found => true,
        Stage::Converge => true,
        Stage::Applied => true,
        Stage::Dump => true,
        Stage::Send => true,
        Stage::Write => true,
        _ => false,
    }
}

/// A dry run leaves the system alone.  It goes through no stage that changes the system
/// by itself: it neither waits for the other runs, nor converges anything, nor records
/// that it was there, nor writes what was built.  And no task is decided for the stages
/// that install a bundle, put bundles back or take one away.
pub proof fn law_a_dry_run_leaves_the_system_alone(
    verb: BundleVerb,
    i: int,
    root: Seq<char>,
    l: Load,
    holdings: Seq<Holding>,
    list: Look,
    name: Seq<char>,
    trial: Trial,
    installed: Found,
    kept: Found,
)
    ensures
        0 <= i < run_stages(true).len() ==> !acts(run_stages(true)[i]),
        0 <= i < bundle_stages(verb, true).len() ==> !acts(bundle_stages(verb, true)[i]),
        installing(root, l, holdings, list, true) matches Ok((_, jobs)) ==> jobs.len() == 0,
        reinstalling(root, name, trial, true) matches Ok((_, jobs)) ==> jobs.len() == 0,
        removing(root, name, installed, kept, list, true) matches Ok(Some((_, jobs)))
            ==> jobs.len() == 0,
{
}

/// A run that converges the system has it for itself: it waits for the others before
/// any other stage, and everything that it does to the system and records of it comes
/// after that.
pub proof fn law_a_run_has_the_system_for_itself(i: int)
    requires
        0 <= i < run_stages(false).len(),
    ensures
        run_stages(false)[i] == Stage::Lock <==> i == 0,
{
}

/// A run is judged once everything that it did is recorded.
pub proof fn law_a_run_is_judged_once_it_is_recorded(i: int)
    requires
        0 <= i < run_stages(false).len(),
    ensures
        run_stages(false)[i] == Stage::Judge <==> i == run_stages(false).len() - 1,
{
}

/// Whether two results differ at most in what came of the bookkeeping.
pub open spec fn but_for_the_bookkeeping(
    stages: Seq<Stage>,
    a: Seq<Result<(), Seq<char>>>,
    b: Seq<Result<(), Seq<char>>>,
) -> bool {
    forall|i: int|
        0 <= i < stages.len() ==> weight(#[trigger] stages[i]) is Reports || a[i] == b[i]
}

proof fn lemma_travelled(stages: Seq<Stage>, results: Seq<Result<(), Seq<char>>>, n: nat)
    requires
        n <= stages.len(),
    ensures
        ({
            let t = travelled(stages, results, n);
            t.stages == stages && (t.at == n || t.at == stages.len())
        }),
    decreases n,
{
    if n > 0 {
        lemma_travelled(stages, results, (n - 1) as nat);
    }
}

/// How a command ends says what happened to the system, and not what happened to the
/// bookkeeping: a record that cannot be written changes neither the stages that are
/// gone through nor the end.
pub proof fn law_bookkeeping_does_not_decide(
    stages: Seq<Stage>,
    a: Seq<Result<(), Seq<char>>>,
    b: Seq<Result<(), Seq<char>>>,
    n: nat,
)
    requires
        n <= stages.len(),
        but_for_the_bookkeeping(stages, a, b),
    ensures
        travelled(stages, a, n) == travelled(stages, b, n),
    decreases n,
{
    if n > 0 {
        law_bookkeeping_does_not_decide(stages, a, b, (n - 1) as nat);
        lemma_travelled(stages, a, (n - 1) as nat);
        let stage = stages[n - 1];
        assert(weight(stage) is Reports || a[n - 1] == b[n - 1]);
    }
}

/// A run takes the lock, puts back what is missing, plans, records what it
/// found, applies, records what it did, and only then judges itself; a trial
/// plans and says what it would do.
pub proof fn law_a_run_goes_through_its_stages()
    ensures
        run_stages(false) == seq![
            Stage::Lock,
            Stage::Recover,
            Stage::Plan,
            Stage::Found,
            Stage::Converge,
            Stage::Applied,
            Stage::Dump,
            Stage::Judge,
        ],
        run_stages(true) == seq![Stage::Recover, Stage::Plan, Stage::Foretell],
        run_if(false, false).len() == 0,
        run_if(false, true).len() == 0,
        run_if(true, false) == run_stages(false),
        run_if(true, true) == run_stages(true),
{
}

/// A bundle is built before it is written or sent, is installed or put back
/// before the system is applied, and is applied only where that is asked for.
pub proof fn law_bundles_go_through_their_stages(
    verb: BundleVerb,
    source: Locator,
    persist: bool,
    apply: bool,
    allow_unsigned: bool,
    dry_run: bool,
)
    ensures
        ({
            let install = bundle_stages(
                BundleVerb::Install { bundle: source, persist, apply, allow_unsigned },
                dry_run,
            );
            &&& install.len() > 0
            &&& source is Stored ==> install[0] == Stage::Restore
            &&& !(source is Stored) ==> install[0] == Stage::Install
            &&& !apply ==> install.len() == 1
            &&& apply ==> install.drop_first() == run_stages(dry_run)
        }),
        !apply ==> bundle_stages(BundleVerb::Restore { apply }, dry_run) == seq![Stage::Restore],
        apply ==> bundle_stages(BundleVerb::Restore { apply }, dry_run) == seq![Stage::Restore]
            + run_stages(dry_run),
        verb is Create ==> bundle_stages(verb, dry_run)[0] == Stage::Build,
        verb is Create && dry_run ==> bundle_stages(verb, dry_run) == seq![Stage::Build, Stage::Tell],
        verb is Create && !dry_run && is_output(verb->output) ==> bundle_stages(verb, dry_run) == seq![
            Stage::Build,
            Stage::Send,
        ],
        verb is Create && !dry_run && !is_output(verb->output) ==> bundle_stages(verb, dry_run)
            == seq![Stage::Build, Stage::Write, Stage::Tell],
        verb is Verify ==> bundle_stages(verb, dry_run) == seq![Stage::Verify],
        verb is Status ==> bundle_stages(verb, dry_run) == seq![Stage::Status],
        verb is Remove ==> bundle_stages(verb, dry_run) == seq![Stage::Remove],
        is_output("-"@),
{
    if apply {
        let install = bundle_stages(
            BundleVerb::Install { bundle: source, persist, apply, allow_unsigned },
            dry_run,
        );
        assert(install.drop_first() =~= run_stages(dry_run));
    }
    assert(bundle_stages(BundleVerb::Restore { apply: false }, dry_run) =~= seq![Stage::Restore]);
}

/// A stage that fails ends the verb with its error, unless it is bookkeeping,
/// of which the failure is reported and the verb goes on.
pub proof fn law_a_stage_that_fails_ends_the_verb(t: Trail, e: Seq<char>)
    requires
        t.at < t.stages.len(),
    ensures
        ({
            let stage = t.stages[t.at as int];
            let kept = stage == Stage::Found || stage == Stage::Applied || stage == Stage::Dump;
            &&& passed(t, Ok(())).0.at == t.at + 1
            &&& passed(t, Ok(())).0.end == t.end
            &&& passed(t, Ok(())).1 is None
            &&& passed(t, Err(e)).0.stages == t.stages
            &&& kept ==> passed(t, Err(e)).0.at == t.at + 1 && passed(t, Err(e)).0.end == t.end && passed(
                t,
                Err(e),
            ).1 is Some
            &&& !kept ==> passed(t, Err(e)).0.at == t.stages.len() && passed(t, Err(e)).0.end == Err::<
                (),
                Seq<char>,
            >(e) && passed(t, Err(e)).1 is None
        }),
{
}

} // verus!
