//! What the last run did to the system, in one document that anything can read.
//!
//! It holds every object the run looked at and what happened to it, and for the ones
//! that moved it holds the content as well: the configuration file before and after,
//! the state the provider reported and the state it was asked for.  An object that was
//! already in sync is listed with its action and nothing else.

use vstd::prelude::*;

use crate::apply::{moment, moment_of, planned_text, steps, taken_text};
use crate::apply::{Action, Change, Moment, Phase, Plan, Snapshot, Step};
use crate::path;
use crate::provider::{json_of, said, said_again};
use crate::text;
use crate::value;
use crate::value::{Datum, Json};
use crate::var::Read;

verus! {

/// Where the dump is written, beside the journal.
pub const LAST: &'static str = "var/lib/detc/last.yaml";

/// The dump holds the content of the files that moved, so it is readable by exactly
/// whoever can already read those.
pub const MODE: u32 = 0o600;

/// Where a run of `detc` says what it did.
pub fn path(root: &str) -> (r: String)
    ensures
        r@ == path::joined(root@, LAST@),
{
    path::join(root, LAST)
}

/// One object of the system, and what the run did to it.
pub struct Object {
    pub kind: String,
    pub name: String,
    /// What the run worked out that the object needed.
    pub planned: String,
    /// What the run did about it: `error` when it could not, and `skipped` when it did
    /// not try, because something the object named had not worked.
    pub taken: String,
    /// Why the object is not the way it is declared.
    pub error: Option<String>,
    /// The configuration file as the run found it, and as the run left it.
    pub before: Option<String>,
    pub after: Option<String>,
    /// The state that the declaration asked the provider for.
    pub desired: Option<Vec<(String, Datum)>>,
    /// The state that the provider reported before the run, and after it.
    pub found: Option<Datum>,
    pub reached: Option<Datum>,
}

/// One object of the system and what the run did to it, as plain values.
pub struct Deed {
    pub kind: Seq<char>,
    pub name: Seq<char>,
    pub planned: Seq<char>,
    pub taken: Seq<char>,
    pub error: Option<Seq<char>>,
    pub before: Option<Seq<char>>,
    pub after: Option<Seq<char>>,
    pub desired: Option<Map<Seq<char>, Json>>,
    pub found: Option<Json>,
    pub reached: Option<Json>,
}

/// An optional state, as plain values.
pub open spec fn members_of(d: Option<Vec<(String, Datum)>>) -> Option<Map<Seq<char>, Json>> {
    match d {
        Some(d) => Some(value::members(d@)),
        None => None,
    }
}

impl View for Object {
    type V = Deed;

    open spec fn view(&self) -> Deed {
        Deed {
            kind: self.kind@,
            name: self.name@,
            planned: self.planned@,
            taken: self.taken@,
            error: text::text_of(self.error),
            before: text::text_of(self.before),
            after: text::text_of(self.after),
            desired: members_of(self.desired),
            found: json_of(self.found),
            reached: json_of(self.reached),
        }
    }
}

/// Objects, as plain values.
pub open spec fn deeds(s: Seq<Object>) -> Seq<Deed> {
    Seq::new(s.len(), |i: int| s[i]@)
}

/// What an object was before the run touched it, by what was read of its source.  A
/// change that only says that nothing has to happen says it with the action alone, and
/// a broken one has no state to report at all.
pub open spec fn before_of(step: Step, read: Result<Seq<char>, Seq<char>>) -> Deed {
    let plain = Deed {
        kind: step.kind,
        name: step.name,
        planned: planned_text(step.action),
        taken: Seq::empty(),
        error: None,
        before: None,
        after: None,
        desired: None,
        found: None,
        reached: None,
    };
    if step.action == Action::InSync {
        plain
    } else {
        match moment_of(step, Phase::Found, read) {
            Ok(Some(Moment::Template { content, .. })) => Deed { before: content, ..plain },
            Ok(Some(Moment::Resource { desired, state, .. })) => Deed {
                desired: Some(desired),
                found: state,
                ..plain
            },
            Ok(None) => plain,
            Err(e) => Deed { error: Some(e), ..plain },
        }
    }
}

/// What the run left an object as, by what was read of its source.
pub open spec fn after_of(deed: Deed, step: Step, read: Result<Seq<char>, Seq<char>>) -> Deed {
    let (taken, error) = match (step.skipped, step.error) {
        (Some(requirement), _) => (
            "skipped"@,
            Some("requires "@ + requirement + ", which was not applied"@),
        ),
        (None, Some(e)) => ("error"@, Some(e)),
        (None, None) => (taken_text(step.action), deed.error),
    };
    let done = Deed { taken, error, ..deed };
    if step.action == Action::InSync {
        done
    } else {
        match moment_of(step, Phase::Applied, read) {
            Ok(Some(Moment::Template { content, .. })) => Deed { after: content, ..done },
            Ok(Some(Moment::Resource { state, .. })) => Deed { reached: state, ..done },
            Ok(None) => done,
            Err(e) => if done.error is Some {
                done
            } else {
                Deed { error: Some(e), ..done }
            },
        }
    }
}

/// What the object was before the run touched it, by what was read of its source.
pub fn before(change: &Change, read: &Read) -> (r: Object)
    ensures
        r@ == before_of(change@, said(*read)),
{
    let mut object = Object {
        kind: change.kind().to_owned(),
        name: change.name().to_owned(),
        planned: change.action().planned().to_owned(),
        taken: String::new(),
        error: None,
        before: None,
        after: None,
        desired: None,
        found: None,
        reached: None,
    };
    assert(object.taken@ =~= Seq::empty());
    if !change.action().changes() {
        return object;
    }
    match change.snapshot(Phase::Found, said_again(read)) {
        Ok(Some(Snapshot::Template { target: _, template: _, content })) => {
            object.before = content;
        },
        Ok(
            Some(Snapshot::Resource { kind: _, name: _, order: _, declared: _, desired, state }),
        ) => {
            object.desired = Some(desired);
            object.found = state;
        },
        Ok(None) => {},
        Err(e) => {
            object.error = Some(e);
        },
    }
    object
}

/// What the run left the object as, by what was read of its source.
pub fn after(object: &mut Object, change: &Change, read: &Read)
    ensures
        final(object)@ == after_of(old(object)@, change@, said(*read)),
{
    match (change.skipped(), change.error()) {
        (Some(requirement), _) => {
            let mut e = "requires ".to_owned();
            e.append(requirement);
            e.append(", which was not applied");
            object.error = Some(e);
            object.taken = "skipped".to_owned();
        },
        (None, Some(e)) => {
            object.error = Some(e.to_owned());
            object.taken = "error".to_owned();
        },
        (None, None) => {
            object.taken = change.action().taken().to_owned();
        },
    }
    if !change.action().changes() {
        return ;
    }
    match change.snapshot(Phase::Applied, said_again(read)) {
        Ok(Some(Snapshot::Template { target: _, template: _, content })) => {
            object.after = content;
        },
        Ok(
            Some(Snapshot::Resource { kind: _, name: _, order: _, declared: _, desired: _, state }),
        ) => {
            object.reached = state;
        },
        Ok(None) => {},
        Err(e) => {
            if object.error.is_none() {
                object.error = Some(e);
            }
        },
    }
}

/// One run, as the document holds it.
pub struct Run {
    /// The subcommand that was asked for.
    pub command: String,
    /// Whether the run looked at the whole system.
    pub complete: bool,
    /// How many objects could not be applied.  An object that was skipped is not one of
    /// them.
    pub failed: usize,
    /// The objects, in the order in which they were applied.
    pub objects: Vec<Object>,
}

/// The system as the run found it, kept until the run is over.
///
/// It has to be taken before anything is applied: a provider reports one state, the
/// last one it was asked about.
pub struct Last {
    objects: Vec<Object>,
}

impl View for Last {
    type V = Seq<Deed>;

    closed spec fn view(&self) -> Seq<Deed> {
        deeds(self.objects@)
    }
}

/// What objects were before a run.
pub open spec fn all_before(plan: Seq<Step>, reads: Seq<Read>) -> Seq<Deed> {
    Seq::new(plan.len(), |i: int| before_of(plan[i], said(reads[i])))
}

/// What a run left objects as.
pub open spec fn all_after(deeds: Seq<Deed>, plan: Seq<Step>, reads: Seq<Read>) -> Seq<Deed> {
    Seq::new(plan.len(), |i: int| after_of(deeds[i], plan[i], said(reads[i])))
}

/// How many objects could not be applied.
pub open spec fn failed_in(plan: Seq<Step>) -> nat
    decreases plan.len(),
{
    if plan.len() == 0 {
        0
    } else {
        failed_in(plan.drop_last()) + if plan.last().error is Some {
            1nat
        } else {
            0nat
        }
    }
}

impl Last {
    /// Take the state of every object of the plan, before any of it is applied, by what
    /// was read of their sources.
    pub fn found(plan: &Plan, reads: &Vec<Read>) -> (r: Self)
        requires
            reads@.len() == plan@.len(),
        ensures
            r@ == all_before(plan@, reads@),
    {
        let ghost want = all_before(plan@, reads@);
        let changes = plan.changes();
        let mut objects: Vec<Object> = Vec::new();
        let n: usize = changes.len();
        let mut i: usize = 0;
        assert(steps(changes@).len() == changes@.len());
        assert(deeds(objects@) =~= want.take(0));
        while i < n
            invariant
                i <= n == changes@.len(),
                steps(changes@) == plan@,
                reads@.len() == plan@.len(),
                n == plan@.len(),
                want == all_before(plan@, reads@),
                deeds(objects@) == want.take(i as int),
            decreases n - i,
        {
            let ghost had = deeds(objects@);
            assert(plan@[i as int] == changes@[i as int]@);
            let object = before(&changes[i], &reads[i]);
            assert(object@ == want[i as int]);
            objects.push(object);
            assert(deeds(objects@) =~= had.push(object@));
            assert(had.push(object@) =~= want.take(i + 1));
            i += 1;
        }
        assert(want.take(i as int) =~= want);
        Last { objects }
    }

    /// Add what the run left behind, by what was read of the sources of its objects.
    ///
    /// The plan is the one that the run started with, still in the same order, so the
    /// objects line up by position.
    pub fn finish(self, command: &str, full: bool, plan: &Plan, reads: &Vec<Read>) -> (r: Result<
        Run,
        String,
    >)
        requires
            reads@.len() == plan@.len(),
        ensures
            if self@.len() != plan@.len() {
                r is Err && r->Err_0@ == "The plan is not the one the run started with"@
            } else {
                r matches Ok(run) && run.command@ == command@ && run.complete == full && run.failed
                    == failed_in(plan@) && deeds(run.objects@) == all_after(self@, plan@, reads@)
            },
    {
        let ghost was = self@;
        let ghost whole = plan@;
        let changes = plan.changes();
        let n: usize = changes.len();
        assert(steps(changes@).len() == changes@.len());
        assert(deeds(self.objects@).len() == self.objects@.len());
        if self.objects.len() != n {
            return Err("The plan is not the one the run started with".to_owned());
        }
        let ghost want = all_after(was, whole, reads@);
        let mut objects: Vec<Object> = Vec::new();
        let mut failed: usize = 0;
        let mut i: usize = 0;
        assert(deeds(objects@) =~= want.take(0));
        for object in it: self.objects
            invariant
                i == it.index(),
                it.seq().len() == n,
                deeds(it.seq()) == was,
                n == changes@.len(),
                steps(changes@) == whole,
                whole == plan@,
                n == whole.len(),
                reads@.len() == whole.len(),
                want == all_after(was, whole, reads@),
                deeds(objects@) == want.take(i as int),
                failed == failed_in(whole.take(i as int)),
                failed <= i,
        {
            let ghost had = deeds(objects@);
            proof {
                assert(whole.take(i + 1).drop_last() =~= whole.take(i as int));
                assert(whole.take(i + 1).last() == changes@[i as int]@);
                assert(was[i as int] == object@);
            }
            let mut object = object;
            after(&mut object, &changes[i], &reads[i]);
            assert(object@ == want[i as int]);
            if changes[i].error().is_some() {
                failed += 1;
            }
            objects.push(object);
            assert(deeds(objects@) =~= had.push(object@));
            assert(had.push(object@) =~= want.take(i + 1));
            i += 1;
        }
        assert(want.take(i as int) =~= want);
        assert(whole.take(i as int) =~= whole);
        Ok(Run { command: command.to_owned(), complete: full, failed, objects })
    }
}

/// What is recorded of an object before a run is what was planned for it, and
/// what was found of it unless it was in sync already.
pub proof fn law_what_was_found_is_recorded(step: Step, written: Seq<char>)
    ensures
        ({
            let deed = before_of(step, Ok(written));
            &&& deed.kind == step.kind
            &&& deed.name == step.name
            &&& deed.planned == planned_text(step.action)
            &&& deed.taken.len() == 0
            &&& deed.error is None
            &&& deed.after is None && deed.reached is None
            &&& step.action == Action::InSync ==> deed.before is None && deed.desired is None
                && deed.found is None
            &&& step.action != Action::InSync && step.target is Template ==> deed.before
                == step.target->Template_found && deed.desired is None && deed.found is None
            &&& step.action != Action::InSync && step.target is Resource ==> deed.before is None
                && deed.desired == Some(step.target->desired) && deed.found
                == step.target->Resource_current
            &&& step.target is Broken ==> deed.before is None && deed.desired is None
                && deed.found is None
        }),
{
}

/// What is recorded of an object after a run is what was done to it, and the
/// error of it where there is one; what was recorded before stays.
pub proof fn law_what_was_done_is_recorded(deed: Deed, step: Step, written: Seq<char>)
    ensures
        ({
            let after = after_of(deed, step, Ok(written));
            &&& after.kind == deed.kind && after.name == deed.name && after.planned == deed.planned
            &&& after.before == deed.before && after.desired == deed.desired && after.found
                == deed.found
            &&& step.skipped matches Some(id) ==> after.taken == "skipped"@ && after.error == Some(
                "requires "@ + id + ", which was not applied"@,
            )
            &&& step.skipped is None && step.error is Some ==> after.taken == "error"@ && after.error
                == step.error
            &&& step.skipped is None && step.error is None ==> after.taken == taken_text(step.action)
                && after.error == deed.error
            &&& step.action != Action::InSync && step.target is Template && step.error is None
                && step.skipped is None ==> after.after == Some(step.target->Template_content)
            &&& step.action != Action::InSync && step.target is Template && (step.error is Some
                || step.skipped is Some) ==> after.after == step.target->Template_found
            &&& step.action != Action::InSync && step.target is Resource ==> after.reached
                == step.target->Resource_current
            &&& step.action == Action::InSync ==> after.after == deed.after && after.reached
                == deed.reached
        }),
{
}

/// Every object of a plan is recorded in its place.
pub proof fn law_every_object_is_recorded(plan: Seq<Step>, reads: Seq<Read>, deeds: Seq<Deed>, i: int)
    requires
        0 <= i < plan.len(),
    ensures
        all_before(plan, reads).len() == plan.len(),
        all_before(plan, reads)[i] == before_of(plan[i], said(reads[i])),
        all_after(deeds, plan, reads).len() == plan.len(),
        all_after(deeds, plan, reads)[i] == after_of(deeds[i], plan[i], said(reads[i])),
{
}

/// The failures of a run are the objects that have an error.
pub proof fn law_failures_are_the_objects_with_an_error(plan: Seq<Step>, step: Step)
    ensures
        failed_in(Seq::empty()) == 0,
        step.error is Some ==> failed_in(plan.push(step)) == failed_in(plan) + 1,
        step.error is None ==> failed_in(plan.push(step)) == failed_in(plan),
{
    assert(plan.push(step).drop_last() =~= plan);
}

} // verus!
