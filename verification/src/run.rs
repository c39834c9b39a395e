//! A run of `detc apply`: what it looks at, the turn that each object takes, and
//! what it has to say of them.
//!
//! A run decides, and whoever drives it does the work: it asks for the next
//! object, tries what the object takes, and hands back what came of it.

use vstd::prelude::*;

use crate::apply::{attempted, planned_text, steps, suits, summary_of, taken_text};
use crate::apply::{Action, Attempt, Change, Effort, Plan, Step};
use crate::bundle::{account, accounts, Account, Bundle, Identity, Outcome};
use crate::objects::{meant, meant_kind, Speech, Told};
use crate::record::{kind_name, line_of, sayings, Record, Saying, Type};
use crate::text;
use crate::var;

verus! {

/// The types of object that a run looks at, or why it does not run: what the
/// objects that are applied are made of is not applied.
pub open spec fn applicable_kind(kind: Option<Type>, file: bool) -> Result<Option<Type>, Seq<char>> {
    match meant(kind, file) {
        Some(kind) => match kind {
            Type::Probe | Type::Provider | Type::Variable => Err(
                "A "@ + kind_name(kind)
                    + " is not applied, it is what the objects that are applied are made of"@,
            ),
            _ => Ok(Some(kind)),
        },
        None => Ok(None),
    }
}

/// The types of object that a run looks at, or why it does not run.
pub fn applicable(kind: Option<Type>, file: bool) -> (r: Result<Option<Type>, String>)
    ensures
        var::outcome(r) == applicable_kind(kind, file),
{
    match meant_kind(kind, file) {
        Some(kind) => match kind {
            Type::Probe | Type::Provider | Type::Variable => {
                let mut e = "A ".to_owned();
                e.append(kind.name());
                e.append(" is not applied, it is what the objects that are applied are made of");
                Err(e)
            },
            _ => Ok(Some(kind)),
        },
        None => Ok(None),
    }
}

/// Whether a run of this type looks at the templates, and whether it looks at the
/// resources.
pub open spec fn looked_for(kind: Option<Type>) -> (bool, bool) {
    (kind != Some(Type::Resource), kind != Some(Type::Template))
}

/// Whether a run looked at the whole system.
pub open spec fn is_whole(kind: Option<Type>, file: bool) -> bool {
    kind is None && !file
}

/// A run looks at templates and at resources unless it is of the other type,
/// and only a run that is given neither a type nor an object looks at the
/// whole system.
pub proof fn law_a_run_looks_at_what_it_is_of(kind: Option<Type>)
    ensures
        looked_for(None) == (true, true),
        looked_for(Some(Type::Template)) == (true, false),
        looked_for(Some(Type::Resource)) == (false, true),
        is_whole(None, false),
        !is_whole(kind, true),
        kind is Some ==> !is_whole(kind, false),
{
}

/// Whether a run of this type looks at the templates, and whether it looks at the
/// resources.
pub fn looks_at(kind: Option<Type>) -> (r: (bool, bool))
    ensures
        r == looked_for(kind),
        r.0 == (kind != Some(Type::Resource)),
        r.1 == (kind != Some(Type::Template)),
{
    match kind {
        Some(Type::Resource) => (false, true),
        Some(Type::Template) => (true, false),
        _ => (true, true),
    }
}

/// Whether a run looked at the whole system.  One that was given an object has
/// only looked at that one, so it cannot say that the rest of the system is gone.
pub fn is_full(kind: Option<Type>, file: bool) -> (r: bool)
    ensures
        r == is_whole(kind, file),
        r == (kind is None && !file),
{
    kind.is_none() && !file
}

/// How an object is written down.
pub open spec fn object_of(step: Step) -> Seq<char> {
    step.kind + "\t"@ + step.name
}

/// One entry of a plan: what happens, the object it happens to, and, for a
/// resource, the properties that are not the way they are declared.
pub open spec fn change_saying(status: Seq<char>, step: Step) -> Saying {
    Saying::Change {
        action: status,
        object: object_of(step),
        summary: if summary_of(step).len() == 0 {
            None
        } else {
            Some(summary_of(step))
        },
        error: None,
    }
}

/// One entry of a plan.
pub fn change_record(status: &str, change: &Change) -> (r: Record)
    ensures
        r@ == change_saying(status@, change@),
{
    let summary = change.summary();
    let empty = summary.as_str().is_empty();
    let summary = if empty {
        None
    } else {
        Some(summary)
    };
    Record::Change { action: status.to_owned(), object: change.line(), summary, error: None }
}

/// What a run is about to do, object by object.
pub open spec fn plan_sayings(plan: Seq<Step>) -> Seq<Saying> {
    Seq::new(plan.len(), |i: int| change_saying(planned_text(plan[i].action), plan[i]))
}

/// The plan of a run, printed instead of carried out.
pub fn drift(plan: &Plan) -> (r: Vec<Record>)
    ensures
        sayings(r@) == plan_sayings(plan@),
{
    let ghost want = plan_sayings(plan@);
    let changes = plan.changes();
    let mut r: Vec<Record> = Vec::new();
    let n: usize = changes.len();
    let mut i: usize = 0;
    assert(sayings(r@) =~= want.take(0));
    while i < n
        invariant
            i <= n == changes@.len(),
            steps(changes@) == plan@,
            want == plan_sayings(plan@),
            sayings(r@) == want.take(i as int),
        decreases n - i,
    {
        let ghost had = sayings(r@);
        assert(plan@[i as int] == changes@[i as int]@);
        let record = change_record(changes[i].action().planned(), &changes[i]);
        assert(record@ == want[i as int]);
        r.push(record);
        assert(sayings(r@) =~= had.push(record@));
        assert(had.push(record@) =~= want.take(i + 1));
        i += 1;
    }
    assert(want.take(i as int) =~= want);
    r
}

/// The lines of what a run is about to do to the objects that are not the way they
/// are declared.
pub open spec fn planned_lines(plan: Seq<Step>) -> Seq<Seq<char>>
    decreases plan.len(),
{
    if plan.len() == 0 {
        Seq::empty()
    } else {
        let before = planned_lines(plan.drop_last());
        let step = plan.last();
        if step.action == Action::InSync {
            before
        } else {
            before.push(line_of(change_saying(planned_text(step.action), step)))
        }
    }
}

/// What a run is about to do, for the body of the message of the first of the two
/// commits that it writes.
pub fn planned(plan: &Plan) -> (r: Vec<String>)
    ensures
        text::texts(r@) == planned_lines(plan@),
{
    let ghost all = plan@;
    let changes = plan.changes();
    let mut r: Vec<String> = Vec::new();
    let n: usize = changes.len();
    let mut i: usize = 0;
    assert(text::texts(r@) =~= Seq::empty());
    while i < n
        invariant
            i <= n == changes@.len(),
            all == plan@,
            steps(changes@) == all,
            text::texts(r@) == planned_lines(all.take(i as int)),
        decreases n - i,
    {
        proof {
            assert(all.take(i + 1).drop_last() =~= all.take(i as int));
            assert(all.take(i + 1).last() == changes@[i as int]@);
        }
        if changes[i].action().changes() {
            let ghost had = text::texts(r@);
            let line = change_record(changes[i].action().planned(), &changes[i]).line();
            r.push(line);
            assert(text::texts(r@) =~= had.push(line@));
        }
        i += 1;
    }
    assert(all.take(i as int) =~= all);
    r
}

/// A run that is under way, as plain values: its objects, how many of them have had
/// their turn, those that did not work, how many could not be applied, and the lines
/// of those that were not the way they are declared.
pub struct Course {
    pub steps: Seq<Step>,
    pub at: nat,
    pub unsatisfied: Seq<Seq<char>>,
    pub failed: nat,
    pub lines: Seq<Seq<char>>,
}

/// The objects that could not be worked out.
pub open spec fn broken_ones(steps: Seq<Step>) -> Seq<Seq<char>>
    decreases steps.len(),
{
    if steps.len() == 0 {
        Seq::empty()
    } else {
        let before = broken_ones(steps.drop_last());
        if steps.last().action == Action::Broken {
            before.push(steps.last().id)
        } else {
            before
        }
    }
}

/// A run before its first turn.  An object that could not be worked out is known not to
/// work, wherever its turn is: its place in the order is none that it asked for.
pub open spec fn started(steps: Seq<Step>) -> Course {
    Course { steps, at: 0, unsatisfied: broken_ones(steps), failed: 0, lines: Seq::empty() }
}

/// The first requirement that did not work.
pub open spec fn blocked_by(required: Seq<Seq<char>>, unsatisfied: Seq<Seq<char>>) -> Option<
    Seq<char>,
>
    decreases required.len(),
{
    if required.len() == 0 {
        None
    } else {
        match blocked_by(required.drop_last(), unsatisfied) {
            Some(id) => Some(id),
            None => if unsatisfied.contains(required.last()) {
                Some(required.last())
            } else {
                None
            },
        }
    }
}

/// An object that had its turn, what is said of it, and whether it failed.
pub open spec fn turn_of(step: Step, unsatisfied: Seq<Seq<char>>, effort: Effort) -> (
    Step,
    Saying,
    bool,
) {
    match blocked_by(step.requires, unsatisfied) {
        Some(id) => (
            Step { skipped: Some(id), ..step },
            Saying::Change {
                action: "skipped"@,
                object: object_of(step),
                summary: Some("requires "@ + id + ", which was not applied"@),
                error: None,
            },
            false,
        ),
        None => {
            let (after, r) = attempted(step, effort);
            match r {
                Ok(_) => (after, change_saying(taken_text(step.action), after), false),
                Err(e) => (
                    after,
                    Saying::Change {
                        action: "error"@,
                        object: object_of(step),
                        summary: None,
                        error: Some(e),
                    },
                    true,
                ),
            }
        },
    }
}

/// A run after one more turn, and what is said of it.
pub open spec fn turned(c: Course, effort: Effort) -> (Course, Saying) {
    let step = c.steps[c.at as int];
    let (after, saying, failed) = turn_of(step, c.unsatisfied, effort);
    (
        Course {
            steps: c.steps.update(c.at as int, after),
            at: c.at + 1,
            unsatisfied: if after.error is Some || after.skipped is Some {
                c.unsatisfied.push(step.id)
            } else {
                c.unsatisfied
            },
            failed: c.failed + if failed {
                1nat
            } else {
                0nat
            },
            lines: if step.action == Action::InSync {
                c.lines
            } else {
                c.lines.push(line_of(saying))
            },
        },
        saying,
    )
}

/// A run that is under way.
pub struct Run {
    plan: Plan,
    at: usize,
    unsatisfied: Vec<String>,
    failed: u64,
    lines: Vec<String>,
}

impl View for Run {
    type V = Course;

    closed spec fn view(&self) -> Course {
        Course {
            steps: self.plan@,
            at: self.at as nat,
            unsatisfied: text::texts(self.unsatisfied@),
            failed: self.failed as nat,
            lines: text::texts(self.lines@),
        }
    }
}

/// What a run needs next.
pub enum Next<'a> {
    /// Every object has had its turn.
    Done,
    /// The next object waits for one that did not work, and is left alone.
    Skip,
    /// The work of the next object.
    Apply(&'a Change),
}

impl Run {
    /// Whether the counts of the run agree with each other.
    pub open spec fn wf(&self) -> bool {
        self@.at <= self@.steps.len() && self@.failed <= self@.at
    }

    /// Start a run of a plan.
    pub fn start(plan: Plan) -> (r: Self)
        ensures
            r@ == started(plan@),
            r.wf(),
    {
        let mut unsatisfied: Vec<String> = Vec::new();
        let lines: Vec<String> = Vec::new();
        assert(text::texts(lines@) =~= Seq::empty());
        let ghost all = plan@;
        let changes = plan.changes();
        let n: usize = changes.len();
        let mut i: usize = 0;
        assert(steps(changes@).len() == changes@.len());
        assert(text::texts(unsatisfied@) =~= broken_ones(all.take(0)));
        while i < n
            invariant
                i <= n == changes@.len(),
                all == steps(changes@),
                text::texts(unsatisfied@) == broken_ones(all.take(i as int)),
            decreases n - i,
        {
            proof {
                assert(all.take(i + 1).drop_last() =~= all.take(i as int));
                assert(all.take(i + 1).last() == changes@[i as int]@);
            }
            if changes[i].action() == Action::Broken {
                let ghost had = text::texts(unsatisfied@);
                unsatisfied.push(changes[i].id().to_owned());
                assert(text::texts(unsatisfied@) =~= had.push(changes@[i as int]@.id));
            }
            i += 1;
        }
        assert(all.take(i as int) =~= all);
        Run { plan, at: 0, unsatisfied, failed: 0, lines }
    }

    /// The plan, with what came of the objects that had their turn.
    pub fn plan(&self) -> (r: &Plan)
        ensures
            r@ == self@.steps,
    {
        &self.plan
    }

    /// The lines of the objects that were not the way they are declared, for the
    /// body of the message of the second of the two commits that a run writes.
    pub fn lines(&self) -> (r: &Vec<String>)
        ensures
            text::texts(r@) == self@.lines,
    {
        &self.lines
    }

    /// The first requirement of the next object that did not work.
    fn blocked(&self) -> (r: Option<String>)
        requires
            self@.at < self@.steps.len(),
        ensures
            text::text_of(r) == blocked_by(
                self@.steps[self@.at as int].requires,
                self@.unsatisfied,
            ),
    {
        let changes = self.plan.changes();
        assert(steps(changes@).len() == changes@.len());
        let required = changes[self.at].requirements();
        let ghost all = text::texts(required@);
        assert(all == self@.steps[self@.at as int].requires);
        let n: usize = required.len();
        let mut i: usize = 0;
        while i < n
            invariant
                i <= n == required@.len(),
                all == text::texts(required@),
                all == self@.steps[self@.at as int].requires,
                self@.unsatisfied == text::texts(self.unsatisfied@),
                blocked_by(all.take(i as int), self@.unsatisfied) is None,
            decreases n - i,
        {
            proof {
                assert(all.take(i + 1).drop_last() =~= all.take(i as int));
                assert(all.take(i + 1).last() == required@[i as int]@);
            }
            if text::listed(&self.unsatisfied, required[i].as_str()) {
                proof {
                    lemma_blocked_stays(all, self@.unsatisfied, i + 1);
                }
                return Some(required[i].clone());
            }
            i += 1;
        }
        assert(all.take(i as int) =~= all);
        None
    }

    /// What the run needs next.
    pub fn next(&self) -> (r: Next<'_>)
        requires
            self.wf(),
        ensures
            match r {
                Next::Done => self@.at == self@.steps.len(),
                Next::Skip => self@.at < self@.steps.len() && blocked_by(
                    self@.steps[self@.at as int].requires,
                    self@.unsatisfied,
                ) is Some,
                Next::Apply(change) => self@.at < self@.steps.len() && blocked_by(
                    self@.steps[self@.at as int].requires,
                    self@.unsatisfied,
                ) is None && change@ == self@.steps[self@.at as int],
            },
    {
        let changes = self.plan.changes();
        assert(steps(changes@).len() == changes@.len());
        if self.at >= changes.len() {
            return Next::Done;
        }
        if self.blocked().is_some() {
            return Next::Skip;
        }
        Next::Apply(&changes[self.at])
    }

    /// Give the next object its turn, by what came of the work that it takes; an
    /// object that waits for one that did not work is left alone whatever came of
    /// anything.
    ///
    /// An object that cannot be applied is reported and the rest is still applied.
    /// One that said what it was waiting for is skipped rather than applied against
    /// something that is not there, and is not counted as a failure: the object it
    /// waited on already is.
    pub fn turn(&mut self, attempt: Attempt) -> (r: Record)
        requires
            old(self).wf(),
            old(self)@.at < old(self)@.steps.len(),
            blocked_by(
                old(self)@.steps[old(self)@.at as int].requires,
                old(self)@.unsatisfied,
            ) is None ==> suits(old(self)@.steps[old(self)@.at as int], attempt@),
        ensures
            final(self).wf(),
            (final(self)@, r@) == turned(old(self)@, attempt@),
    {
        let ghost was = self@;
        let ghost step = was.steps[was.at as int];
        let blocked = self.blocked();
        let count: usize = self.plan.changes().len();
        let (object, changes, id) = {
            let all = self.plan.changes();
            assert(steps(all@).len() == all@.len());
            assert(count == was.steps.len());
            let change = &all[self.at];
            assert(change@ == step);
            (change.line(), change.action().changes(), change.id().to_owned())
        };
        let mut bad = false;
        let record = match blocked {
            Some(requirement) => {
                self.plan.skip(self.at, requirement.as_str());
                let mut summary = "requires ".to_owned();
                summary.append(requirement.as_str());
                summary.append(", which was not applied");
                Record::Change {
                    action: "skipped".to_owned(),
                    object,
                    summary: Some(summary),
                    error: None,
                }
            },
            None => {
                match self.plan.apply(self.at, attempt) {
                    Ok(_) => {
                        let all = self.plan.changes();
                        assert(steps(all@).len() == all@.len());
                        let change = &all[self.at];
                        assert(change@ == steps(all@)[self.at as int]);
                        assert(change@.action == step.action);
                        change_record(change.action().taken(), change)
                    },
                    Err(e) => {
                        bad = true;
                        Record::Change {
                            action: "error".to_owned(),
                            object,
                            summary: None,
                            error: Some(e),
                        }
                    },
                }
            },
        };
        let ghost after = turn_of(step, was.unsatisfied, attempt@).0;
        assert(self.plan@ == was.steps.update(was.at as int, after));
        let unmet = {
            let all = self.plan.changes();
            assert(steps(all@).len() == all@.len());
            let change = &all[self.at];
            assert(change@ == steps(all@)[self.at as int]);
            assert(change@ == after);
            change.error().is_some() || change.skipped().is_some()
        };
        if unmet {
            let ghost had = text::texts(self.unsatisfied@);
            self.unsatisfied.push(id);
            assert(text::texts(self.unsatisfied@) =~= had.push(step.id));
        }
        if changes {
            let ghost had = text::texts(self.lines@);
            let line = record.line();
            self.lines.push(line);
            assert(text::texts(self.lines@) =~= had.push(line_of(record@)));
        }
        self.at = self.at + 1;
        if bad {
            self.failed = self.failed + 1;
        }
        record
    }

    /// How the run ended.
    pub fn end(&self) -> (r: Result<(), String>)
        ensures
            var::outcome(r) == run_end(self@.failed),
    {
        if self.failed == 0 {
            return Ok(());
        }
        let mut e = text::decimal_of(self.failed);
        e.append(" object(s) could not be applied");
        Err(e)
    }
}

/// How a run ended, by how many objects could not be applied.
pub open spec fn run_end(failed: nat) -> Result<(), Seq<char>> {
    if failed == 0 {
        Ok(())
    } else {
        Err(text::decimal(failed) + " object(s) could not be applied"@)
    }
}

proof fn lemma_blocked_stays(required: Seq<Seq<char>>, unsatisfied: Seq<Seq<char>>, i: int)
    requires
        0 <= i <= required.len(),
        blocked_by(required.take(i), unsatisfied) is Some,
    ensures
        blocked_by(required, unsatisfied) == blocked_by(required.take(i), unsatisfied),
    decreases required.len() - i,
{
    if i == required.len() {
        assert(required.take(i) =~= required);
    } else {
        assert(required.take(i + 1).drop_last() =~= required.take(i));
        lemma_blocked_stays(required, unsatisfied, i + 1);
    }
}

/// A run after `n` turns, by what came of each of them.
pub open spec fn conducted(steps: Seq<Step>, efforts: Seq<Effort>, n: nat) -> Course
    decreases n,
{
    if n == 0 {
        started(steps)
    } else {
        turned(conducted(steps, efforts, (n - 1) as nat), efforts[n - 1]).0
    }
}

/// Whether an object did not work: it could not be applied, or it was left alone.
pub open spec fn did_not_work(step: Step) -> bool {
    step.error is Some || step.skipped is Some
}

/// Whether nothing has come of these objects yet.
pub open spec fn untried(steps: Seq<Step>) -> bool {
    forall|i: int| 0 <= i < steps.len() ==> !did_not_work(#[trigger] steps[i])
}

/// How many of the first `n` objects could not be applied.
pub open spec fn failures(steps: Seq<Step>, n: nat) -> nat
    decreases n,
{
    if n == 0 {
        0
    } else {
        failures(steps, (n - 1) as nat) + if steps[n - 1].error is Some {
            1nat
        } else {
            0nat
        }
    }
}

proof fn lemma_conducted(steps: Seq<Step>, efforts: Seq<Effort>, n: nat)
    requires
        n <= steps.len(),
    ensures
        conducted(steps, efforts, n).at == n,
        conducted(steps, efforts, n).steps.len() == steps.len(),
        forall|i: int|
            n <= i < steps.len() ==> (#[trigger] conducted(steps, efforts, n).steps[i]) == steps[i],
    decreases n,
{
    if n > 0 {
        lemma_conducted(steps, efforts, (n - 1) as nat);
    }
}

/// An object that had its turn stays as it is.
proof fn lemma_turn_stays(steps: Seq<Step>, efforts: Seq<Effort>, n: nat, m: nat, i: int)
    requires
        0 <= i < m <= n <= steps.len(),
    ensures
        conducted(steps, efforts, n).steps[i] == conducted(steps, efforts, m).steps[i],
    decreases n,
{
    if m < n {
        lemma_turn_stays(steps, efforts, (n - 1) as nat, m, i);
        lemma_conducted(steps, efforts, (n - 1) as nat);
    }
}

/// Those that did not work are known from their turn on.
proof fn lemma_known(steps: Seq<Step>, efforts: Seq<Effort>, n: nat, j: int)
    requires
        0 <= j < n <= steps.len(),
        did_not_work(conducted(steps, efforts, n).steps[j]),
    ensures
        conducted(steps, efforts, n).unsatisfied.contains(steps[j].id),
    decreases n,
{
    let before = conducted(steps, efforts, (n - 1) as nat);
    let after = conducted(steps, efforts, n);
    lemma_conducted(steps, efforts, (n - 1) as nat);
    if j == n - 1 {
        assert(after.unsatisfied == before.unsatisfied.push(steps[j].id));
        assert(after.unsatisfied[after.unsatisfied.len() - 1] == steps[j].id);
    } else {
        lemma_turn_stays(steps, efforts, n, (n - 1) as nat, j);
        lemma_known(steps, efforts, (n - 1) as nat, j);
        let k = choose|k: int|
            0 <= k < before.unsatisfied.len() && before.unsatisfied[k] == steps[j].id;
        assert(after.unsatisfied[k] == steps[j].id);
    }
}

proof fn lemma_blocked(required: Seq<Seq<char>>, unsatisfied: Seq<Seq<char>>, id: Seq<char>)
    requires
        required.contains(id),
        unsatisfied.contains(id),
    ensures
        blocked_by(required, unsatisfied) is Some,
    decreases required.len(),
{
    let i = choose|i: int| 0 <= i < required.len() && required[i] == id;
    if i < required.len() - 1 {
        assert(required.drop_last()[i] == id);
        lemma_blocked(required.drop_last(), unsatisfied, id);
    }
}

/// An object that requires one that did not work is left alone: nothing is tried of
/// it, and it is reported as skipped and not as a failure.  A skipped object did
/// not work either, so a chain of requirements collapses on its own.
pub proof fn law_what_waits_on_a_failure_is_left_alone(
    steps: Seq<Step>,
    efforts: Seq<Effort>,
    n: nat,
    i: int,
    j: int,
)
    requires
        untried(steps),
        0 <= j < i < n <= steps.len(),
        steps[i].requires.contains(steps[j].id),
        did_not_work(conducted(steps, efforts, n).steps[j]),
    ensures
        conducted(steps, efforts, n).steps[i].skipped is Some,
        conducted(steps, efforts, n).steps[i].error is None,
        conducted(steps, efforts, n).steps[i].target == steps[i].target,
{
    let before = conducted(steps, efforts, i as nat);
    lemma_conducted(steps, efforts, i as nat);
    lemma_turn_stays(steps, efforts, n, i as nat, j);
    lemma_known(steps, efforts, i as nat, j);
    lemma_blocked(steps[i].requires, before.unsatisfied, steps[j].id);
    lemma_turn_stays(steps, efforts, n, (i + 1) as nat, i);
    assert(before.steps[i] == steps[i]);
    assert(!did_not_work(steps[i]));
}

proof fn lemma_broken_known(steps: Seq<Step>, j: int)
    requires
        0 <= j < steps.len(),
        steps[j].action == Action::Broken,
    ensures
        broken_ones(steps).contains(steps[j].id),
    decreases steps.len(),
{
    let all = broken_ones(steps);
    let before = broken_ones(steps.drop_last());
    if j == steps.len() - 1 {
        assert(all[all.len() - 1] == steps[j].id);
    } else {
        assert(steps.drop_last()[j] == steps[j]);
        lemma_broken_known(steps.drop_last(), j);
        let k = choose|k: int| 0 <= k < before.len() && before[k] == steps[j].id;
        assert(all[k] == steps[j].id);
    }
}

proof fn lemma_unsatisfied_stays(steps: Seq<Step>, efforts: Seq<Effort>, n: nat, id: Seq<char>)
    requires
        broken_ones(steps).contains(id),
    ensures
        conducted(steps, efforts, n).unsatisfied.contains(id),
    decreases n,
{
    if n > 0 {
        let before = conducted(steps, efforts, (n - 1) as nat);
        let after = conducted(steps, efforts, n);
        lemma_unsatisfied_stays(steps, efforts, (n - 1) as nat, id);
        let k = choose|k: int| 0 <= k < before.unsatisfied.len() && before.unsatisfied[k] == id;
        assert(after.unsatisfied[k] == id);
    }
}

/// An object that requires one that could not be worked out is left alone, whichever of
/// the two has its turn first.
pub proof fn law_what_waits_on_a_broken_object_is_left_alone(
    steps: Seq<Step>,
    efforts: Seq<Effort>,
    n: nat,
    i: int,
    j: int,
)
    requires
        untried(steps),
        0 <= i < n <= steps.len(),
        0 <= j < steps.len(),
        steps[j].action == Action::Broken,
        steps[i].requires.contains(steps[j].id),
    ensures
        conducted(steps, efforts, n).steps[i].skipped is Some,
        conducted(steps, efforts, n).steps[i].error is None,
        conducted(steps, efforts, n).steps[i].target == steps[i].target,
{
    let before = conducted(steps, efforts, i as nat);
    lemma_conducted(steps, efforts, i as nat);
    lemma_broken_known(steps, j);
    lemma_unsatisfied_stays(steps, efforts, i as nat, steps[j].id);
    lemma_blocked(steps[i].requires, before.unsatisfied, steps[j].id);
    lemma_turn_stays(steps, efforts, n, (i + 1) as nat, i);
    assert(before.steps[i] == steps[i]);
    assert(!did_not_work(steps[i]));
}

/// A run counts the objects that could not be applied, each of them once.
pub proof fn law_failures_are_counted_once(steps: Seq<Step>, efforts: Seq<Effort>, n: nat)
    requires
        untried(steps),
        n <= steps.len(),
    ensures
        conducted(steps, efforts, n).failed == failures(conducted(steps, efforts, n).steps, n),
    decreases n,
{
    if n > 0 {
        let before = conducted(steps, efforts, (n - 1) as nat);
        let after = conducted(steps, efforts, n);
        lemma_conducted(steps, efforts, (n - 1) as nat);
        law_failures_are_counted_once(steps, efforts, (n - 1) as nat);
        lemma_failures_agree(before.steps, after.steps, (n - 1) as nat);
        assert(!did_not_work(steps[n - 1]));
        assert(before.steps[n - 1] == steps[n - 1]);
    }
}

proof fn lemma_failures_agree(a: Seq<Step>, b: Seq<Step>, n: nat)
    requires
        n <= a.len(),
        n <= b.len(),
        forall|i: int| 0 <= i < n ==> a[i] == b[i],
    ensures
        failures(a, n) == failures(b, n),
    decreases n,
{
    if n > 0 {
        lemma_failures_agree(a, b, (n - 1) as nat);
    }
}

/// What installing or removing a bundle did, or would do.
pub open spec fn bundle_saying(action: Seq<char>, outcome: Account) -> Saying {
    Saying::Change {
        action,
        object: "bundle "@ + outcome.bundle.name + " "@ + outcome.bundle.version,
        summary: Some(
            text::decimal(outcome.written) + " written, "@ + text::decimal(outcome.removed)
                + " removed"@,
        ),
        error: None,
    }
}

/// What installing or removing a bundle did, or would do.
pub fn bundle_record(action: &str, outcome: &Outcome) -> (r: Record)
    ensures
        r@ == bundle_saying(action@, outcome@),
{
    let mut object = "bundle ".to_owned();
    object.append(outcome.bundle.name.as_str());
    object.append(" ");
    object.append(outcome.bundle.version.as_str());
    let mut summary = text::decimal_of(outcome.written as u64);
    summary.append(" written, ");
    summary.append(text::decimal_of(outcome.removed as u64).as_str());
    summary.append(" removed");
    Record::Change { action: action.to_owned(), object, summary: Some(summary), error: None }
}

/// What a verb on bundles is called before it is done, and once it is.
#[derive(Clone, Copy, Debug, PartialEq, Eq, Structural)]
pub enum Deed {
    Create,
    Install,
    Restore,
    Remove,
}

/// How a deed is named.
pub open spec fn deed_text(deed: Deed, dry_run: bool) -> Seq<char> {
    match deed {
        Deed::Create => if dry_run {
            "create"@
        } else {
            "created"@
        },
        Deed::Install => if dry_run {
            "install"@
        } else {
            "installed"@
        },
        Deed::Restore => if dry_run {
            "restore"@
        } else {
            "restored"@
        },
        Deed::Remove => if dry_run {
            "remove"@
        } else {
            "removed"@
        },
    }
}

impl Deed {
    /// How the deed is named: what would happen in a dry run, and what happened
    /// otherwise.
    pub fn name(self, dry_run: bool) -> (r: &'static str)
        ensures
            r@ == deed_text(self, dry_run),
    {
        match self {
            Deed::Create => if dry_run {
                "create"
            } else {
                "created"
            },
            Deed::Install => if dry_run {
                "install"
            } else {
                "installed"
            },
            Deed::Restore => if dry_run {
                "restore"
            } else {
                "restored"
            },
            Deed::Remove => if dry_run {
                "remove"
            } else {
                "removed"
            },
        }
    }
}

/// What building a bundle says: what it is called, and where it was written.
pub fn create_record(what: &Bundle, output: &str, dry_run: bool) -> (r: Record)
    ensures
        r@ == (Saying::Change {
            action: deed_text(Deed::Create, dry_run),
            object: "bundle "@ + what@.name + " "@ + what@.version,
            summary: Some(output@),
            error: None,
        }),
{
    let mut object = "bundle ".to_owned();
    object.append(what.name.as_str());
    object.append(" ");
    object.append(what.version.as_str());
    Record::Change {
        action: Deed::Create.name(dry_run).to_owned(),
        object,
        summary: Some(output.to_owned()),
        error: None,
    }
}

/// What verifying a bundle says.  The reason that one cannot be trusted is reported
/// as the answer, the way a check of any other object is, and the run still fails.
pub open spec fn trust(origin: Seq<char>, what: Result<Identity, Seq<char>>) -> Speech {
    match what {
        Ok(what) => Speech {
            said: seq![
                Saying::Check {
                    name: "bundle "@ + what.name + " "@ + what.version + " signed by "@
                        + what.signer,
                    error: None,
                },
            ],
            end: Ok(()),
        },
        Err(e) => Speech {
            said: seq![Saying::Check { name: origin, error: Some(e) }],
            end: Err("The bundle cannot be trusted"@),
        },
    }
}

/// What verifying a bundle says.
pub fn verified(origin: &str, what: Result<Bundle, String>) -> (r: Told)
    ensures
        r@ == trust(origin@, crate::bundle::identified(what)),
{
    let mut records: Vec<Record> = Vec::new();
    match what {
        Ok(what) => {
            let mut name = "bundle ".to_owned();
            name.append(what.name.as_str());
            name.append(" ");
            name.append(what.version.as_str());
            name.append(" signed by ");
            name.append(what.signer.as_str());
            let record = Record::Check { name, error: None };
            records.push(record);
            assert(sayings(records@) =~= seq![record@]);
            Told { records, end: Ok(()) }
        },
        Err(e) => {
            let record = Record::Check { name: origin.to_owned(), error: Some(e) };
            records.push(record);
            assert(sayings(records@) =~= seq![record@]);
            Told { records, end: Err("The bundle cannot be trusted".to_owned()) }
        },
    }
}

/// What a bundle of the system is.
pub open spec fn bundle_status(what: Identity) -> Saying {
    Saying::Bundle {
        name: what.name,
        version: what.version,
        signer: what.signer,
        origin: what.origin,
        persist: what.persist,
    }
}

/// The kept bundles that are not among the installed ones.
pub open spec fn waiting(kept: Seq<Identity>, installed: Seq<Identity>) -> Seq<Identity>
    decreases kept.len(),
{
    if kept.len() == 0 {
        Seq::empty()
    } else {
        let before = waiting(kept.drop_last(), installed);
        if exists|i: int|
            0 <= i < installed.len() && (#[trigger] installed[i]).name == kept.last().name {
            before
        } else {
            before.push(kept.last())
        }
    }
}

/// What the status of the bundles says: those that are installed, and then those
/// that were kept and are not, because that machine will have them again at the
/// next restore.
pub open spec fn statuses(installed: Seq<Identity>, kept: Seq<Identity>) -> Seq<Saying> {
    (installed + waiting(kept, installed)).map_values(|b: Identity| bundle_status(b))
}

/// What a bundle of the system is.
fn status_record(what: &Bundle) -> (r: Record)
    ensures
        r@ == bundle_status(what@),
{
    Record::Bundle {
        name: what.name.clone(),
        version: what.version.clone(),
        signer: what.signer.clone(),
        origin: what.origin.clone(),
        persist: what.persist,
    }
}

/// What the status of the bundles says.
pub fn status(installed: &Vec<Bundle>, kept: &Vec<Bundle>) -> (r: Vec<Record>)
    ensures
        sayings(r@) == statuses(
            crate::bundle::identities(installed@),
            crate::bundle::identities(kept@),
        ),
{
    let ghost first = crate::bundle::identities(installed@);
    let ghost second = crate::bundle::identities(kept@);
    let ghost said = |b: Identity| bundle_status(b);
    let mut r: Vec<Record> = Vec::new();
    let n: usize = installed.len();
    let mut i: usize = 0;
    assert(sayings(r@) =~= first.take(0).map_values(said));
    while i < n
        invariant
            i <= n == installed@.len(),
            first == crate::bundle::identities(installed@),
            said == (|b: Identity| bundle_status(b)),
            sayings(r@) == first.take(i as int).map_values(said),
        decreases n - i,
    {
        let ghost had = sayings(r@);
        let record = status_record(&installed[i]);
        r.push(record);
        assert(sayings(r@) =~= had.push(record@));
        assert(had.push(record@) =~= first.take(i + 1).map_values(said));
        i += 1;
    }
    assert(first.take(i as int) =~= first);
    let m: usize = kept.len();
    let mut i: usize = 0;
    assert(first + waiting(second.take(0), first) =~= first);
    while i < m
        invariant
            i <= m == kept@.len(),
            n == installed@.len(),
            first == crate::bundle::identities(installed@),
            second == crate::bundle::identities(kept@),
            said == (|b: Identity| bundle_status(b)),
            sayings(r@) == (first + waiting(second.take(i as int), first)).map_values(said),
        decreases m - i,
    {
        let ghost had = sayings(r@);
        let ghost before = waiting(second.take(i as int), first);
        proof {
            assert(second.take(i + 1).drop_last() =~= second.take(i as int));
            assert(second.take(i + 1).last() == kept@[i as int]@);
        }
        let mut there = false;
        let mut j: usize = 0;
        while j < n
            invariant
                i < m == kept@.len(),
                j <= n == installed@.len(),
                first == crate::bundle::identities(installed@),
                there == exists|k: int|
                    0 <= k < j && (#[trigger] first[k]).name == kept@[i as int]@.name,
            decreases n - j,
        {
            assert(first[j as int] == installed@[j as int]@);
            if text::equal(installed[j].name.as_str(), kept[i].name.as_str()) {
                there = true;
            }
            j += 1;
        }
        if !there {
            let record = status_record(&kept[i]);
            r.push(record);
            assert(sayings(r@) =~= had.push(record@));
            assert(had.push(record@) =~= (first + before.push(kept@[i as int]@)).map_values(said));
        }
        i += 1;
    }
    assert(second.take(i as int) =~= second);
    r
}

/// What is said of a bundle that was put back, or could not be, by its name.
pub open spec fn restored_one(
    name: Seq<char>,
    outcome: Result<Account, Seq<char>>,
    dry_run: bool,
) -> Saying {
    match outcome {
        Ok(outcome) => bundle_saying(deed_text(Deed::Restore, dry_run), outcome),
        Err(e) => Saying::Change {
            action: "error"@,
            object: "bundle "@ + name,
            summary: None,
            error: Some(e),
        },
    }
}

/// How many bundles could not be put back.
pub open spec fn left_out(s: Seq<(Seq<char>, Result<Account, Seq<char>>)>) -> nat
    decreases s.len(),
{
    if s.len() == 0 {
        0
    } else {
        left_out(s.drop_last()) + if s.last().1 is Err {
            1nat
        } else {
            0nat
        }
    }
}

/// What putting the kept bundles back says, and how it ended.  Each is answered for
/// by name.  One that cannot be put back does not stop the others, and fails the run.
pub open spec fn restored(s: Seq<(Seq<char>, Result<Account, Seq<char>>)>, dry_run: bool) -> Speech {
    Speech {
        said: s.map_values(
            |one: (Seq<char>, Result<Account, Seq<char>>)| restored_one(one.0, one.1, dry_run),
        ),
        end: if left_out(s) == 0 {
            Ok(())
        } else {
            Err(text::decimal(left_out(s)) + " bundle(s) could not be put back"@)
        },
    }
}

/// What is said of a bundle that was put back, or could not be.
fn restored_record(name: &str, outcome: &Result<Outcome, String>, dry_run: bool) -> (r: Record)
    ensures
        r@ == restored_one(name@, account(*outcome), dry_run),
{
    match outcome {
        Ok(outcome) => bundle_record(Deed::Restore.name(dry_run), outcome),
        Err(e) => {
            let mut object = "bundle ".to_owned();
            object.append(name);
            Record::Change {
                action: "error".to_owned(),
                object,
                summary: None,
                error: Some(e.clone()),
            }
        },
    }
}

/// What putting the kept bundles back says, and how it ended.
pub fn restoration(outcomes: &Vec<(String, Result<Outcome, String>)>, dry_run: bool) -> (r: Told)
    ensures
        r@ == restored(accounts(outcomes@), dry_run),
{
    let ghost all = accounts(outcomes@);
    let ghost said = |one: (Seq<char>, Result<Account, Seq<char>>)|
        restored_one(one.0, one.1, dry_run);
    let mut records: Vec<Record> = Vec::new();
    let mut failed: usize = 0;
    let n: usize = outcomes.len();
    let mut i: usize = 0;
    assert(sayings(records@) =~= all.take(0).map_values(said));
    while i < n
        invariant
            failed <= i <= n == outcomes@.len(),
            all == accounts(outcomes@),
            said == (|one: (Seq<char>, Result<Account, Seq<char>>)|
                restored_one(one.0, one.1, dry_run)),
            sayings(records@) == all.take(i as int).map_values(said),
            failed == left_out(all.take(i as int)),
        decreases n - i,
    {
        let ghost had = sayings(records@);
        proof {
            assert(all.take(i + 1).drop_last() =~= all.take(i as int));
            assert(all.take(i + 1).last() == all[i as int]);
        }
        let record = restored_record(outcomes[i].0.as_str(), &outcomes[i].1, dry_run);
        if outcomes[i].1.is_err() {
            failed += 1;
        }
        records.push(record);
        assert(sayings(records@) =~= had.push(record@));
        assert(had.push(record@) =~= all.take(i + 1).map_values(said));
        i += 1;
    }
    assert(all.take(i as int) =~= all);
    if failed == 0 {
        return Told { records, end: Ok(()) };
    }
    let mut e = text::decimal_of(failed as u64);
    e.append(" bundle(s) could not be put back");
    Told { records, end: Err(e) }
}

/// What removing a bundle says, where there was one.
pub fn removal(outcome: &Option<Outcome>, dry_run: bool) -> (r: Result<Record, String>)
    ensures
        match *outcome {
            Some(o) => r is Ok && r->Ok_0@ == bundle_saying(deed_text(Deed::Remove, dry_run), o@),
            None => r is Err && r->Err_0@ == "There is no bundle installed in this system"@,
        },
{
    match outcome {
        Some(outcome) => Ok(bundle_record(Deed::Remove.name(dry_run), outcome)),
        None => Err("There is no bundle installed in this system".to_owned()),
    }
}

/// Templates and resources are applied; probes, providers and variables are
/// not. A file that is named without a type is a template.
pub proof fn law_templates_and_resources_are_applied(kind: Type)
    ensures
        applicable_kind(None, false) == Ok::<Option<Type>, Seq<char>>(None),
        applicable_kind(None, true) == Ok::<Option<Type>, Seq<char>>(Some(Type::Template)),
        applicable_kind(Some(Type::Template), false) == Ok::<Option<Type>, Seq<char>>(
            Some(Type::Template),
        ),
        applicable_kind(Some(Type::Resource), false) == Ok::<Option<Type>, Seq<char>>(
            Some(Type::Resource),
        ),
        kind == Type::Probe || kind == Type::Provider || kind == Type::Variable ==> applicable_kind(
            Some(kind),
            false,
        ) is Err,
{
}

/// A plan is said step by step, with what is going to happen, the object, and
/// what there is to say of it.
pub proof fn law_a_plan_is_said_step_by_step(plan: Seq<Step>, i: int)
    requires
        0 <= i < plan.len(),
    ensures
        plan_sayings(plan).len() == plan.len(),
        plan_sayings(plan)[i] matches Saying::Change { action, object, summary, error } && {
            &&& action == planned_text(plan[i].action)
            &&& object == plan[i].kind + "\t"@ + plan[i].name
            &&& summary_of(plan[i]).len() > 0 ==> summary == Some(summary_of(plan[i]))
            &&& summary_of(plan[i]).len() == 0 ==> summary is None
            &&& error is None
        },
{
}

/// An object that is in sync is not a line of what is planned; every other is.
pub proof fn law_what_is_in_sync_is_no_line(plan: Seq<Step>, step: Step)
    ensures
        planned_lines(Seq::empty()).len() == 0,
        step.action == Action::InSync ==> planned_lines(plan.push(step)) == planned_lines(plan),
        step.action != Action::InSync ==> {
            &&& planned_lines(plan.push(step)).len() == planned_lines(plan).len() + 1
            &&& planned_lines(plan.push(step)).drop_last() == planned_lines(plan)
            &&& text::begins(planned_lines(plan.push(step)).last(), planned_text(step.action))
        },
{
    assert(plan.push(step).drop_last() =~= plan);
    if step.action != Action::InSync {
        let all = planned_lines(plan.push(step));
        assert(all.drop_last() =~= planned_lines(plan));
        let word = planned_text(step.action);
        assert(all.last().take(word.len() as int) =~= word);
    }
}

/// A run begins with nothing done and nothing failed, and with the broken
/// objects unsatisfied from the start.
pub proof fn law_broken_objects_are_unsatisfied_from_the_start(steps: Seq<Step>, id: Seq<char>)
    ensures
        started(steps).steps == steps,
        started(steps).at == 0,
        started(steps).failed == 0,
        started(steps).lines.len() == 0,
        started(steps).unsatisfied.contains(id) <==> exists|i: int|
            0 <= i < steps.len() && (#[trigger] steps[i]).action == Action::Broken && steps[i].id == id,
    decreases steps.len(),
{
    if steps.len() > 0 {
        let less = steps.drop_last();
        let last = steps[steps.len() - 1];
        law_broken_objects_are_unsatisfied_from_the_start(less, id);
        let before = broken_ones(less);
        assert(forall|i: int| 0 <= i < less.len() ==> #[trigger] less[i] == steps[i]);
        if exists|i: int|
            0 <= i < less.len() && (#[trigger] less[i]).action == Action::Broken && less[i].id == id {
            let i = choose|i: int|
                0 <= i < less.len() && (#[trigger] less[i]).action == Action::Broken && less[i].id == id;
            assert(steps[i] == less[i]);
        }
        if last.action == Action::Broken {
            let all = before.push(last.id);
            assert(all[before.len() as int] == last.id);
            if before.contains(id) {
                let i = choose|i: int| 0 <= i < before.len() && before[i] == id;
                assert(all[i] == id);
            }
            if all.contains(id) && id != last.id {
                let i = choose|i: int| 0 <= i < all.len() && all[i] == id;
                assert(before[i] == id);
            }
        }
        if exists|i: int|
            0 <= i < steps.len() && (#[trigger] steps[i]).action == Action::Broken && steps[i].id == id {
            let i = choose|i: int|
                0 <= i < steps.len() && (#[trigger] steps[i]).action == Action::Broken && steps[i].id
                    == id;
            if i < less.len() {
                assert(less[i] == steps[i]);
            }
        }
    }
}

/// A step waits on the first of its requirements that was not satisfied.
pub proof fn law_a_step_waits_on_its_requirements(
    required: Seq<Seq<char>>,
    unsatisfied: Seq<Seq<char>>,
)
    ensures
        blocked_by(required, unsatisfied) is Some <==> exists|i: int|
            0 <= i < required.len() && unsatisfied.contains(#[trigger] required[i]),
        blocked_by(required, unsatisfied) matches Some(id) ==> required.contains(id)
            && unsatisfied.contains(id),
    decreases required.len(),
{
    if required.len() > 0 {
        let less = required.drop_last();
        law_a_step_waits_on_its_requirements(less, unsatisfied);
        assert(forall|i: int| 0 <= i < less.len() ==> #[trigger] less[i] == required[i]);
        assert(required[required.len() - 1] == required.last());
        match blocked_by(less, unsatisfied) {
            Some(id) => {
                let i = choose|i: int| 0 <= i < less.len() && less[i] == id;
                assert(less.contains(id));
                assert(required[i] == id);
            },
            None => {
                if exists|i: int| 0 <= i < required.len() && unsatisfied.contains(#[trigger] required[i]) {
                    let i = choose|i: int|
                        0 <= i < required.len() && unsatisfied.contains(#[trigger] required[i]);
                    if i < less.len() {
                        assert(unsatisfied.contains(less[i]));
                    }
                }
            },
        }
    }
}

/// A turn takes one step and leaves the others alone. A step whose requirement
/// was not satisfied is skipped and is not attempted; any other is attempted.
/// What failed or was skipped is unsatisfied from then on, and only what
/// failed is counted.
pub proof fn law_a_turn_takes_one_step(c: Course, effort: Effort, i: int)
    requires
        c.at < c.steps.len(),
        c.steps[c.at as int].error is None,
        c.steps[c.at as int].skipped is None,
    ensures
        ({
            let step = c.steps[c.at as int];
            let (after, saying) = turned(c, effort);
            let done = after.steps[c.at as int];
            let waits = exists|q: int|
                0 <= q < step.requires.len() && c.unsatisfied.contains(#[trigger] step.requires[q]);
            &&& after.at == c.at + 1
            &&& after.steps.len() == c.steps.len()
            &&& 0 <= i < c.steps.len() && i != c.at ==> after.steps[i] == c.steps[i]
            &&& waits ==> done.skipped is Some && done.error is None && done.target == step.target
            &&& !waits ==> done == attempted(step, effort).0
            &&& waits ==> (saying matches Saying::Change { action, error, .. } && action == "skipped"@
                && error is None)
            &&& !waits && attempted(step, effort).1 is Err ==> (saying matches Saying::Change {
                action,
                error,
                ..
            } && action == "error"@ && error == Some(attempted(step, effort).1->Err_0))
            &&& !waits && attempted(step, effort).1 is Ok ==> (saying matches Saying::Change {
                action,
                error,
                ..
            } && action == taken_text(step.action) && error is None)
            &&& after.failed == c.failed + (if !waits && attempted(step, effort).1 is Err {
                1int
            } else {
                0
            })
            &&& done.error is Some || done.skipped is Some ==> after.unsatisfied == c.unsatisfied.push(
                step.id,
            )
            &&& done.error is None && done.skipped is None ==> after.unsatisfied == c.unsatisfied
            &&& step.action == Action::InSync ==> after.lines == c.lines
            &&& step.action != Action::InSync ==> after.lines == c.lines.push(line_of(saying))
        }),
{
    law_a_step_waits_on_its_requirements(c.steps[c.at as int].requires, c.unsatisfied);
}

/// A run succeeds when nothing failed.
pub proof fn law_a_run_fails_when_anything_failed(failed: nat)
    ensures
        run_end(failed) is Ok <==> failed == 0,
{
}

/// What is done to a bundle is said in these words: what will be done in a
/// trial, and what was done otherwise.
pub proof fn law_deeds_are_said_in_these_words()
    ensures
        deed_text(Deed::Create, true) == "create"@,
        deed_text(Deed::Create, false) == "created"@,
        deed_text(Deed::Install, true) == "install"@,
        deed_text(Deed::Install, false) == "installed"@,
        deed_text(Deed::Restore, true) == "restore"@,
        deed_text(Deed::Restore, false) == "restored"@,
        deed_text(Deed::Remove, true) == "remove"@,
        deed_text(Deed::Remove, false) == "removed"@,
{
}

/// A bundle that can be trusted is said to be, with who signed it; one that
/// cannot be is an error.
pub proof fn law_a_bundle_is_trusted_or_is_an_error(
    origin: Seq<char>,
    what: Result<Identity, Seq<char>>,
)
    ensures
        trust(origin, what).end is Ok <==> what is Ok,
        trust(origin, what).said.len() == 1,
        trust(origin, what).said[0] matches Saying::Check { name, error } && {
            &&& error is None <==> what is Ok
            &&& what matches Err(e) ==> name == origin && error == Some(e)
            &&& what matches Ok(b) ==> name == "bundle "@ + b.name + " "@ + b.version + " signed by "@
                + b.signer
        },
{
}

/// The bundles are those that are installed, and behind them those that are
/// kept and not installed under any version.
pub proof fn law_kept_bundles_are_listed_until_they_are_installed(
    installed: Seq<Identity>,
    kept: Seq<Identity>,
    one: Identity,
)
    ensures
        statuses(installed, kept).len() == installed.len() + waiting(kept, installed).len(),
        forall|i: int|
            0 <= i < installed.len() ==> #[trigger] statuses(installed, kept)[i] == bundle_status(
                installed[i],
            ),
        waiting(Seq::empty(), installed).len() == 0,
        (exists|i: int| 0 <= i < installed.len() && (#[trigger] installed[i]).name == one.name)
            ==> waiting(kept.push(one), installed) == waiting(kept, installed),
        !(exists|i: int| 0 <= i < installed.len() && (#[trigger] installed[i]).name == one.name)
            ==> waiting(kept.push(one), installed) == waiting(kept, installed).push(one),
        bundle_status(one) == (Saying::Bundle {
            name: one.name,
            version: one.version,
            signer: one.signer,
            origin: one.origin,
            persist: one.persist,
        }),
{
    assert(kept.push(one).drop_last() =~= kept);
    assert(kept.push(one).last() == one);
}

/// A restoration says every bundle in its place, and fails when one of them
/// could not be put back.
pub proof fn law_a_restoration_says_every_bundle(
    s: Seq<(Seq<char>, Result<Account, Seq<char>>)>,
    dry_run: bool,
)
    ensures
        restored(s, dry_run).said.len() == s.len(),
        restored(s, dry_run).end is Ok <==> forall|i: int| 0 <= i < s.len() ==> (#[trigger] s[i]).1 is Ok,
        forall|i: int|
            0 <= i < s.len() ==> (#[trigger] restored(s, dry_run).said[i] matches Saying::Change {
                error,
                ..
            } && (error is Some <==> s[i].1 is Err)),
    decreases s.len(),
{
    lemma_left_out(s);
}

proof fn lemma_left_out(s: Seq<(Seq<char>, Result<Account, Seq<char>>)>)
    ensures
        left_out(s) == 0 <==> forall|i: int| 0 <= i < s.len() ==> (#[trigger] s[i]).1 is Ok,
    decreases s.len(),
{
    if s.len() > 0 {
        let less = s.drop_last();
        lemma_left_out(less);
        assert(s[s.len() - 1] == s.last());
        assert(forall|i: int| 0 <= i < less.len() ==> #[trigger] less[i] == s[i]);
        if left_out(s) == 0 {
            assert forall|i: int| 0 <= i < s.len() implies (#[trigger] s[i]).1 is Ok by {
                if i < less.len() {
                    assert(less[i].1 is Ok);
                }
            }
        }
    }
}

/// What was done to a bundle says how much was written and how much removed.
pub proof fn law_a_bundle_says_what_it_wrote(action: Seq<char>, outcome: Account)
    ensures
        bundle_saying(action, outcome) matches Saying::Change { action: a, object, summary, error } && {
            &&& a == action
            &&& object == "bundle "@ + outcome.bundle.name + " "@ + outcome.bundle.version
            &&& summary == Some(
                text::decimal(outcome.written) + " written, "@ + text::decimal(outcome.removed)
                    + " removed"@,
            )
            &&& error is None
        },
{
}

} // verus!
