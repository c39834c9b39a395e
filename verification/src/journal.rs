//! The history of the changes of the system.
//!
//! Every run that changes anything is recorded in a git repository, so that the
//! administrator can ask when a configuration file last changed, what it said
//! before, and why.
//!
//! Both the inputs and the outputs of a run are recorded, in parallel trees, with
//! the two kinds of object laid out the same way:
//!
//! ```text
//! variables.yaml                              the namespace              in
//! templates/etc/ssh/sshd_config.d/root.conf   what generates the file    in
//! resources/unit/nginx                        what asks for the state    in
//! files/etc/ssh/sshd_config.d/root.conf       the configuration file     out
//! states/unit/nginx.json                      the state, asked for and
//!                                             reported                   out
//! ```
//!
//! A run writes two commits, the system as it found it and the system as it left
//! it.  The tree of a commit holds the state and nothing else; what happened
//! during a run and under which command lives in the message.

use vstd::prelude::*;

use crate::apply::{moment, steps, Action, Change, Moment, Phase, Plan, Snapshot, Step};
use crate::apply::{planned_text, taken_text};
use crate::document;
use crate::objects::{Speech, Told};
use crate::path;
use crate::provider;
use crate::record::{mark, sayings, Commit, Mark, Record as Report, Saying};
use crate::text;
use crate::value;
use crate::value::{Datum, Json};
use crate::var;
use crate::var::Variables;

verus! {

/// Where the journal lives, under the root of the system.
pub const JOURNAL_DIR: &'static str = "var/lib/detc/journal.git";

/// What the system says about its own history, in the namespace.
pub const ENABLED: &'static str = "detc.journal.enabled";

pub const USER: &'static str = "detc.journal.user";

pub const EMAIL: &'static str = "detc.journal.email";

/// Who the history is attributed to when the system does not say.
pub const DEFAULT_USER: &'static str = "detc";

pub const DEFAULT_EMAIL: &'static str = "detc@localhost";

/// The namespace, as the documents of the system declare it.
pub const VARIABLES: &'static str = "variables.yaml";

/// The type of the object that is a configuration file, as opposed to a resource,
/// which is named by the type of its provider.
pub const TEMPLATE: &'static str = "template";

/// The trailers of a commit message, which is where everything that belongs to the
/// run rather than to the system is kept.
pub const RUN: &'static str = "Detc-Run";

pub const PHASE: &'static str = "Detc-Phase";

pub const COMMAND: &'static str = "Detc-Command";

/// The two phases, as the trailer names them.
pub const FOUND: &'static str = "found";

pub const APPLIED: &'static str = "applied";

/// How the output of a run names an object that could not be applied.
pub const FAILED: &'static str = "error\t";

/// Where the journal of a system is.
pub fn path(root: &str) -> (r: String)
    ensures
        r@ == path::joined(root@, JOURNAL_DIR@),
{
    path::join(root, JOURNAL_DIR)
}

/// Whether a system keeps a history: it does, unless it says that it does not.  A
/// probe written in shell has no way of saying it but in words.
pub open spec fn is_enabled(j: Json) -> bool {
    match var::value_at(j, ENABLED@) {
        Ok(Json::Bool(enabled)) => enabled,
        Ok(Json::Text(enabled)) => enabled != "false"@,
        _ => true,
    }
}

/// Whether a system keeps a history.
pub fn enabled(var: &Variables) -> (r: bool)
    ensures
        r == is_enabled(var@),
{
    match var.get_value(ENABLED) {
        Ok(Datum::Bool(enabled)) => *enabled,
        Ok(Datum::String(enabled)) => !text::equal(enabled.as_str(), "false"),
        _ => true,
    }
}

/// Whether a character may be part of a signature.
pub open spec fn signs(c: char) -> bool {
    c != '<' && c != '>' && c != '\n' && c != '\r'
}

/// A text without the characters that a signature cannot hold.
pub open spec fn signable(s: Seq<char>) -> Seq<char>
    decreases s.len(),
{
    if s.len() == 0 {
        Seq::empty()
    } else if signs(s.last()) {
        signable(s.drop_last()).push(s.last())
    } else {
        signable(s.drop_last())
    }
}

/// What a namespace says at a key, as one word: text as it is, and a number or a
/// truth value as it is written.
pub open spec fn word_at(j: Json, key: Seq<char>) -> Seq<char> {
    match var::value_at(j, key) {
        Ok(v) => match v {
            Json::Text(t) => t,
            Json::Bool(_) => document::json_text(v),
            Json::Number(_) => document::json_text(v),
            _ => Seq::empty(),
        },
        Err(_) => Seq::empty(),
    }
}

/// Who a commit is attributed to.
pub open spec fn signature_of(j: Json, key: Seq<char>, default: Seq<char>) -> Seq<char> {
    let said = text::trim(signable(word_at(j, key)));
    if said.len() == 0 {
        default
    } else {
        said
    }
}

/// A text without the characters that a signature cannot hold.
fn stripped(s: &str) -> (r: String)
    ensures
        r@ == signable(s@),
{
    let cs = text::chars_of(s);
    let mut r = String::new();
    let n: usize = cs.len();
    let mut i: usize = 0;
    assert(r@ =~= Seq::empty());
    while i < n
        invariant
            i <= n == cs@.len(),
            cs@ == s@,
            r@ == signable(s@.take(i as int)),
        decreases n - i,
    {
        proof {
            assert(s@.take(i + 1).drop_last() =~= s@.take(i as int));
            assert(s@.take(i + 1).last() == cs@[i as int]);
        }
        let c = cs[i];
        if c != '<' && c != '>' && c != '\n' && c != '\r' {
            r.push(c);
        }
        i += 1;
    }
    assert(s@.take(i as int) =~= s@);
    r
}

/// Who a commit is attributed to, as the namespace says at `key`.
///
/// A git signature holds no angle bracket and no line break, so whatever the system
/// says is stripped of them; a value that is left with nothing in it is a value that
/// says nothing, and the default stands.
pub fn signature(var: &Variables, key: &str, default: &str) -> (r: String)
    ensures
        r@ == signature_of(var@, key@, default@),
{
    let said = match var.get_value(key) {
        Ok(v) => match v {
            Datum::String(t) => t.clone(),
            Datum::Bool(_) => document::to_json(v),
            Datum::Number(_) => document::to_json(v),
            _ => String::new(),
        },
        Err(_) => String::new(),
    };
    assert(said@ =~= word_at(var@, key@));
    let said = text::trimmed(stripped(said.as_str()).as_str());
    if said.as_str().is_empty() {
        default.to_owned()
    } else {
        said
    }
}

/// The value of the last line that a key opens.
pub open spec fn trailer_in(lines: Seq<Seq<char>>, key: Seq<char>) -> Option<Seq<char>>
    decreases lines.len(),
{
    if lines.len() == 0 {
        None
    } else {
        match text::without_prefix(lines.last(), key + ": "@) {
            Some(value) => Some(value),
            None => trailer_in(lines.drop_last(), key),
        }
    }
}

/// The value of a trailer of a commit message, which is where a run records
/// everything about itself that is not the state of the system.
pub fn trailer(message: &str, key: &str) -> (r: Option<String>)
    ensures
        text::text_of(r) == trailer_in(text::lines(message@), key@),
{
    let lines = text::lines_of(message);
    let ghost all = text::lines(message@);
    let mut prefix = key.to_owned();
    prefix.append(": ");
    let mut i: usize = lines.len();
    assert(all.take(i as int) =~= all);
    while i > 0
        invariant
            i <= lines@.len(),
            all == text::lines(message@),
            text::texts(lines@) == all,
            prefix@ == key@ + ": "@,
            trailer_in(all, key@) == trailer_in(all.take(i as int), key@),
        decreases i,
    {
        i -= 1;
        proof {
            assert(all.take(i + 1).drop_last() =~= all.take(i as int));
            assert(all.take(i + 1).last() == lines@[i as int]@);
        }
        if let Some(value) = text::strip(lines[i].as_str(), prefix.as_str()) {
            return Some(value);
        }
    }
    None
}

/// The number that a text reads as, where it is the number of a run.
pub open spec fn run_number(t: Seq<char>) -> Option<u64> {
    match text::natural(t) {
        Some(n) => if n <= u64::MAX {
            Some(n as u64)
        } else {
            None
        },
        None => None,
    }
}

/// The number of the run that wrote a message.
pub open spec fn run_in(lines: Seq<Seq<char>>) -> Option<u64> {
    match trailer_in(lines, RUN@) {
        Some(t) => run_number(t),
        None => None,
    }
}

/// The number of the run that wrote a message.
pub fn run_of_message(message: &str) -> (r: Option<u64>)
    ensures
        r == run_in(text::lines(message@)),
{
    match trailer(message, RUN) {
        Some(t) => text::read_natural(t.as_str()),
        None => None,
    }
}

/// The number of the next run, by the message of the last commit, if there is one.
/// A run that records nothing consumes no number.
pub fn next_run(tip: Option<&str>) -> (r: Option<u64>)
    ensures
        ({
            let last = match tip {
                Some(message) => match run_in(text::lines(message@)) {
                    Some(n) => n,
                    None => 0u64,
                },
                None => 0u64,
            };
            r == if last == u64::MAX {
                None
            } else {
                Some((last + 1) as u64)
            }
        }),
{
    let last: u64 = match tip {
        Some(message) => match run_of_message(message) {
            Some(n) => n,
            None => 0,
        },
        None => 0,
    };
    last.checked_add(1)
}

/// What a commit message says of the run that wrote it.
pub struct Entry {
    pub run: u64,
    pub phase: String,
    pub command: String,
    pub summary: String,
    pub lines: Vec<String>,
}

/// What a commit message says, as plain values.
pub struct Note {
    pub run: u64,
    pub phase: Seq<char>,
    pub command: Seq<char>,
    pub summary: Seq<char>,
    pub lines: Seq<Seq<char>>,
}

impl View for Entry {
    type V = Note;

    open spec fn view(&self) -> Note {
        Note {
            run: self.run,
            phase: self.phase@,
            command: self.command@,
            summary: self.summary@,
            lines: text::texts(self.lines@),
        }
    }
}

/// Whether a line of a message is part of the output of the run.
pub open spec fn is_output(line: Seq<char>) -> bool {
    text::trim(line).len() > 0 && !text::begins(line, "Detc-"@)
}

/// The lines that are part of the output of the run.
pub open spec fn output_lines(lines: Seq<Seq<char>>) -> Seq<Seq<char>>
    decreases lines.len(),
{
    if lines.len() == 0 {
        Seq::empty()
    } else if is_output(lines.last()) {
        output_lines(lines.drop_last()).push(lines.last())
    } else {
        output_lines(lines.drop_last())
    }
}

/// What the lines of a commit message say.
pub open spec fn note_in(lines: Seq<Seq<char>>) -> Note {
    let command = match trailer_in(lines, COMMAND@) {
        Some(command) => command,
        None => Seq::empty(),
    };
    let subject = if lines.len() == 0 {
        Seq::empty()
    } else {
        lines[0]
    };
    Note {
        run: match run_in(lines) {
            Some(n) => n,
            None => 0,
        },
        phase: match trailer_in(lines, PHASE@) {
            Some(phase) => phase,
            None => Seq::empty(),
        },
        command,
        summary: match text::without_prefix(subject, command + ": "@) {
            Some(rest) => rest,
            None => subject,
        },
        lines: if lines.len() == 0 {
            Seq::empty()
        } else {
            output_lines(lines.drop_first())
        },
    }
}

/// An optional text, or nothing.
fn or_empty(t: Option<String>) -> (r: String)
    ensures
        r@ == (match t {
            Some(t) => t@,
            None => Seq::empty(),
        }),
{
    match t {
        Some(t) => t,
        None => {
            let r = String::new();
            assert(r@ =~= Seq::empty());
            r
        },
    }
}

/// Read a commit message.
///
/// The subject is the command and what happened; what is left of the message but
/// the trailers is the output of the run, as it was printed while it happened.
pub fn parse(message: &str) -> (r: Entry)
    ensures
        r@ == note_in(text::lines(message@)),
{
    let lines = text::lines_of(message);
    let ghost all = text::lines(message@);
    let command = or_empty(trailer(message, COMMAND));
    let phase = or_empty(trailer(message, PHASE));
    let run: u64 = match run_of_message(message) {
        Some(n) => n,
        None => 0,
    };
    let n: usize = lines.len();
    assert(text::texts(lines@).len() == lines@.len());
    let subject = if n == 0 {
        or_empty(None)
    } else {
        assert(all[0] == lines@[0]@);
        lines[0].clone()
    };
    let mut prefix = command.clone();
    prefix.append(": ");
    let summary = match text::strip(subject.as_str(), prefix.as_str()) {
        Some(rest) => rest,
        None => subject,
    };
    let mut kept: Vec<String> = Vec::new();
    assert(text::texts(kept@) =~= Seq::empty());
    if n > 0 {
        let ghost rest = all.drop_first();
        let mut i: usize = 1;
        assert(rest.take(0) =~= Seq::empty());
        while i < n
            invariant
                1 <= i <= n == lines@.len(),
                text::texts(lines@) == all,
                rest == all.drop_first(),
                text::texts(kept@) == output_lines(rest.take(i - 1)),
            decreases n - i,
        {
            let ghost had = text::texts(kept@);
            proof {
                assert(rest.take(i as int).drop_last() =~= rest.take(i - 1));
                assert(rest.take(i as int).last() == lines@[i as int]@);
            }
            if !text::blank(lines[i].as_str()) && !text::starts(lines[i].as_str(), "Detc-") {
                kept.push(lines[i].clone());
                assert(text::texts(kept@) =~= had.push(lines@[i as int]@));
            }
            i += 1;
        }
        assert(rest.take(i - 1) =~= rest);
    }
    Entry { run, phase, command, summary, lines: kept }
}

/// What became of an object, in a word.  One that was left alone is neither
/// failed nor changed.
pub open spec fn outcome_of(phase: Phase, step: Step) -> Seq<char> {
    match phase {
        Phase::Found => planned_text(step.action),
        Phase::Applied => if step.error is Some {
            "failed"@
        } else if step.skipped is Some {
            "skipped"@
        } else {
            taken_text(step.action)
        },
    }
}

/// What became of the objects that were not the way they are declared.
pub open spec fn outcomes(phase: Phase, plan: Seq<Step>) -> Seq<Seq<char>>
    decreases plan.len(),
{
    if plan.len() == 0 {
        Seq::empty()
    } else {
        let before = outcomes(phase, plan.drop_last());
        if plan.last().action == Action::InSync {
            before
        } else {
            before.push(outcome_of(phase, plan.last()))
        }
    }
}

/// How often a word is in a list.
pub open spec fn times(s: Seq<Seq<char>>, word: Seq<char>) -> nat
    decreases s.len(),
{
    if s.len() == 0 {
        0
    } else {
        times(s.drop_last(), word) + if s.last() == word {
            1nat
        } else {
            0nat
        }
    }
}

/// What happened to the objects of a plan, as `1 created, 2 updated`: the words in
/// their order, each with how often it is true.
pub open spec fn tally_of(phase: Phase, plan: Seq<Step>) -> Seq<char> {
    let all = outcomes(phase, plan);
    let words = text::listing(all.to_set());
    if all.len() == 0 {
        "no object changed"@
    } else {
        text::join(
            Seq::new(
                words.len(),
                |i: int| text::decimal(times(all, words[i])) + " "@ + words[i],
            ),
            ", "@,
        )
    }
}

/// How often a word is in a list.
fn count(list: &Vec<String>, word: &str) -> (r: u64)
    ensures
        r == times(text::texts(list@), word@),
{
    let ghost all = text::texts(list@);
    let n: usize = list.len();
    let mut r: u64 = 0;
    let mut i: usize = 0;
    while i < n
        invariant
            i <= n == list@.len(),
            all == text::texts(list@),
            r == times(all.take(i as int), word@),
            r <= i,
        decreases n - i,
    {
        proof {
            assert(all.take(i + 1).drop_last() =~= all.take(i as int));
            assert(all.take(i + 1).last() == list@[i as int]@);
        }
        if text::equal(list[i].as_str(), word) {
            r += 1;
        }
        i += 1;
    }
    assert(all.take(i as int) =~= all);
    r
}

/// What happened to the objects of a plan, as `1 created, 2 updated`.
pub fn tally(phase: Phase, plan: &Plan) -> (r: String)
    ensures
        r@ == tally_of(phase, plan@),
{
    let changes = plan.changes();
    let ghost whole = plan@;
    let mut all: Vec<String> = Vec::new();
    let mut words: Vec<String> = Vec::new();
    let n: usize = changes.len();
    let mut i: usize = 0;
    assert(text::texts(all@) =~= Seq::empty());
    assert(text::texts(words@) =~= Seq::empty());
    assert(text::texts(words@).to_set() =~= text::texts(all@).to_set());
    while i < n
        invariant
            i <= n == changes@.len(),
            whole == plan@,
            steps(changes@) == whole,
            text::texts(all@) == outcomes(phase, whole.take(i as int)),
            text::ascending(text::texts(words@)),
            text::texts(words@).to_set() == text::texts(all@).to_set(),
        decreases n - i,
    {
        proof {
            assert(whole.take(i + 1).drop_last() =~= whole.take(i as int));
            assert(whole.take(i + 1).last() == changes@[i as int]@);
        }
        let change = &changes[i];
        if change.action().changes() {
            let word = match phase {
                Phase::Found => change.action().planned(),
                Phase::Applied => if change.error().is_some() {
                    "failed"
                } else if change.skipped().is_some() {
                    "skipped"
                } else {
                    change.action().taken()
                },
            };
            let ghost had = text::texts(all@);
            all.push(word.to_owned());
            text::enlist(&mut words, word);
            proof {
                let now = text::texts(all@);
                assert(now =~= had.push(word@));
                assert(now.take(had.len() as int) =~= had);
                assert(now.take(had.len() as int + 1) =~= now);
                text::lemma_take_set(now, had.len() as int);
            }
        }
        i += 1;
    }
    assert(whole.take(i as int) =~= whole);
    if all.len() == 0 {
        return "no object changed".to_owned();
    }
    proof {
        text::lemma_listing(text::texts(words@));
    }
    let ghost names = text::texts(words@);
    let ghost want = Seq::new(
        names.len(),
        |i: int| text::decimal(times(text::texts(all@), names[i])) + " "@ + names[i],
    );
    let mut parts: Vec<String> = Vec::new();
    let m: usize = words.len();
    let mut k: usize = 0;
    while k < m
        invariant
            k <= m == words@.len(),
            names == text::texts(words@),
            want == Seq::new(
                names.len(),
                |i: int| text::decimal(times(text::texts(all@), names[i])) + " "@ + names[i],
            ),
            parts@.len() == k,
            forall|j: int| 0 <= j < k ==> (#[trigger] parts@[j])@ == want[j],
        decreases m - k,
    {
        let mut part = text::decimal_of(count(&all, words[k].as_str()));
        part.append(" ");
        part.append(words[k].as_str());
        assert(part@ == want[k as int]);
        parts.push(part);
        k += 1;
    }
    assert(text::texts(parts@) =~= want);
    text::joined(&parts, ", ")
}

/// How a phase is named.
pub open spec fn phase_text(phase: Phase) -> Seq<char> {
    match phase {
        Phase::Found => FOUND@,
        Phase::Applied => APPLIED@,
    }
}

/// The lines of a commit message: what happened, the output of the run behind a
/// blank line, and behind another the trailers that address the run.
pub open spec fn message_lines(
    command: Seq<char>,
    summary: Seq<char>,
    lines: Seq<Seq<char>>,
    run: u64,
    phase: Phase,
) -> Seq<Seq<char>> {
    let head = seq![command + ": "@ + summary];
    let body = if lines.len() == 0 {
        head
    } else {
        head.push(Seq::empty()) + lines
    };
    body + seq![
        Seq::empty(),
        RUN@ + ": "@ + text::decimal(run as nat),
        PHASE@ + ": "@ + phase_text(phase),
        COMMAND@ + ": "@ + command,
    ]
}

/// Two texts with a colon between them.
fn pair(key: &str, value: &str) -> (r: String)
    ensures
        r@ == key@ + ": "@ + value@,
{
    let mut r = key.to_owned();
    r.append(": ");
    r.append(value);
    r
}

/// The message of the commit of one phase: what happened, the output of the run for
/// the objects that are not already the way they are declared, and the trailers that
/// address the run.
pub fn message(command: &str, run: u64, phase: Phase, plan: &Plan, lines: &Vec<String>) -> (r: String)
    ensures
        r@ == text::ended(
            message_lines(command@, tally_of(phase, plan@), text::texts(lines@), run, phase),
        ),
{
    let ghost want = message_lines(
        command@,
        tally_of(phase, plan@),
        text::texts(lines@),
        run,
        phase,
    );
    let mut all: Vec<String> = Vec::new();
    all.push(pair(command, tally(phase, plan).as_str()));
    let ghost head = seq![command@ + ": "@ + tally_of(phase, plan@)];
    assert(text::texts(all@) =~= head);
    if lines.len() > 0 {
        all.push(or_empty(None));
        assert(text::texts(all@) =~= head.push(Seq::empty()));
        let mut more = crate::detc::texts_again(lines);
        let ghost had = text::texts(all@);
        let ghost new = text::texts(more@);
        all.append(&mut more);
        assert(text::texts(all@) =~= had + new);
    }
    let ghost body = text::texts(all@);
    let name = match phase {
        Phase::Found => FOUND,
        Phase::Applied => APPLIED,
    };
    all.push(or_empty(None));
    all.push(pair(RUN, text::decimal_of(run).as_str()));
    all.push(pair(PHASE, name));
    all.push(pair(COMMAND, command));
    assert(text::texts(all@) =~= body + seq![
        Seq::empty(),
        RUN@ + ": "@ + text::decimal(run as nat),
        PHASE@ + ": "@ + phase_text(phase),
        COMMAND@ + ": "@ + command@,
    ]);
    text::ended_of(&all)
}

proof fn lemma_begins(a: Seq<char>, b: Seq<char>)
    ensures
        text::without_prefix(a + b, a) == Some(b),
{
    assert((a + b).subrange(0, a.len() as int) =~= a);
    assert(text::rest(a + b, a.len()) =~= b);
}

proof fn lemma_output_whole(lines: Seq<Seq<char>>)
    requires
        forall|i: int| 0 <= i < lines.len() ==> is_output(#[trigger] lines[i]),
    ensures
        output_lines(lines) == lines,
    decreases lines.len(),
{
    if lines.len() > 0 {
        let less = lines.drop_last();
        assert forall|i: int| 0 <= i < less.len() implies is_output(#[trigger] less[i]) by {
            assert(less[i] == lines[i]);
        }
        lemma_output_whole(less);
        assert(is_output(lines[lines.len() - 1]));
        assert(less.push(lines.last()) =~= lines);
    }
}

proof fn lemma_output_joins(a: Seq<Seq<char>>, b: Seq<Seq<char>>)
    ensures
        output_lines(a + b) == output_lines(a) + output_lines(b),
    decreases b.len(),
{
    if b.len() == 0 {
        assert(a + b =~= a);
        assert(output_lines(a) + output_lines(b) =~= output_lines(a));
    } else {
        lemma_output_joins(a, b.drop_last());
        assert((a + b).drop_last() =~= a + b.drop_last());
        assert((a + b).last() == b.last());
        assert(output_lines(a + b) =~= output_lines(a) + output_lines(b));
    }
}

proof fn lemma_no_output(t: Seq<char>)
    requires
        t.len() == 0 || text::begins(t, "Detc-"@),
    ensures
        output_lines(seq![t]) == Seq::<Seq<char>>::empty(),
{
    assert(seq![t].drop_last() =~= Seq::empty());
    assert(seq![t].last() == t);
    reveal_with_fuel(output_lines, 2);
}

proof fn lemma_trailer_prefix(key: Seq<char>, rest: Seq<char>)
    requires
        key == RUN@ || key == PHASE@ || key == COMMAND@,
    ensures
        text::begins(key + ": "@ + rest, "Detc-"@),
{
    reveal_strlit("Detc-");
    reveal_strlit("Detc-Run");
    reveal_strlit("Detc-Phase");
    reveal_strlit("Detc-Command");
    assert((key + ": "@ + rest).subrange(0, 5) =~= "Detc-"@);
}

proof fn lemma_other_trailer(key: Seq<char>, other: Seq<char>, rest: Seq<char>)
    requires
        key == RUN@ || key == PHASE@ || key == COMMAND@,
        other == RUN@ || other == PHASE@ || other == COMMAND@,
        key != other,
    ensures
        text::without_prefix(other + ": "@ + rest, key + ": "@) is None,
{
    reveal_strlit("Detc-Run");
    reveal_strlit("Detc-Phase");
    reveal_strlit("Detc-Command");
    reveal_strlit(": ");
    let line = other + ": "@ + rest;
    let prefix = key + ": "@;
    assert(RUN@[5] == 'R' && PHASE@[5] == 'P' && COMMAND@[5] == 'C');
    assert(line[5] == other[5]);
    assert(prefix[5] == key[5]);
    if text::begins(line, prefix) {
        assert(line.subrange(0, prefix.len() as int)[5] == line[5]);
    }
}

/// What a run recorded of itself is read back: the message of a commit gives the
/// number of the run, the phase, the command, what happened, and the output that the
/// run printed.
pub proof fn law_a_message_is_read_back(
    command: Seq<char>,
    summary: Seq<char>,
    lines: Seq<Seq<char>>,
    run: u64,
    phase: Phase,
)
    requires
        text::is_line(command),
        text::is_line(command + ": "@ + summary),
        forall|i: int|
            0 <= i < lines.len() ==> text::is_line(#[trigger] lines[i]) && is_output(lines[i]),
    ensures
        note_in(text::lines(text::ended(message_lines(command, summary, lines, run, phase)))) == (
        Note { run, phase: phase_text(phase), command, summary, lines }),
{
    let all = message_lines(command, summary, lines, run, phase);
    let number = text::decimal(run as nat);
    let named = phase_text(phase);
    let first = command + ": "@ + summary;
    let a = RUN@ + ": "@ + number;
    let b = PHASE@ + ": "@ + named;
    let c = COMMAND@ + ": "@ + command;
    let none = Seq::<char>::empty();
    let head = seq![first];
    let body = if lines.len() == 0 {
        head
    } else {
        head.push(none) + lines
    };
    let tail = seq![none, a, b, c];
    assert(all == body + tail);
    let n = all.len();
    lemma_phase_line(phase);
    lemma_number_line(run);
    assert(text::is_line(c)) by {
        lemma_trailer_line(COMMAND@, command);
    }
    assert(text::is_line(none));
    assert forall|i: int| 0 <= i < all.len() implies text::is_line(#[trigger] all[i]) by {
        if i < body.len() {
            assert(all[i] == body[i]);
            if i > 1 {
                assert(body[i] == lines[i - 2]);
            }
        } else {
            assert(all[i] == tail[i - body.len()]);
        }
    }
    text::lemma_ended_lines(all);
    // the trailers are at the end
    assert(all.last() == c);
    let all1 = all.drop_last();
    assert(all1.last() == b);
    let all2 = all1.drop_last();
    assert(all2.last() == a);
    lemma_begins(COMMAND@ + ": "@, command);
    lemma_begins(PHASE@ + ": "@, named);
    lemma_begins(RUN@ + ": "@, number);
    reveal_strlit("Detc-Run");
    reveal_strlit("Detc-Phase");
    reveal_strlit("Detc-Command");
    lemma_other_trailer(PHASE@, COMMAND@, command);
    lemma_other_trailer(RUN@, COMMAND@, command);
    lemma_other_trailer(RUN@, PHASE@, named);
    assert(trailer_in(all, COMMAND@) == Some(command));
    assert(trailer_in(all, PHASE@) == Some(named)) by {
        reveal_with_fuel(trailer_in, 3);
    }
    assert(trailer_in(all, RUN@) == Some(number)) by {
        reveal_with_fuel(trailer_in, 4);
    }
    text::lemma_decimal_is_read(run as nat);
    // the subject
    assert(all[0] == first);
    lemma_begins(command + ": "@, summary);
    // the output
    let rest = all.drop_first();
    lemma_trailer_prefix(RUN@, number);
    lemma_trailer_prefix(PHASE@, named);
    lemma_trailer_prefix(COMMAND@, command);
    lemma_no_output(none);
    lemma_no_output(a);
    lemma_no_output(b);
    lemma_no_output(c);
    let middle = if lines.len() == 0 {
        Seq::<Seq<char>>::empty()
    } else {
        seq![none] + lines
    };
    assert(rest =~= middle + seq![none] + seq![a] + seq![b] + seq![c]);
    lemma_output_joins(middle + seq![none] + seq![a] + seq![b], seq![c]);
    lemma_output_joins(middle + seq![none] + seq![a], seq![b]);
    lemma_output_joins(middle + seq![none], seq![a]);
    lemma_output_joins(middle, seq![none]);
    lemma_output_whole(lines);
    if lines.len() > 0 {
        lemma_output_joins(seq![none], lines);
    }
    assert(output_lines(rest) =~= lines);
}

proof fn lemma_trailer_line(key: Seq<char>, value: Seq<char>)
    requires
        key == RUN@ || key == PHASE@ || key == COMMAND@,
        text::is_line(value),
    ensures
        text::is_line(key + ": "@ + value),
{
    reveal_strlit("Detc-Run");
    reveal_strlit("Detc-Phase");
    reveal_strlit("Detc-Command");
    reveal_strlit(": ");
    let line = key + ": "@ + value;
    assert forall|i: int| 0 <= i < line.len() implies line[i] != '\n' by {
        if i < key.len() {
            assert(line[i] == key[i]);
        } else if i < key.len() + 2 {
            assert(line[i] == ": "@[i - key.len()]);
        } else {
            assert(line[i] == value[i - key.len() - 2]);
        }
    }
    if value.len() > 0 {
        assert(line.last() == value.last());
    } else {
        assert(line.last() == ' ');
    }
}

proof fn lemma_phase_line(phase: Phase)
    ensures
        text::is_line(PHASE@ + ": "@ + phase_text(phase)),
{
    reveal_strlit("found");
    reveal_strlit("applied");
    let named = phase_text(phase);
    assert forall|i: int| 0 <= i < named.len() implies named[i] != '\n' by {}
    assert(named.len() > 0 && named.last() != '\r');
    lemma_trailer_line(PHASE@, named);
}

proof fn lemma_number_line(run: u64)
    ensures
        text::is_line(RUN@ + ": "@ + text::decimal(run as nat)),
{
    let number = text::decimal(run as nat);
    text::lemma_decimal_is_read(run as nat);
    assert forall|i: int| 0 <= i < number.len() implies number[i] != '\n' by {
        assert(text::is_digit(number[i]));
    }
    assert(text::is_digit(number[number.len() - 1]));
    lemma_trailer_line(RUN@, number);
}

/// A path without the slashes that it begins with.
pub open spec fn unslashed(s: Seq<char>) -> Seq<char>
    decreases s.len(),
{
    if s.len() > 0 && s[0] == '/' {
        unslashed(s.drop_first())
    } else {
        s
    }
}

/// Where a configuration file sits in the system, and not where that system happened
/// to be mounted when it was configured.
pub open spec fn seat(root: Seq<char>, name: Seq<char>) -> Seq<char> {
    unslashed(
        match path::below(name, root) {
            Some(rest) => rest,
            None => name,
        },
    )
}

/// Where the journal keeps the record of an object: what it is declared to be, and
/// what it turned out to be.
pub open spec fn paths_of(root: Seq<char>, kind: Seq<char>, name: Seq<char>) -> (Seq<char>, Seq<char>) {
    if kind == TEMPLATE@ {
        ("templates/"@ + seat(root, name), "files/"@ + seat(root, name))
    } else {
        (
            "resources/"@ + kind + "/"@ + name,
            "states/"@ + kind + "/"@ + name + ".json"@,
        )
    }
}

/// A path without the slashes that it begins with.
fn without_slashes(s: &str) -> (r: String)
    ensures
        r@ == unslashed(s@),
{
    let cs = text::chars_of(s);
    let n: usize = cs.len();
    let mut i: usize = 0;
    assert(s@.skip(0) =~= s@);
    while i < n && cs[i] == '/'
        invariant
            i <= n == cs@.len(),
            cs@ == s@,
            unslashed(s@) == unslashed(s@.skip(i as int)),
        decreases n - i,
    {
        assert(s@.skip(i as int)[0] == s@[i as int]);
        assert(s@.skip(i as int).drop_first() =~= s@.skip(i + 1));
        i += 1;
    }
    let r = text::string_of(&cs, i, n);
    assert(r@ =~= s@.skip(i as int));
    assert(i < n ==> s@.skip(i as int)[0] == s@[i as int]);
    r
}

/// Where the journal keeps the record of an object: what it is declared to be, and
/// what it turned out to be.
///
/// A configuration file is kept as the template that generates it and as the bytes it
/// holds, and a resource as the declaration that asks for it and as the state that its
/// provider reports.
pub fn paths(root: &str, kind: &str, name: &str) -> (r: (String, String))
    ensures
        (r.0@, r.1@) == paths_of(root@, kind@, name@),
{
    if text::equal(kind, TEMPLATE) {
        let target = match path::strip(name, root) {
            Some(rest) => rest,
            None => name.to_owned(),
        };
        let target = without_slashes(target.as_str());
        let mut source = "templates/".to_owned();
        source.append(target.as_str());
        let mut file = "files/".to_owned();
        file.append(target.as_str());
        (source, file)
    } else {
        let mut source = "resources/".to_owned();
        source.append(kind);
        source.append("/");
        source.append(name);
        let mut state = "states/".to_owned();
        state.append(kind);
        state.append("/");
        state.append(name);
        state.append(".json");
        (source, state)
    }
}

/// One object as the journal records it: the paths that hold it, with their text, and
/// the paths that have to go, because the object is not in the system.
pub struct Record {
    pub entries: Vec<(String, String)>,
    pub gone: Vec<String>,
}

/// One object as the journal records it, as plain values.
pub struct Trace {
    pub entries: Seq<(Seq<char>, Seq<char>)>,
    pub gone: Seq<Seq<char>>,
}

/// Paths and what they hold, as plain values.
pub open spec fn held(s: Seq<(String, String)>) -> Seq<(Seq<char>, Seq<char>)> {
    Seq::new(s.len(), |i: int| (s[i].0@, s[i].1@))
}

impl View for Record {
    type V = Trace;

    open spec fn view(&self) -> Trace {
        Trace { entries: held(self.entries@), gone: text::texts(self.gone@) }
    }
}

/// The states of a resource, the one it was asked for and the one that was reported,
/// which live together so that the difference of two commits is the transition
/// itself.
pub open spec fn state_json(order: i64, desired: Map<Seq<char>, Json>, state: Option<Json>) -> Json {
    Json::Object(
        Map::<Seq<char>, Json>::empty().insert(
            "order"@,
            Json::Number(provider::whole_figure(order as int)),
        ).insert("desired"@, Json::Object(desired)).insert(
            "state"@,
            match state {
                Some(v) => v,
                None => Json::Null,
            },
        ),
    )
}

/// One object as the journal records it, at a moment of the run.
pub open spec fn trace_of(root: Seq<char>, m: Moment) -> Trace {
    match m {
        Moment::Template { target, template, content } => {
            let (source, file) = paths_of(root, TEMPLATE@, target);
            match content {
                Some(content) => Trace {
                    entries: seq![(source, template), (file, content)],
                    gone: Seq::empty(),
                },
                None => Trace { entries: seq![(source, template)], gone: seq![file] },
            }
        },
        Moment::Resource { kind, name, order, declared, desired, state } => {
            let (source, file) = paths_of(root, kind, name);
            Trace {
                entries: seq![
                    (source, declared),
                    (file, document::json_pretty(state_json(order, desired, state)) + "\n"@),
                ],
                gone: Seq::empty(),
            }
        },
    }
}

impl Record {
    /// One object as the journal records it, at a moment of the run.
    ///
    /// A configuration file that is not in the system yet has nothing to record, and
    /// the journal has to say so rather than keep the last thing it held.
    pub fn of(snapshot: &Snapshot, root: &str) -> (r: Self)
        ensures
            r@ == trace_of(root@, snapshot@),
    {
        let mut entries: Vec<(String, String)> = Vec::new();
        let mut gone: Vec<String> = Vec::new();
        match snapshot {
            Snapshot::Template { target, template, content } => {
                let (source, file) = paths(root, TEMPLATE, target.as_str());
                entries.push((source, template.clone()));
                match content {
                    Some(content) => {
                        entries.push((file, content.clone()));
                    },
                    None => {
                        gone.push(file);
                    },
                }
            },
            Snapshot::Resource { kind, name, order, declared, desired, state } => {
                let (source, file) = paths(root, kind.as_str(), name.as_str());
                entries.push((source, declared.clone()));
                let mut body: Vec<(String, Datum)> = Vec::new();
                value::put(
                    &mut body,
                    "order".to_owned(),
                    Datum::Number(provider::whole_number(*order)),
                );
                value::put(
                    &mut body,
                    "desired".to_owned(),
                    Datum::Object(value::copied(desired)),
                );
                let reported = match state {
                    Some(v) => v.copy(),
                    None => Datum::Null,
                };
                value::put(&mut body, "state".to_owned(), reported);
                let mut written = document::to_pretty(&Datum::Object(body));
                written.append("\n");
                entries.push((file, written));
            },
        }
        let r = Record { entries, gone };
        assert(r@.entries =~= trace_of(root@, snapshot@).entries);
        assert(r@.gone =~= trace_of(root@, snapshot@).gone);
        r
    }
}

/// One object of a run as the journal is told of it: what it is at this moment, and
/// what the journal already holds about it.
pub struct Seen {
    pub snapshot: Result<Option<Snapshot>, String>,
    pub carried: Vec<(String, String)>,
}

/// What the journal records of objects.  One that could not be worked out says nothing
/// about the system, so whatever the journal holds about it is carried over.
pub open spec fn traces(root: Seq<char>, s: Seq<Seen>) -> Trace
    decreases s.len(),
{
    if s.len() == 0 {
        Trace { entries: Seq::empty(), gone: Seq::empty() }
    } else {
        let before = traces(root, s.drop_last());
        match moment(s.last().snapshot) {
            Ok(Some(m)) => Trace {
                entries: before.entries + trace_of(root, m).entries,
                gone: before.gone + trace_of(root, m).gone,
            },
            _ => Trace {
                entries: before.entries + held(s.last().carried@),
                gone: before.gone,
            },
        }
    }
}

/// Once more what paths hold.
fn held_again(s: &Vec<(String, String)>) -> (r: Vec<(String, String)>)
    ensures
        held(r@) == held(s@),
{
    let mut r: Vec<(String, String)> = Vec::new();
    let n: usize = s.len();
    let mut i: usize = 0;
    while i < n
        invariant
            i <= n == s@.len(),
            r@.len() == i,
            forall|j: int|
                0 <= j < i ==> (#[trigger] r@[j]).0@ == s@[j].0@ && r@[j].1@ == s@[j].1@,
        decreases n - i,
    {
        r.push((s[i].0.clone(), s[i].1.clone()));
        i += 1;
    }
    assert(held(r@) =~= held(s@));
    r
}

/// What the journal records of a run: the namespace as the run read it, and its
/// objects.
pub fn record(root: &str, variables: &str, seen: &Vec<Seen>) -> (r: Record)
    ensures
        r@.entries == seq![(VARIABLES@, variables@)] + traces(root@, seen@).entries,
        r@.gone == traces(root@, seen@).gone,
{
    let ghost all = seen@;
    let ghost first = seq![(VARIABLES@, variables@)];
    let mut entries: Vec<(String, String)> = Vec::new();
    let mut gone: Vec<String> = Vec::new();
    entries.push((VARIABLES.to_owned(), variables.to_owned()));
    assert(held(entries@) =~= first);
    assert(text::texts(gone@) =~= Seq::empty());
    assert(first + Seq::<(Seq<char>, Seq<char>)>::empty() =~= first);
    let n: usize = seen.len();
    let mut i: usize = 0;
    while i < n
        invariant
            i <= n == seen@.len(),
            all == seen@,
            held(entries@) == first + traces(root@, all.take(i as int)).entries,
            text::texts(gone@) == traces(root@, all.take(i as int)).gone,
        decreases n - i,
    {
        let ghost before = traces(root@, all.take(i as int));
        let ghost had = held(entries@);
        let ghost lost = text::texts(gone@);
        proof {
            assert(all.take(i + 1).drop_last() =~= all.take(i as int));
            assert(all.take(i + 1).last() == seen@[i as int]);
        }
        match &seen[i].snapshot {
            Ok(Some(snapshot)) => {
                let mut one = Record::of(snapshot, root);
                let ghost new = one@;
                entries.append(&mut one.entries);
                gone.append(&mut one.gone);
                assert(held(entries@) =~= had + new.entries);
                assert(text::texts(gone@) =~= lost + new.gone);
                assert(first + before.entries + new.entries =~= first + (before.entries
                    + new.entries));
            },
            _ => {
                let mut more = held_again(&seen[i].carried);
                let ghost new = held(more@);
                entries.append(&mut more);
                assert(held(entries@) =~= had + new);
                assert(first + before.entries + new =~= first + (before.entries + new));
            },
        }
        i += 1;
    }
    assert(all.take(i as int) =~= all);
    Record { entries, gone }
}

/// One commit of the history, as it was read: its name, when it was made, its message,
/// and the names and contents at the top of its tree and of the tree before it.
pub struct Logged {
    pub id: String,
    pub time: String,
    pub message: String,
    pub top: Vec<(String, String)>,
    pub before: Option<Vec<(String, String)>>,
}

/// One commit of the history, as plain values.
pub struct Log {
    pub id: Seq<char>,
    pub time: Seq<char>,
    pub note: Note,
    pub top: Seq<(Seq<char>, Seq<char>)>,
    pub before: Option<Seq<(Seq<char>, Seq<char>)>>,
}

impl View for Logged {
    type V = Log;

    open spec fn view(&self) -> Log {
        Log {
            id: self.id@,
            time: self.time@,
            note: note_in(text::lines(self.message@)),
            top: held(self.top@),
            before: match self.before {
                Some(before) => Some(held(before@)),
                None => None,
            },
        }
    }
}

/// What stands under a name at the top of a tree.
pub open spec fn stands_at(top: Seq<(Seq<char>, Seq<char>)>, name: Seq<char>) -> Option<Seq<char>>
    decreases top.len(),
{
    if top.len() == 0 {
        None
    } else if top.last().0 == name {
        Some(top.last().1)
    } else {
        stands_at(top.drop_last(), name)
    }
}

/// The top level entries that hold what the system was told to be, and what each of
/// them is called when a run has to be explained.
pub open spec fn inputs() -> Seq<(Seq<char>, Seq<char>)> {
    seq![
        (VARIABLES@, "a variable"@),
        ("templates"@, "a template"@),
        ("resources"@, "a declaration"@),
    ]
}

/// The inputs that moved, of the first `n`.
pub open spec fn moved(
    now: Seq<(Seq<char>, Seq<char>)>,
    before: Seq<(Seq<char>, Seq<char>)>,
    n: nat,
) -> Seq<Seq<char>>
    decreases n,
{
    if n == 0 {
        Seq::empty()
    } else {
        let less = moved(now, before, (n - 1) as nat);
        let (name, called) = inputs()[n - 1];
        if stands_at(now, name) != stands_at(before, name) {
            less.push(called)
        } else {
            less
        }
    }
}

/// Why the system changed, from the inputs that moved before it did.
///
/// The commit of what a run found holds the inputs as they are now and the outputs as
/// they were, so which part of it moved is the whole answer.  A run with nothing in
/// front of it did not change any input, and the only thing left that can have changed
/// the system is the machine describing itself differently.
pub open spec fn cause_of(found: Option<Log>) -> Seq<char> {
    match found {
        None => "a probe reported something new"@,
        Some(found) => match found.before {
            None => "the system was recorded for the first time"@,
            Some(before) => {
                let all = moved(found.top, before, 3);
                if all.len() == 0 {
                    "the system was changed outside detc"@
                } else {
                    text::join(all, " and "@) + " changed"@
                }
            },
        },
    }
}

/// What stands under a name at the top of a tree.
fn find<'a>(top: &'a Vec<(String, String)>, name: &str) -> (r: Option<&'a str>)
    ensures
        stands_at(held(top@), name@) == (match r {
            Some(t) => Some(t@),
            None => None,
        }),
{
    let ghost all = held(top@);
    let mut i: usize = top.len();
    assert(all.take(i as int) =~= all);
    while i > 0
        invariant
            i <= top@.len(),
            all == held(top@),
            stands_at(all, name@) == stands_at(all.take(i as int), name@),
        decreases i,
    {
        i -= 1;
        proof {
            assert(all.take(i + 1).drop_last() =~= all.take(i as int));
            assert(all.take(i + 1).last() == (top@[i as int].0@, top@[i as int].1@));
        }
        if text::equal(top[i].0.as_str(), name) {
            return Some(top[i].1.as_str());
        }
    }
    None
}

/// Whether what stands under a name is not the same in two trees.
fn differs(now: &Vec<(String, String)>, before: &Vec<(String, String)>, name: &str) -> (r: bool)
    ensures
        r == (stands_at(held(now@), name@) != stands_at(held(before@), name@)),
{
    match (find(now, name), find(before, name)) {
        (None, None) => false,
        (Some(a), Some(b)) => !text::equal(a, b),
        _ => true,
    }
}

/// Why the system changed, from the inputs that moved before it did.
pub fn cause(found: Option<&Logged>) -> (r: String)
    ensures
        r@ == cause_of(match found {
            Some(found) => Some(found@),
            None => None,
        }),
{
    let found = match found {
        None => {
            return "a probe reported something new".to_owned();
        },
        Some(found) => found,
    };
    let before = match &found.before {
        None => {
            return "the system was recorded for the first time".to_owned();
        },
        Some(before) => before,
    };
    let ghost now = held(found.top@);
    let ghost was = held(before@);
    let mut all: Vec<String> = Vec::new();
    assert(text::texts(all@) =~= moved(now, was, 0));
    reveal_with_fuel(moved, 4);
    if differs(&found.top, before, VARIABLES) {
        all.push("a variable".to_owned());
    }
    assert(text::texts(all@) =~= moved(now, was, 1));
    if differs(&found.top, before, "templates") {
        all.push("a template".to_owned());
    }
    assert(text::texts(all@) =~= moved(now, was, 2));
    if differs(&found.top, before, "resources") {
        all.push("a declaration".to_owned());
    }
    assert(text::texts(all@) =~= moved(now, was, 3));
    if all.len() == 0 {
        return "the system was changed outside detc".to_owned();
    }
    let mut r = text::joined(&all, " and ");
    r.append(" changed");
    r
}

/// One run of `detc`, as the journal recorded it.
pub struct Run {
    /// The number that addresses the run.
    pub id: u64,
    /// When the run happened.
    pub time: String,
    /// The subcommand that was invoked.
    pub command: String,
    /// Why the system changed, as far as the history can tell.
    pub cause: String,
    /// The commit of the system as the run found it, and what it was about to do.
    pub found: Option<(String, String)>,
    /// The commit of the system as the run left it, and what it did.
    pub applied: Option<(String, String)>,
    /// What became of the objects.
    pub summary: String,
    /// The output that the run printed, for the objects that were not already the way
    /// they are declared.
    pub lines: Vec<String>,
}

/// One run of `detc`, as plain values.
pub struct Past {
    pub id: u64,
    pub time: Seq<char>,
    pub command: Seq<char>,
    pub cause: Seq<char>,
    pub found: Option<Mark>,
    pub applied: Option<Mark>,
    pub summary: Seq<char>,
    pub lines: Seq<Seq<char>>,
}

/// A commit of a run, as plain values.
pub open spec fn marked(c: Option<(String, String)>) -> Option<Mark> {
    match c {
        Some((id, summary)) => Some(Mark { id: id@, summary: summary@ }),
        None => None,
    }
}

impl View for Run {
    type V = Past;

    open spec fn view(&self) -> Past {
        Past {
            id: self.id,
            time: self.time@,
            command: self.command@,
            cause: self.cause@,
            found: marked(self.found),
            applied: marked(self.applied),
            summary: self.summary@,
            lines: text::texts(self.lines@),
        }
    }
}

/// Runs, as plain values.
pub open spec fn pasts(s: Seq<Run>) -> Seq<Past> {
    Seq::new(s.len(), |i: int| s[i]@)
}

/// Commits, as plain values.
pub open spec fn logs(s: Seq<Logged>) -> Seq<Log> {
    Seq::new(s.len(), |i: int| s[i]@)
}

/// The first commit of a phase.
pub open spec fn in_phase(group: Seq<Log>, phase: Seq<char>) -> Option<Log>
    decreases group.len(),
{
    if group.len() == 0 {
        None
    } else if group[0].note.phase == phase {
        Some(group[0])
    } else {
        in_phase(group.drop_first(), phase)
    }
}

/// How a commit is referred to.
pub open spec fn marked_log(c: Option<Log>) -> Option<Mark> {
    match c {
        Some(c) => Some(Mark { id: c.id, summary: c.note.summary }),
        None => None,
    }
}

/// The run that commits are of.  What the run did is what it left behind, and only a
/// run that changed nothing after finding something is described by what it found.
pub open spec fn past_of(group: Seq<Log>) -> Past {
    let found = in_phase(group, FOUND@);
    let applied = in_phase(group, APPLIED@);
    let outcome = match applied {
        Some(c) => c,
        None => match found {
            Some(c) => c,
            None => group[0],
        },
    };
    Past {
        id: outcome.note.run,
        time: outcome.time,
        command: outcome.note.command,
        cause: cause_of(found),
        found: marked_log(found),
        applied: marked_log(applied),
        summary: outcome.note.summary,
        lines: outcome.note.lines,
    }
}

/// How many commits from the front of a history are of the run of the first.
pub open spec fn group_len(history: Seq<Log>, run: u64) -> nat
    decreases history.len(),
{
    if history.len() == 0 || history[0].note.run != run {
        0
    } else {
        1 + group_len(history.drop_first(), run)
    }
}

/// The runs of a history.  The commits of a run are next to each other, so they are
/// grouped as they are read.
pub open spec fn pasts_of(history: Seq<Log>) -> Seq<Past>
    decreases history.len(),
    via pasts_of_decreases
{
    if history.len() == 0 {
        Seq::empty()
    } else {
        let n = group_len(history, history[0].note.run);
        seq![past_of(history.take(n as int))] + pasts_of(history.skip(n as int))
    }
}

#[via_fn]
proof fn pasts_of_decreases(history: Seq<Log>) {
    if history.len() > 0 {
        lemma_group_len(history, history[0].note.run);
    }
}

proof fn lemma_group_len(history: Seq<Log>, run: u64)
    ensures
        group_len(history, run) <= history.len(),
        history.len() > 0 && history[0].note.run == run ==> group_len(history, run) > 0,
    decreases history.len(),
{
    if history.len() > 0 && history[0].note.run == run {
        lemma_group_len(history.drop_first(), run);
    }
}

/// The position of the first commit of a phase, between two positions.
fn find_phase(history: &Vec<Logged>, from: usize, to: usize, phase: &str) -> (r: Option<usize>)
    requires
        from <= to <= history@.len(),
    ensures
        in_phase(logs(history@).subrange(from as int, to as int), phase@) == (match r {
            Some(i) => Some(history@[i as int]@),
            None => None,
        }),
        r matches Some(i) ==> from <= i < to,
{
    let ghost group = logs(history@).subrange(from as int, to as int);
    let mut i: usize = from;
    assert(group.skip(0) =~= group);
    while i < to
        invariant
            from <= i <= to <= history@.len(),
            group == logs(history@).subrange(from as int, to as int),
            in_phase(group, phase@) == in_phase(group.skip(i - from), phase@),
        decreases to - i,
    {
        assert(group.skip(i - from)[0] == history@[i as int]@);
        assert(group.skip(i - from).drop_first() =~= group.skip(i - from + 1));
        let entry = parse(history[i].message.as_str());
        if text::equal(entry.phase.as_str(), phase) {
            return Some(i);
        }
        i += 1;
    }
    assert(group.skip(to - from) =~= Seq::empty());
    None
}

/// How a commit is referred to.
fn mark_at(history: &Vec<Logged>, at: Option<usize>) -> (r: Option<(String, String)>)
    requires
        at matches Some(i) ==> i < history@.len(),
    ensures
        marked(r) == marked_log(match at {
            Some(i) => Some(history@[i as int]@),
            None => None,
        }),
{
    match at {
        Some(i) => {
            let entry = parse(history[i].message.as_str());
            Some((history[i].id.clone(), entry.summary))
        },
        None => None,
    }
}

/// Put the commits of one run together into what `detc report` shows.
fn run_of(history: &Vec<Logged>, from: usize, to: usize) -> (r: Run)
    requires
        from < to <= history@.len(),
    ensures
        r@ == past_of(logs(history@).subrange(from as int, to as int)),
{
    let ghost group = logs(history@).subrange(from as int, to as int);
    let found = find_phase(history, from, to, FOUND);
    let applied = find_phase(history, from, to, APPLIED);
    let at: usize = match applied {
        Some(i) => i,
        None => match found {
            Some(i) => i,
            None => from,
        },
    };
    assert(group[0] == history@[from as int]@);
    let entry = parse(history[at].message.as_str());
    let why = match found {
        Some(i) => cause(Some(&history[i])),
        None => cause(None),
    };
    Run {
        id: entry.run,
        time: history[at].time.clone(),
        command: entry.command,
        cause: why,
        found: mark_at(history, found),
        applied: mark_at(history, applied),
        summary: entry.summary,
        lines: entry.lines,
    }
}

/// Every run that a history holds, the most recent one first, given its commits, the
/// most recent one first.
pub fn runs(history: &Vec<Logged>) -> (r: Vec<Run>)
    ensures
        pasts(r@) == pasts_of(logs(history@)),
{
    let ghost all = logs(history@);
    let mut r: Vec<Run> = Vec::new();
    let n: usize = history.len();
    let mut i: usize = 0;
    assert(pasts(r@) =~= Seq::empty());
    assert(all.skip(0) =~= all);
    assert(pasts(r@) + pasts_of(all.skip(0)) =~= pasts_of(all));
    while i < n
        invariant
            i <= n == history@.len(),
            all == logs(history@),
            pasts(r@) + pasts_of(all.skip(i as int)) == pasts_of(all),
        decreases n - i,
    {
        let ghost rest = all.skip(i as int);
        let run: u64 = parse(history[i].message.as_str()).run;
        assert(rest[0] == history@[i as int]@);
        let mut j: usize = i + 1;
        proof {
            assert(rest.drop_first() =~= all.skip(i + 1));
        }
        while j < n && parse(history[j].message.as_str()).run == run
            invariant
                i < j <= n == history@.len(),
                all == logs(history@),
                rest == all.skip(i as int),
                group_len(rest, run) == (j - i) + group_len(all.skip(j as int), run),
            decreases n - j,
        {
            assert(all.skip(j as int)[0] == history@[j as int]@);
            assert(all.skip(j as int).drop_first() =~= all.skip(j + 1));
            j += 1;
        }
        proof {
            if j < n {
                assert(all.skip(j as int)[0] == history@[j as int]@);
            }
            assert(group_len(all.skip(j as int), run) == 0);
            assert(group_len(rest, run) == j - i);
            assert(rest.take(j - i) =~= all.subrange(i as int, j as int));
            assert(rest.skip(j - i) =~= all.skip(j as int));
        }
        let ghost had = pasts(r@);
        let one = run_of(history, i, j);
        r.push(one);
        assert(pasts(r@) =~= had.push(one@));
        assert(had + (seq![one@] + pasts_of(all.skip(j as int))) =~= had.push(one@) + pasts_of(
            all.skip(j as int),
        ));
        i = j;
    }
    assert(all.skip(i as int) =~= Seq::empty());
    assert(pasts(r@) + pasts_of(all.skip(i as int)) =~= pasts(r@));
    r
}

/// The lines of objects that could not be applied.
pub open spec fn failed_lines(lines: Seq<Seq<char>>) -> Seq<Seq<char>>
    decreases lines.len(),
{
    if lines.len() == 0 {
        Seq::empty()
    } else if text::begins(lines.last(), FAILED@) {
        failed_lines(lines.drop_last()).push(lines.last())
    } else {
        failed_lines(lines.drop_last())
    }
}

impl Run {
    /// The objects that could not be applied.
    pub fn failures(&self) -> (r: Vec<String>)
        ensures
            text::texts(r@) == failed_lines(self@.lines),
    {
        let ghost all = self@.lines;
        let mut r: Vec<String> = Vec::new();
        let n: usize = self.lines.len();
        let mut i: usize = 0;
        assert(text::texts(r@) =~= Seq::empty());
        while i < n
            invariant
                i <= n == self.lines@.len(),
                all == text::texts(self.lines@),
                text::texts(r@) == failed_lines(all.take(i as int)),
            decreases n - i,
        {
            proof {
                assert(all.take(i + 1).drop_last() =~= all.take(i as int));
                assert(all.take(i + 1).last() == self.lines@[i as int]@);
            }
            if text::starts(self.lines[i].as_str(), FAILED) {
                let ghost had = text::texts(r@);
                r.push(self.lines[i].clone());
                assert(text::texts(r@) =~= had.push(self.lines@[i as int]@));
            }
            i += 1;
        }
        assert(all.take(i as int) =~= all);
        r
    }
}

/// The first run of a number.
pub open spec fn numbered(all: Seq<Past>, id: u64) -> Option<Past>
    decreases all.len(),
{
    if all.len() == 0 {
        None
    } else if all[0].id == id {
        Some(all[0])
    } else {
        numbered(all.drop_first(), id)
    }
}

/// One run, by its number.
pub fn run<'a>(all: &'a Vec<Run>, id: u64) -> (r: Result<&'a Run, String>)
    ensures
        match numbered(pasts(all@), id) {
            Some(past) => r is Ok && r->Ok_0@ == past,
            None => r is Err && r->Err_0@ == "There is no run "@ + text::decimal(id as nat)
                + " in the journal"@,
        },
{
    let ghost whole = pasts(all@);
    let n: usize = all.len();
    let mut i: usize = 0;
    assert(whole.skip(0) =~= whole);
    while i < n
        invariant
            i <= n == all@.len(),
            whole == pasts(all@),
            numbered(whole, id) == numbered(whole.skip(i as int), id),
        decreases n - i,
    {
        assert(whole.skip(i as int)[0] == all@[i as int]@);
        assert(whole.skip(i as int).drop_first() =~= whole.skip(i + 1));
        if all[i].id == id {
            return Ok(&all[i]);
        }
        i += 1;
    }
    assert(whole.skip(i as int) =~= Seq::empty());
    let mut e = "There is no run ".to_owned();
    e.append(text::decimal_of(id).as_str());
    e.append(" in the journal");
    Err(e)
}

/// What a list of runs says.
pub open spec fn run_sayings(all: Seq<Past>, only_fails: bool) -> Seq<Saying>
    decreases all.len(),
{
    if all.len() == 0 {
        Seq::empty()
    } else {
        let before = run_sayings(all.drop_last(), only_fails);
        let run = all.last();
        if only_fails && failed_lines(run.lines).len() == 0 {
            before
        } else {
            before.push(
                Saying::Run {
                    id: run.id,
                    time: run.time,
                    command: run.command,
                    summary: run.summary,
                },
            )
        }
    }
}

/// What one run says: what went wrong, for something that is not a person, or all of
/// it.
pub open spec fn detail(run: Past, only_fails: bool) -> Seq<Saying> {
    if only_fails {
        let lines = failed_lines(run.lines);
        Seq::new(lines.len(), |i: int| Saying::Line(lines[i]))
    } else {
        seq![
            Saying::RunDetail {
                id: run.id,
                time: run.time,
                command: run.command,
                cause: run.cause,
                found: run.found,
                applied: run.applied,
                lines: run.lines,
            },
        ]
    }
}

/// What `report` is asked for.
pub struct Wanted<'a> {
    pub id: Option<&'a str>,
    pub list: bool,
    pub last: bool,
    pub only_fails: bool,
}

/// The run that is asked for: the one of a number, unless the last one is meant.
pub open spec fn reported_run(all: Result<Seq<Past>, Seq<char>>, id: Option<Seq<char>>, last: bool) -> Result<
    Past,
    Seq<char>,
> {
    let id = if last {
        None
    } else {
        id
    };
    match id {
        Some(id) => match run_number(id) {
            None => Err(id + " is not the number of a run"@),
            Some(n) => match all {
                Err(e) => Err(e),
                Ok(all) => match numbered(all, n) {
                    Some(run) => Ok(run),
                    None => Err(
                        "There is no run "@ + text::decimal(n as nat) + " in the journal"@,
                    ),
                },
            },
        },
        None => match all {
            Err(e) => Err(e),
            Ok(all) => if all.len() == 0 {
                Err("The journal has no run to report"@)
            } else {
                Ok(all[0])
            },
        },
    }
}

/// Runs that were read.
pub open spec fn runs_read(r: Result<Vec<Run>, String>) -> Result<Seq<Past>, Seq<char>> {
    match r {
        Ok(s) => Ok(pasts(s@)),
        Err(e) => Err(e@),
    }
}

/// What `report` says.
pub open spec fn reported(
    opened: Result<(), Seq<char>>,
    all: Result<Seq<Past>, Seq<char>>,
    id: Option<Seq<char>>,
    list: bool,
    last: bool,
    only_fails: bool,
) -> Speech {
    match opened {
        Err(e) => Speech { said: Seq::empty(), end: Err(e) },
        Ok(_) => if list {
            match all {
                Err(e) => Speech { said: Seq::empty(), end: Err(e) },
                Ok(all) => Speech { said: run_sayings(all, only_fails), end: Ok(()) },
            }
        } else {
            match reported_run(all, id, last) {
                Err(e) => Speech { said: Seq::empty(), end: Err(e) },
                Ok(run) => Speech { said: detail(run, only_fails), end: Ok(()) },
            }
        },
    }
}

/// Nothing said but a failure.
fn failure(e: String) -> (r: Told)
    ensures
        r@ == (Speech { said: Seq::empty(), end: Err(e@) }),
{
    let records: Vec<Report> = Vec::new();
    assert(sayings(records@) =~= Seq::empty());
    Told { records, end: Err(e) }
}

/// A commit of a run.
fn commit(c: &Option<(String, String)>) -> (r: Option<Commit>)
    ensures
        mark(r) == marked(*c),
{
    match c {
        Some((id, summary)) => Some(Commit { id: id.clone(), summary: summary.clone() }),
        None => None,
    }
}

/// What one run says.
fn show(run: &Run, only_fails: bool) -> (r: Vec<Report>)
    ensures
        sayings(r@) == detail(run@, only_fails),
{
    let mut r: Vec<Report> = Vec::new();
    if !only_fails {
        let record = Report::RunDetail {
            id: run.id,
            time: run.time.clone(),
            command: run.command.clone(),
            cause: run.cause.clone(),
            found: commit(&run.found),
            applied: commit(&run.applied),
            lines: crate::detc::texts_again(&run.lines),
        };
        r.push(record);
        assert(sayings(r@) =~= seq![record@]);
        return r;
    }
    let lines = run.failures();
    let ghost want = detail(run@, only_fails);
    let n: usize = lines.len();
    let mut i: usize = 0;
    assert(sayings(r@) =~= want.take(0));
    while i < n
        invariant
            i <= n == lines@.len(),
            only_fails,
            text::texts(lines@) == failed_lines(run@.lines),
            want == detail(run@, only_fails),
            sayings(r@) == want.take(i as int),
        decreases n - i,
    {
        let ghost had = sayings(r@);
        let record = Report::Line(lines[i].clone());
        assert(failed_lines(run@.lines)[i as int] == lines@[i as int]@);
        assert(record@ == want[i as int]);
        r.push(record);
        assert(sayings(r@) =~= had.push(record@));
        assert(had.push(record@) =~= want.take(i + 1));
        i += 1;
    }
    assert(want.take(i as int) =~= want);
    r
}

/// What a list of runs says.
fn enumerate(all: &Vec<Run>, only_fails: bool) -> (r: Vec<Report>)
    ensures
        sayings(r@) == run_sayings(pasts(all@), only_fails),
{
    let ghost whole = pasts(all@);
    let mut r: Vec<Report> = Vec::new();
    let n: usize = all.len();
    let mut i: usize = 0;
    assert(sayings(r@) =~= Seq::empty());
    while i < n
        invariant
            i <= n == all@.len(),
            whole == pasts(all@),
            sayings(r@) == run_sayings(whole.take(i as int), only_fails),
        decreases n - i,
    {
        proof {
            assert(whole.take(i + 1).drop_last() =~= whole.take(i as int));
            assert(whole.take(i + 1).last() == all@[i as int]@);
        }
        let failures = all[i].failures();
        assert(text::texts(failures@).len() == failures@.len());
        if !(only_fails && failures.len() == 0) {
            let ghost had = sayings(r@);
            let record = Report::Run {
                id: all[i].id,
                time: all[i].time.clone(),
                command: all[i].command.clone(),
                summary: all[i].summary.clone(),
            };
            r.push(record);
            assert(sayings(r@) =~= had.push(record@));
        }
        i += 1;
    }
    assert(whole.take(i as int) =~= whole);
    r
}

/// Show what the runs of `detc` did to the system, by whether there is a journal, and
/// the runs that were read in it.
///
/// Only the runs that changed something are there to be shown, because the journal
/// records the changes of a system and not the times it was asked whether it had any.
pub fn report(wanted: &Wanted, opened: &Result<(), String>, all: &Result<Vec<Run>, String>) -> (r: Told)
    ensures
        r@ == reported(
            var::outcome(*opened),
            runs_read(*all),
            match wanted.id {
                Some(id) => Some(id@),
                None => None,
            },
            wanted.list,
            wanted.last,
            wanted.only_fails,
        ),
{
    if let Err(e) = opened {
        return failure(e.clone());
    }
    if wanted.list {
        return match all {
            Err(e) => failure(e.clone()),
            Ok(all) => Told { records: enumerate(all, wanted.only_fails), end: Ok(()) },
        };
    }
    let id = if wanted.last {
        None
    } else {
        wanted.id
    };
    match id {
        Some(id) => match text::read_natural(id) {
            None => {
                let mut e = id.to_owned();
                e.append(" is not the number of a run");
                failure(e)
            },
            Some(n) => match all {
                Err(e) => failure(e.clone()),
                Ok(all) => match run(all, n) {
                    Err(e) => failure(e),
                    Ok(run) => Told { records: show(run, wanted.only_fails), end: Ok(()) },
                },
            },
        },
        None => match all {
            Err(e) => failure(e.clone()),
            Ok(all) => {
                assert(pasts(all@).len() == all@.len());
                if all.len() == 0 {
                    failure("The journal has no run to report".to_owned())
                } else {
                    assert(pasts(all@)[0] == all@[0]@);
                    Told { records: show(&all[0], wanted.only_fails), end: Ok(()) }
                }
            },
        },
    }
}

/// A configuration file has one place in the journal, wherever the system was mounted
/// when it was configured: an image that is built under another root and booted later
/// is the same system, and its history is one history.
pub proof fn law_a_file_has_one_place(root: Seq<char>, p: Seq<char>)
    requires
        root.len() > 0,
        root.last() != '/',
        p.len() > 0,
        p[0] != '/',
        p[0] != '.',
    ensures
        paths_of(root, TEMPLATE@, path::joined(root, p)) == paths_of(
            "/"@,
            TEMPLATE@,
            path::joined("/"@, p),
        ),
{
    reveal_strlit("/");
    text::lemma_split_first(p, '/');
    path::lemma_names_joined(root, p);
    let none = Seq::<char>::empty();
    path::lemma_names_joined(none, p);
    let slash = seq!['/'];
    assert("/"@ =~= slash);
    assert(text::split(none, '/') =~= seq![none]);
    assert(path::names_of(seq![none], 0) =~= Seq::empty());
    reveal_with_fuel(path::names_of, 3);
    assert(path::names(none) =~= Seq::empty());
    assert(slash.drop_last() =~= none);
    assert(text::split(slash, '/') =~= seq![none, none]);
    assert(path::names(slash) =~= Seq::empty());
    let here = root + slash + p;
    let there = slash + p;
    assert(there =~= none + slash + p);
    assert(path::joined(root, p) == here);
    assert(path::joined("/"@, p) == there);
    assert(path::names(there) =~= path::names(p));
    assert(path::names(here).take(path::names(root).len() as int) =~= path::names(root));
    assert(path::names(here).skip(path::names(root).len() as int) =~= path::names(p));
    assert(path::names(there).skip(0) =~= path::names(p));
    assert(path::names(there).take(0) =~= Seq::empty());
    assert(here[0] == root[0]);
    assert(there[0] == '/');
}

/// The journal is kept unless the namespace says `false` under
/// `detc.journal.enabled`.
pub proof fn law_the_journal_is_kept_unless_it_is_switched_off(j: Json)
    ensures
        is_enabled(j) <==> !(var::value_at(j, "detc.journal.enabled"@) == Ok::<Json, Seq<char>>(
            Json::Bool(false),
        ) || var::value_at(j, "detc.journal.enabled"@) == Ok::<Json, Seq<char>>(
            Json::Text("false"@),
        )),
{
}

/// A signature holds none of the characters that would end it, and a name
/// without them is kept whole.
proof fn lemma_signable(s: Seq<char>)
    ensures
        forall|i: int|
            0 <= i < signable(s).len() ==> {
                let c = #[trigger] signable(s)[i];
                c != '<' && c != '>' && c != '\n' && c != '\r'
            },
        (forall|i: int| 0 <= i < s.len() ==> signs(#[trigger] s[i])) ==> signable(s) == s,
    decreases s.len(),
{
    if s.len() > 0 {
        let less = s.drop_last();
        lemma_signable(less);
        assert forall|i: int| 0 <= i < signable(s).len() implies {
            let c = #[trigger] signable(s)[i];
            c != '<' && c != '>' && c != '\n' && c != '\r'
        } by {
            if i < signable(less).len() {
                assert(signable(s)[i] == signable(less)[i]);
            }
        }
        if forall|i: int| 0 <= i < s.len() ==> signs(#[trigger] s[i]) {
            assert forall|i: int| 0 <= i < less.len() implies signs(#[trigger] less[i]) by {
                assert(less[i] == s[i]);
            }
            assert(signs(s[s.len() - 1]));
            assert(signable(s) =~= s);
        }
    }
}

/// The journal is signed with what the namespace says, without the characters
/// that would end a signature and the white space around it, and with the
/// default when that leaves nothing or nothing is said.
pub proof fn law_a_signature_is_what_is_said_or_the_default(
    j: Json,
    key: Seq<char>,
    default: Seq<char>,
    t: Seq<char>,
)
    requires
        forall|i: int|
            0 <= i < t.len() ==> #[trigger] t[i] != '<' && t[i] != '>' && t[i] != '\n' && t[i] != '\r',
    ensures
        var::value_at(j, key) == Ok::<Json, Seq<char>>(Json::Text(t)) && text::trim(t).len() > 0
            ==> signature_of(j, key, default) == text::trim(t),
        var::value_at(j, key) == Ok::<Json, Seq<char>>(Json::Text(t)) && text::trim(t).len() == 0
            ==> signature_of(j, key, default) == default,
        var::value_at(j, key) is Err ==> signature_of(j, key, default) == default,
        signature_of(j, key, default) != default ==> forall|i: int|
            0 <= i < signature_of(j, key, default).len() ==> {
                let c = #[trigger] signature_of(j, key, default)[i];
                c != '<' && c != '>' && c != '\n' && c != '\r'
            },
{
    assert forall|i: int| 0 <= i < t.len() implies signs(#[trigger] t[i]) by {}
    lemma_signable(t);
    let word = word_at(j, key);
    lemma_signable(word);
    let at = text::law_trim_takes_the_space_around(signable(word));
    let said = text::trim(signable(word));
    assert forall|i: int| 0 <= i < said.len() implies {
        let c = #[trigger] said[i];
        c != '<' && c != '>' && c != '\n' && c != '\r'
    } by {
        assert(said[i] == signable(word)[at.0 + i]);
    }
    if var::value_at(j, key) is Err {
        assert(word =~= Seq::empty());
        assert(signable(word) =~= Seq::empty());
    }
}

/// The last line that begins with a key says the value of it.
pub proof fn law_the_last_trailer_counts(lines: Seq<Seq<char>>, line: Seq<char>, key: Seq<char>, v: Seq<char>)
    ensures
        trailer_in(lines.push(key + ": "@ + v), key) == Some(v),
        !text::begins(line, key + ": "@) ==> trailer_in(lines.push(line), key) == trailer_in(
            lines,
            key,
        ),
        trailer_in(Seq::empty(), key) is None,
{
    assert(lines.push(line).drop_last() =~= lines);
    let one = key + ": "@ + v;
    let front = key + ": "@;
    assert(lines.push(one).last() == one);
    assert(one.take(front.len() as int) =~= front);
    assert(one.skip(front.len() as int) =~= v);
    assert(text::without_prefix(one, front) == Some(v)) by {
        assert(one.subrange(0, front.len() as int) =~= front);
        assert(text::rest(one, front.len()) =~= v);
    }
}

/// A message opens with the command and its summary, gives what the run said
/// behind a blank line, and closes with the number of the run, its phase and
/// its command.
pub proof fn law_a_message_is_laid_out(
    command: Seq<char>,
    summary: Seq<char>,
    lines: Seq<Seq<char>>,
    run: u64,
    phase: Phase,
)
    ensures
        ({
            let all = message_lines(command, summary, lines, run, phase);
            let n = all.len() as int;
            &&& all[0] == command + ": "@ + summary
            &&& all[n - 4].len() == 0
            &&& all[n - 3] == "Detc-Run: "@ + text::decimal(run as nat)
            &&& phase == Phase::Found ==> all[n - 2] == "Detc-Phase: found"@
            &&& phase == Phase::Applied ==> all[n - 2] == "Detc-Phase: applied"@
            &&& all[n - 1] == "Detc-Command: "@ + command
            &&& lines.len() == 0 ==> n == 5
            &&& lines.len() > 0 ==> n == lines.len() + 6 && all[1].len() == 0 && all.subrange(2, n - 4)
                == lines
        }),
{
    reveal_strlit(": ");
    reveal_strlit("Detc-Run: ");
    reveal_strlit("Detc-Run");
    reveal_strlit("Detc-Phase");
    reveal_strlit("Detc-Phase: found");
    reveal_strlit("Detc-Phase: applied");
    reveal_strlit("found");
    reveal_strlit("applied");
    reveal_strlit("Detc-Command");
    reveal_strlit("Detc-Command: ");
    assert("Detc-Run: "@ =~= RUN@ + ": "@);
    assert("Detc-Phase: found"@ =~= PHASE@ + ": "@ + FOUND@);
    assert("Detc-Phase: applied"@ =~= PHASE@ + ": "@ + APPLIED@);
    assert("Detc-Command: "@ =~= COMMAND@ + ": "@);
    let all = message_lines(command, summary, lines, run, phase);
    if lines.len() > 0 {
        assert(all.subrange(2, all.len() - 4) =~= lines);
    }
}

/// What was found is told by what is going to happen to it, and what was
/// applied by what has happened to it: a failure comes before a skip.
pub proof fn law_an_outcome_is_a_word(step: Step)
    ensures
        outcome_of(Phase::Found, step) == planned_text(step.action),
        step.error is Some ==> outcome_of(Phase::Applied, step) == "failed"@,
        step.error is None && step.skipped is Some ==> outcome_of(Phase::Applied, step) == "skipped"@,
        step.error is None && step.skipped is None ==> outcome_of(Phase::Applied, step) == taken_text(
            step.action,
        ),
{
}

/// What was in sync is not counted, and everything else is, once.
pub proof fn law_outcomes_are_counted_once(phase: Phase, plan: Seq<Step>, step: Step, word: Seq<char>)
    ensures
        times(outcomes(phase, Seq::empty()), word) == 0,
        step.action == Action::InSync ==> outcomes(phase, plan.push(step)) == outcomes(phase, plan),
        step.action != Action::InSync ==> outcomes(phase, plan.push(step)).len() == outcomes(
            phase,
            plan,
        ).len() + 1,
        step.action != Action::InSync && outcome_of(phase, step) == word ==> times(
            outcomes(phase, plan.push(step)),
            word,
        ) == times(outcomes(phase, plan), word) + 1,
        step.action != Action::InSync && outcome_of(phase, step) != word ==> times(
            outcomes(phase, plan.push(step)),
            word,
        ) == times(outcomes(phase, plan), word),
{
    assert(plan.push(step).drop_last() =~= plan);
    let all = outcomes(phase, plan.push(step));
    if step.action != Action::InSync {
        assert(all.drop_last() =~= outcomes(phase, plan));
    }
}

/// A run of which every object came out the same is tallied as that many of
/// the one outcome, and a run that changed nothing says so.
pub proof fn law_a_tally_counts_the_outcomes(phase: Phase, plan: Seq<Step>, word: Seq<char>)
    ensures
        (forall|i: int| 0 <= i < plan.len() ==> (#[trigger] plan[i]).action == Action::InSync)
            ==> tally_of(phase, plan) == "no object changed"@,
        plan.len() > 0 && (forall|i: int|
            0 <= i < plan.len() ==> (#[trigger] plan[i]).action != Action::InSync && outcome_of(
                phase,
                plan[i],
            ) == word) ==> tally_of(phase, plan) == text::decimal(plan.len()) + " "@ + word,
{
    if forall|i: int| 0 <= i < plan.len() ==> (#[trigger] plan[i]).action == Action::InSync {
        lemma_no_outcome(phase, plan);
    }
    if plan.len() > 0 && (forall|i: int|
        0 <= i < plan.len() ==> (#[trigger] plan[i]).action != Action::InSync && outcome_of(
            phase,
            plan[i],
        ) == word) {
        lemma_one_outcome(phase, plan, word);
        let all = outcomes(phase, plan);
        let set = all.to_set();
        assert(all[0] == word);
        assert(set.contains(word));
        text::lemma_listing_stands(set);
        let words = text::listing(set);
        assert(words.to_set().contains(word));
        assert forall|i: int| 0 <= i < words.len() implies words[i] == word by {
            assert(words.to_set().contains(words[i]));
            assert(set.contains(words[i]));
        }
        if words.len() > 1 {
            assert(text::before(words[0], words[1]));
            text::lemma_before_irreflexive(word);
        }
        assert(words =~= seq![word]);
        let one = Seq::new(
            words.len(),
            |i: int| text::decimal(times(all, words[i])) + " "@ + words[i],
        );
        assert(one =~= seq![text::decimal(plan.len()) + " "@ + word]);
    }
}

proof fn lemma_no_outcome(phase: Phase, plan: Seq<Step>)
    requires
        forall|i: int| 0 <= i < plan.len() ==> (#[trigger] plan[i]).action == Action::InSync,
    ensures
        outcomes(phase, plan).len() == 0,
    decreases plan.len(),
{
    if plan.len() > 0 {
        let less = plan.drop_last();
        assert forall|i: int| 0 <= i < less.len() implies (#[trigger] less[i]).action == Action::InSync by {
            assert(less[i] == plan[i]);
        }
        assert(plan[plan.len() - 1].action == Action::InSync);
        lemma_no_outcome(phase, less);
    }
}

proof fn lemma_one_outcome(phase: Phase, plan: Seq<Step>, word: Seq<char>)
    requires
        forall|i: int|
            0 <= i < plan.len() ==> (#[trigger] plan[i]).action != Action::InSync && outcome_of(
                phase,
                plan[i],
            ) == word,
    ensures
        outcomes(phase, plan).len() == plan.len(),
        forall|i: int| 0 <= i < plan.len() ==> #[trigger] outcomes(phase, plan)[i] == word,
        times(outcomes(phase, plan), word) == plan.len(),
    decreases plan.len(),
{
    if plan.len() > 0 {
        let less = plan.drop_last();
        assert forall|i: int|
            0 <= i < less.len() implies (#[trigger] less[i]).action != Action::InSync && outcome_of(
            phase,
            less[i],
        ) == word by {
            assert(less[i] == plan[i]);
        }
        assert(plan[plan.len() - 1].action != Action::InSync);
        lemma_one_outcome(phase, less, word);
        let all = outcomes(phase, plan);
        assert(all.drop_last() =~= outcomes(phase, less));
        assert forall|i: int| 0 <= i < plan.len() implies #[trigger] all[i] == word by {
            if i < less.len() {
                assert(outcomes(phase, less)[i] == word);
            }
        }
    }
}

/// The journal keeps templates and the files that they make apart, and
/// resources and their states, each under the type and name of the object.
pub proof fn law_objects_have_their_places_in_the_journal(
    root: Seq<char>,
    kind: Seq<char>,
    name: Seq<char>,
)
    requires
        kind != "template"@,
    ensures
        paths_of(root, kind, name).0 == "resources/"@ + kind + "/"@ + name,
        paths_of(root, kind, name).1 == "states/"@ + kind + "/"@ + name + ".json"@,
        paths_of(root, "template"@, name).0 == "templates/"@ + seat(root, name),
        paths_of(root, "template"@, name).1 == "files/"@ + seat(root, name),
        seat(root, name).len() == 0 || seat(root, name)[0] != '/',
{
    lemma_unslashed(
        match path::below(name, root) {
            Some(rest) => rest,
            None => name,
        },
    );
}

proof fn lemma_unslashed(s: Seq<char>)
    ensures
        unslashed(s).len() == 0 || unslashed(s)[0] != '/',
        s.len() > 0 && s[0] != '/' ==> unslashed(s) == s,
    decreases s.len(),
{
    if s.len() > 0 && s[0] == '/' {
        lemma_unslashed(s.drop_first());
    }
}

/// The state of a resource is recorded with its order, what is desired of it
/// and what was reported.
pub proof fn law_a_state_is_recorded_with_its_order(
    order: i64,
    desired: Map<Seq<char>, Json>,
    state: Option<Json>,
)
    ensures
        state_json(order, desired, state) matches Json::Object(m) && {
            &&& m.dom() == set!["order"@, "desired"@, "state"@]
            &&& order >= 0 ==> m["order"@] == Json::Number(value::Figure::Natural(order as u64))
            &&& order < 0 ==> m["order"@] == Json::Number(value::Figure::Negative(order))
            &&& m["desired"@] == Json::Object(desired)
            &&& state matches Some(v) ==> m["state"@] == v
            &&& state is None ==> m["state"@] is Null
        },
{
    reveal_strlit("order");
    reveal_strlit("desired");
    reveal_strlit("state");
    assert("order"@[0] == 'o' && "desired"@[0] == 'd' && "state"@[0] == 's');
    let m = state_json(order, desired, state)->Object_0;
    assert(m.dom() =~= set!["order"@, "desired"@, "state"@]);
}

/// A template leaves its own text and the file that it made, and a file that
/// is not there is recorded as gone; a resource leaves its declaration and its
/// state.
pub proof fn law_a_moment_leaves_two_entries(
    root: Seq<char>,
    target: Seq<char>,
    written: Seq<char>,
    content: Seq<char>,
)
    ensures
        trace_of(root, Moment::Template { target, template: written, content: Some(content) }) == (
        Trace {
            entries: seq![
                ("templates/"@ + seat(root, target), written),
                ("files/"@ + seat(root, target), content),
            ],
            gone: Seq::empty(),
        }),
        trace_of(root, Moment::Template { target, template: written, content: None }) == (Trace {
            entries: seq![("templates/"@ + seat(root, target), written)],
            gone: seq!["files/"@ + seat(root, target)],
        }),
{
}

/// A resource leaves its declaration as it is written, and its state as a
/// document that ends with a line feed.
pub proof fn law_a_resource_leaves_its_declaration(
    root: Seq<char>,
    kind: Seq<char>,
    name: Seq<char>,
    order: i64,
    declared: Seq<char>,
    desired: Map<Seq<char>, Json>,
    state: Option<Json>,
)
    requires
        kind != "template"@,
    ensures
        ({
            let t = trace_of(root, Moment::Resource { kind, name, order, declared, desired, state });
            &&& t.gone.len() == 0
            &&& t.entries.len() == 2
            &&& t.entries[0] == ("resources/"@ + kind + "/"@ + name, declared)
            &&& t.entries[1].0 == "states/"@ + kind + "/"@ + name + ".json"@
            &&& t.entries[1].1 == document::json_pretty(state_json(order, desired, state)) + "\n"@
        }),
{
}

/// What an object leaves comes behind what the objects before it left; an
/// object that nothing could be read of keeps what the journal held of it.
pub proof fn law_what_could_not_be_read_is_carried_over(root: Seq<char>, s: Seq<Seen>, one: Seen)
    ensures
        ({
            let before = traces(root, s);
            let after = traces(root, s.push(one));
            &&& traces(root, Seq::empty()).entries.len() == 0
            &&& moment(one.snapshot) matches Ok(Some(m)) ==> after.entries == before.entries + trace_of(
                root,
                m,
            ).entries && after.gone == before.gone + trace_of(root, m).gone
            &&& moment(one.snapshot) is Err || moment(one.snapshot) == Ok::<Option<Moment>, Seq<char>>(
                None,
            ) ==> after.entries == before.entries + held(one.carried@) && after.gone == before.gone
        }),
{
    assert(s.push(one).drop_last() =~= s);
}

/// The name that stands in a tree is the last that was put there.
pub proof fn law_a_tree_holds_what_was_put_last(
    top: Seq<(Seq<char>, Seq<char>)>,
    name: Seq<char>,
    id: Seq<char>,
    other: Seq<char>,
)
    ensures
        stands_at(top.push((name, id)), name) == Some(id),
        other != name ==> stands_at(top.push((name, id)), other) == stands_at(top, other),
        stands_at(Seq::empty(), name) is None,
{
    assert(top.push((name, id)).drop_last() =~= top);
}

/// A run is put down to the inputs that changed since the record before it,
/// and to something outside when none did; without a record of what was found
/// it is put down to a probe.
pub proof fn law_a_run_has_a_cause(log: Log)
    ensures
        cause_of(None) == "a probe reported something new"@,
        log.before is None ==> cause_of(Some(log)) == "the system was recorded for the first time"@,
        log.before matches Some(before) ==> {
            let v = stands_at(log.top, "variables.yaml"@) != stands_at(before, "variables.yaml"@);
            let t = stands_at(log.top, "templates"@) != stands_at(before, "templates"@);
            let r = stands_at(log.top, "resources"@) != stands_at(before, "resources"@);
            &&& !v && !t && !r ==> cause_of(Some(log)) == "the system was changed outside detc"@
            &&& v && !t && !r ==> cause_of(Some(log)) == "a variable"@ + " changed"@
            &&& !v && t && !r ==> cause_of(Some(log)) == "a template"@ + " changed"@
            &&& !v && !t && r ==> cause_of(Some(log)) == "a declaration"@ + " changed"@
            &&& v && t && !r ==> cause_of(Some(log)) == "a variable"@ + " and "@ + "a template"@
                + " changed"@
            &&& v && !t && r ==> cause_of(Some(log)) == "a variable"@ + " and "@ + "a declaration"@
                + " changed"@
            &&& !v && t && r ==> cause_of(Some(log)) == "a template"@ + " and "@ + "a declaration"@
                + " changed"@
            &&& v && t && r ==> cause_of(Some(log)) == "a variable"@ + " and "@ + "a template"@
                + " and "@ + "a declaration"@ + " changed"@
        },
{
    if log.before is Some {
        let before = log.before->0;
        let now = log.top;
        let none = Seq::<Seq<char>>::empty();
        let v = stands_at(now, "variables.yaml"@) != stands_at(before, "variables.yaml"@);
        let t = stands_at(now, "templates"@) != stands_at(before, "templates"@);
        let one = if v {
            seq!["a variable"@]
        } else {
            none
        };
        let two = if t {
            one.push("a template"@)
        } else {
            one
        };
        assert(moved(now, before, 0) =~= none);
        assert(inputs()[0] == (VARIABLES@, "a variable"@));
        assert(moved(now, before, 1) =~= one);
        assert(inputs()[1] == ("templates"@, "a template"@));
        assert(moved(now, before, 2) =~= two);
        assert(inputs()[2] == ("resources"@, "a declaration"@));
        text::law_join_puts_one_between(one, "a template"@, " and "@);
        text::law_join_puts_one_between(two, "a declaration"@, " and "@);
        text::law_join_puts_one_between(none, "a variable"@, " and "@);
        text::law_join_puts_one_between(none, "a template"@, " and "@);
        text::law_join_puts_one_between(none, "a declaration"@, " and "@);
        assert(none.push("a template"@) =~= seq!["a template"@]);
        assert(none.push("a declaration"@) =~= seq!["a declaration"@]);
        assert(none.push("a variable"@) =~= seq!["a variable"@]);
    }
}

/// Records next to each other with one number are one run, and what follows
/// them are other runs.
pub proof fn law_records_of_one_number_are_one_run(group: Seq<Log>, rest: Seq<Log>)
    requires
        group.len() > 0,
        forall|i: int| 0 <= i < group.len() ==> (#[trigger] group[i]).note.run == group[0].note.run,
        rest.len() > 0 ==> rest[0].note.run != group[0].note.run,
    ensures
        pasts_of(Seq::empty()).len() == 0,
        pasts_of(group + rest) == seq![past_of(group)] + pasts_of(rest),
{
    let all = group + rest;
    lemma_group_ends(group, rest, group[0].note.run);
    assert(all[0] == group[0]);
    assert(all.take(group.len() as int) =~= group);
    assert(all.skip(group.len() as int) =~= rest);
}

proof fn lemma_group_ends(group: Seq<Log>, rest: Seq<Log>, run: u64)
    requires
        forall|i: int| 0 <= i < group.len() ==> (#[trigger] group[i]).note.run == run,
        rest.len() > 0 ==> rest[0].note.run != run,
    ensures
        group_len(group + rest, run) == group.len(),
    decreases group.len(),
{
    let all = group + rest;
    if group.len() == 0 {
        assert(all =~= rest);
    } else {
        let less = group.drop_first();
        assert forall|i: int| 0 <= i < less.len() implies (#[trigger] less[i]).note.run == run by {
            assert(less[i] == group[i + 1]);
        }
        lemma_group_ends(less, rest, run);
        assert(all[0] == group[0]);
        assert(all.drop_first() =~= less + rest);
    }
}

/// A run is told by what it applied, and by what it found when it applied
/// nothing; what it found says what caused it.
pub proof fn law_a_run_is_told_by_what_it_applied(found: Log, applied: Log)
    requires
        found.note.phase == "found"@,
        applied.note.phase == "applied"@,
    ensures
        ({
            let both = past_of(seq![applied, found]);
            &&& both.id == applied.note.run
            &&& both.time == applied.time
            &&& both.command == applied.note.command
            &&& both.summary == applied.note.summary
            &&& both.lines == applied.note.lines
            &&& both.cause == cause_of(Some(found))
            &&& both.found == Some(Mark { id: found.id, summary: found.note.summary })
            &&& both.applied == Some(Mark { id: applied.id, summary: applied.note.summary })
            &&& past_of(seq![found, applied]) == both
        }),
        ({
            let only = past_of(seq![found]);
            &&& only.id == found.note.run
            &&& only.time == found.time
            &&& only.summary == found.note.summary
            &&& only.lines == found.note.lines
            &&& only.applied is None
            &&& only.found == Some(Mark { id: found.id, summary: found.note.summary })
        }),
{
    reveal_strlit("found");
    reveal_strlit("applied");
    assert("found"@.len() != "applied"@.len());
    reveal_with_fuel(in_phase, 3);
    let a = seq![applied, found];
    let b = seq![found, applied];
    let c = seq![found];
    assert(a.drop_first() =~= seq![found]);
    assert(b.drop_first() =~= seq![applied]);
    assert(c.drop_first() =~= Seq::empty());
    assert(seq![applied].drop_first() =~= Seq::empty());
    assert(seq![found].drop_first()[0] == seq![found].drop_first()[0]);
}

/// The failures of a run are the lines that say `error`, in their order.
pub proof fn law_failures_are_the_lines_that_say_error(lines: Seq<Seq<char>>, line: Seq<char>)
    ensures
        failed_lines(Seq::empty()).len() == 0,
        text::begins(line, "error\t"@) ==> failed_lines(lines.push(line)) == failed_lines(lines).push(
            line,
        ),
        !text::begins(line, "error\t"@) ==> failed_lines(lines.push(line)) == failed_lines(lines),
{
    assert(lines.push(line).drop_last() =~= lines);
}

/// What a run said is what is neither blank nor a line of the journal's own.
pub proof fn law_what_a_run_said_is_its_output(lines: Seq<Seq<char>>, line: Seq<char>)
    ensures
        output_lines(Seq::empty()).len() == 0,
        text::trim(line).len() > 0 && !text::begins(line, "Detc-"@) ==> output_lines(lines.push(line))
            == output_lines(lines).push(line),
        text::trim(line).len() == 0 || text::begins(line, "Detc-"@) ==> output_lines(lines.push(line))
            == output_lines(lines),
{
    assert(lines.push(line).drop_last() =~= lines);
}

/// A run is reported by its number, and the newest when none is asked for or
/// the last one is; a number that no run has is refused.
pub proof fn law_a_run_is_reported_by_its_number(all: Seq<Past>, id: Seq<char>)
    ensures
        all.len() > 0 ==> reported_run(Ok(all), None, false) == Ok::<Past, Seq<char>>(all[0]),
        all.len() > 0 ==> reported_run(Ok(all), Some(id), true) == Ok::<Past, Seq<char>>(all[0]),
        all.len() == 0 ==> reported_run(Ok(all), None, false) is Err,
        run_number(id) is None ==> reported_run(Ok(all), Some(id), false) is Err,
        reported_run(Ok(all), Some(id), false) matches Ok(run) ==> all.contains(run) && run_number(id)
            == Some(run.id),
        run_number(id) is Some && (exists|i: int|
            0 <= i < all.len() && (#[trigger] all[i]).id == run_number(id)->0) ==> reported_run(
            Ok(all),
            Some(id),
            false,
        ) is Ok,
{
    if run_number(id) is Some {
        lemma_numbered(all, run_number(id)->0);
    }
}

proof fn lemma_numbered(all: Seq<Past>, id: u64)
    ensures
        numbered(all, id) matches Some(run) ==> all.contains(run) && run.id == id,
        numbered(all, id) is None ==> forall|i: int| 0 <= i < all.len() ==> (#[trigger] all[i]).id != id,
    decreases all.len(),
{
    if all.len() > 0 {
        let rest = all.drop_first();
        lemma_numbered(rest, id);
        assert(all.contains(all[0]));
        match numbered(rest, id) {
            Some(run) => {
                if all[0].id != id {
                    let i = choose|i: int| 0 <= i < rest.len() && rest[i] == run;
                    assert(all[i + 1] == run);
                }
            },
            None => {
                assert forall|i: int| 1 <= i < all.len() implies (#[trigger] all[i]).id != id by {
                    assert(rest[i - 1] == all[i]);
                }
            },
        }
    }
}

/// A list of runs says every run, and of those that failed only where that is
/// asked for; the detail of a run is all of it or its failures.
pub proof fn law_runs_are_listed_in_their_order(all: Seq<Past>, run: Past, only_fails: bool)
    ensures
        run_sayings(Seq::empty(), only_fails).len() == 0,
        only_fails && failed_lines(run.lines).len() == 0 ==> run_sayings(all.push(run), only_fails)
            == run_sayings(all, only_fails),
        !only_fails || failed_lines(run.lines).len() > 0 ==> run_sayings(all.push(run), only_fails)
            == run_sayings(all, only_fails).push(
            Saying::Run { id: run.id, time: run.time, command: run.command, summary: run.summary },
        ),
        detail(run, true).len() == failed_lines(run.lines).len(),
        forall|i: int|
            0 <= i < failed_lines(run.lines).len() ==> #[trigger] detail(run, true)[i] == Saying::Line(
                failed_lines(run.lines)[i],
            ),
        detail(run, false).len() == 1,
        detail(run, false)[0] == (Saying::RunDetail {
            id: run.id,
            time: run.time,
            command: run.command,
            cause: run.cause,
            found: run.found,
            applied: run.applied,
            lines: run.lines,
        }),
{
    assert(all.push(run).drop_last() =~= all);
}

/// A number of a run is digits that fit, after at most one plus sign.
pub proof fn law_a_run_number_is_a_number(n: u64)
    ensures
        run_number(text::decimal(n as nat)) == Some(n),
        run_number(Seq::empty()) is None,
{
    text::lemma_decimal_is_read(n as nat);
}

/// A word of the namespace is a text, or what a boolean or a number is written
/// as; anything else is no word.
pub proof fn law_a_word_is_a_text_or_written_as_one(j: Json, key: Seq<char>, v: Json)
    requires
        var::value_at(j, key) == Ok::<Json, Seq<char>>(v),
    ensures
        v matches Json::Text(t) ==> word_at(j, key) == t,
        v is Bool || v is Number ==> word_at(j, key) == document::json_text(v),
        v is Null || v is Array || v is Object ==> word_at(j, key).len() == 0,
{
}

/// The characters that would end a signature are left out of it, and every
/// other is kept in its place.
pub proof fn law_a_signature_leaves_out_what_would_end_it(s: Seq<char>, c: char)
    ensures
        signable(Seq::empty()).len() == 0,
        c == '<' || c == '>' || c == '\n' || c == '\r' ==> signable(s.push(c)) == signable(s),
        c != '<' && c != '>' && c != '\n' && c != '\r' ==> signable(s.push(c)) == signable(s).push(c),
{
    assert(s.push(c).drop_last() =~= s);
}

/// A journal that cannot be opened reports nothing, a list reports every run,
/// and anything else reports one.
pub proof fn law_a_report_is_a_list_or_a_run(
    e: Seq<char>,
    all: Seq<Past>,
    id: Option<Seq<char>>,
    last: bool,
    only_fails: bool,
    list: bool,
)
    ensures
        reported(Err(e), Ok(all), id, list, last, only_fails) == (Speech {
            said: Seq::empty(),
            end: Err(e),
        }),
        reported(Ok(()), Ok(all), id, true, last, only_fails) == (Speech {
            said: run_sayings(all, only_fails),
            end: Ok(()),
        }),
        reported_run(Ok(all), id, last) matches Ok(run) ==> reported(
            Ok(()),
            Ok(all),
            id,
            false,
            last,
            only_fails,
        ) == (Speech { said: detail(run, only_fails), end: Ok(()) }),
        reported_run(Ok(all), id, last) is Err ==> reported(
            Ok(()),
            Ok(all),
            id,
            false,
            last,
            only_fails,
        ).end is Err,
        reported(Ok(()), Err(e), id, list, last, only_fails).end is Err,
{
}

/// The journal is kept in its own place, and is signed by the tool unless the
/// namespace says otherwise.
pub proof fn law_the_journal_has_its_place_and_signature()
    ensures
        JOURNAL_DIR@ == "var/lib/detc/journal.git"@,
        USER@ == "detc.journal.user"@,
        EMAIL@ == "detc.journal.email"@,
        DEFAULT_USER@ == "detc"@,
        DEFAULT_EMAIL@ == "detc@localhost"@,
{
}

} // verus!
