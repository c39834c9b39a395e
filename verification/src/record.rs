//! What a verb of `detc` has to say, and how it is written down.
//!
//! A verb reports records instead of printing, so that one run can end up on a
//! terminal or in a reply without either of them owning the wording.

use vstd::prelude::*;

use crate::text;

verus! {

/// A type of object that the system has, in the order in which a name with no
/// type is looked for.
#[derive(Clone, Copy, Debug, PartialEq, Eq, Structural)]
pub enum Type {
    Probe,
    Template,
    Resource,
    Provider,
    Variable,
}

/// The name of a type of object.
pub open spec fn kind_name(kind: Type) -> Seq<char> {
    match kind {
        Type::Probe => "probe"@,
        Type::Template => "template"@,
        Type::Resource => "resource"@,
        Type::Provider => "provider"@,
        Type::Variable => "variable"@,
    }
}

/// The types of object, in their order.
pub open spec fn all_kinds() -> Seq<Type> {
    seq![Type::Probe, Type::Template, Type::Resource, Type::Provider, Type::Variable]
}

impl Type {
    /// The name of the type.
    pub fn name(self) -> (r: &'static str)
        ensures
            r@ == kind_name(self),
    {
        match self {
            Type::Probe => "probe",
            Type::Template => "template",
            Type::Resource => "resource",
            Type::Provider => "provider",
            Type::Variable => "variable",
        }
    }

    /// The types of object, in their order.
    pub fn all() -> (r: Vec<Type>)
        ensures
            r@ == all_kinds(),
    {
        let mut r: Vec<Type> = Vec::new();
        r.push(Type::Probe);
        r.push(Type::Template);
        r.push(Type::Resource);
        r.push(Type::Provider);
        r.push(Type::Variable);
        assert(r@ =~= all_kinds());
        r
    }
}

/// A commit that a run of `apply` left in the journal.
#[derive(Debug, PartialEq, Eq)]
pub struct Commit {
    pub id: String,
    pub summary: String,
}

/// One thing that a verb has to say.
///
/// The variants are the shapes that the output has, and not one per
/// subcommand: `list` and `check` describe objects, `apply` and a persisting
/// `var` describe changes, and several of them just hand over a document.
#[allow(inconsistent_fields)]
#[derive(Debug, PartialEq, Eq)]
pub enum Record {
    /// A type of object, as `list --types` names them.
    Type(Type),
    /// An object of the system: what it is, what addresses it, and the file it
    /// was read from.
    Object { kind: Type, name: String, source: String },
    /// Whether an object can be instantiated, and why not.
    Check { name: String, error: Option<String> },
    /// Something that happens, or happened, to an object.
    Change { action: String, object: String, summary: Option<String>, error: Option<String> },
    /// A probe of the system, and where it is mounted in the namespace.
    Probe { mount: String, path: String },
    /// A bundle: what it calls itself, who signed it, where it was taken from,
    /// and whether a copy of it was kept for the next boot.
    Bundle { name: String, version: String, signer: String, origin: String, persist: bool },
    /// A run of `apply`, as the journal lists it.
    Run { id: u64, time: String, command: String, summary: String },
    /// A run of `apply`, in full.
    RunDetail {
        id: u64,
        time: String,
        command: String,
        cause: String,
        found: Option<Commit>,
        applied: Option<Commit>,
        lines: Vec<String>,
    },
    /// A line that the journal stored as it was printed.
    Line(String),
    /// A document, written exactly as it is.
    Text(String),
}

/// A commit, as plain values.
pub struct Mark {
    pub id: Seq<char>,
    pub summary: Seq<char>,
}

impl View for Commit {
    type V = Mark;

    open spec fn view(&self) -> Mark {
        Mark { id: self.id@, summary: self.summary@ }
    }
}

/// An optional commit, as plain values.
pub open spec fn mark(c: Option<Commit>) -> Option<Mark> {
    match c {
        Some(c) => Some(c@),
        None => None,
    }
}

/// One thing that a verb has to say, as plain values.
#[allow(inconsistent_fields)]
pub enum Saying {
    Type(Type),
    Object { kind: Type, name: Seq<char>, source: Seq<char> },
    Check { name: Seq<char>, error: Option<Seq<char>> },
    Change {
        action: Seq<char>,
        object: Seq<char>,
        summary: Option<Seq<char>>,
        error: Option<Seq<char>>,
    },
    Probe { mount: Seq<char>, path: Seq<char> },
    Bundle {
        name: Seq<char>,
        version: Seq<char>,
        signer: Seq<char>,
        origin: Seq<char>,
        persist: bool,
    },
    Run { id: u64, time: Seq<char>, command: Seq<char>, summary: Seq<char> },
    RunDetail {
        id: u64,
        time: Seq<char>,
        command: Seq<char>,
        cause: Seq<char>,
        found: Option<Mark>,
        applied: Option<Mark>,
        lines: Seq<Seq<char>>,
    },
    Line(Seq<char>),
    Text(Seq<char>),
}

impl View for Record {
    type V = Saying;

    open spec fn view(&self) -> Saying {
        match self {
            Record::Type(kind) => Saying::Type(*kind),
            Record::Object { kind, name, source } => Saying::Object {
                kind: *kind,
                name: name@,
                source: source@,
            },
            Record::Check { name, error } => Saying::Check {
                name: name@,
                error: text::text_of(*error),
            },
            Record::Change { action, object, summary, error } => Saying::Change {
                action: action@,
                object: object@,
                summary: text::text_of(*summary),
                error: text::text_of(*error),
            },
            Record::Probe { mount, path } => Saying::Probe { mount: mount@, path: path@ },
            Record::Bundle { name, version, signer, origin, persist } => Saying::Bundle {
                name: name@,
                version: version@,
                signer: signer@,
                origin: origin@,
                persist: *persist,
            },
            Record::Run { id, time, command, summary } => Saying::Run {
                id: *id,
                time: time@,
                command: command@,
                summary: summary@,
            },
            Record::RunDetail { id, time, command, cause, found, applied, lines } => Saying::RunDetail {
                id: *id,
                time: time@,
                command: command@,
                cause: cause@,
                found: mark(*found),
                applied: mark(*applied),
                lines: text::texts(lines@),
            },
            Record::Line(line) => Saying::Line(line@),
            Record::Text(t) => Saying::Text(t@),
        }
    }
}

/// Records, as plain values.
pub open spec fn sayings(s: Seq<Record>) -> Seq<Saying> {
    s.map_values(|r: Record| r@)
}

/// The line of a commit.
pub open spec fn commit_lines(phase: Seq<char>, commit: Option<Mark>) -> Seq<Seq<char>> {
    match commit {
        Some(c) => seq![phase + "\t"@ + c.id + "\t"@ + c.summary],
        None => Seq::empty(),
    }
}

/// The lines of a run in full: what it was, why, what it recorded, and behind a
/// blank line what it printed.
pub open spec fn detail_lines(
    id: u64,
    time: Seq<char>,
    command: Seq<char>,
    cause: Seq<char>,
    found: Option<Mark>,
    applied: Option<Mark>,
    lines: Seq<Seq<char>>,
) -> Seq<Seq<char>> {
    let head = seq![
        "run\t"@ + text::decimal(id as nat) + "\t"@ + time + "\t"@ + command,
        "cause\t"@ + cause,
    ] + commit_lines("found"@, found) + commit_lines("applied"@, applied);
    if lines.len() == 0 {
        head
    } else {
        head.push(Seq::empty()) + lines
    }
}

/// The line of a record, without the newline that ends it.  Every field is
/// separated with a tab and none of them is quoted.  A document has no line of
/// its own, and gives back its text.
pub open spec fn line_of(saying: Saying) -> Seq<char> {
    match saying {
        Saying::Type(kind) => kind_name(kind),
        Saying::Object { kind, name, source } => kind_name(kind) + "\t"@ + name + "\t"@ + source,
        Saying::Check { name, error } => match error {
            None => "ok\t"@ + name,
            Some(error) => "error\t"@ + name + "\t"@ + error,
        },
        Saying::Change { action, object, summary, error } => match (error, summary) {
            (Some(detail), _) => action + "\t"@ + object + "\t"@ + detail,
            (None, Some(detail)) => action + "\t"@ + object + "\t"@ + detail,
            (None, None) => action + "\t"@ + object,
        },
        Saying::Probe { mount, path } => mount + "\t"@ + path,
        Saying::Bundle { name, version, signer, origin, persist } => name + "\t"@ + version + "\t"@
            + signer + "\t"@ + origin + "\t"@ + (if persist {
            "persistent"@
        } else {
            "transient"@
        }),
        Saying::Run { id, time, command, summary } => text::decimal(id as nat) + "\t"@ + time + "\t"@
            + command + "\t"@ + summary,
        Saying::RunDetail { id, time, command, cause, found, applied, lines } => text::join(
            detail_lines(id, time, command, cause, found, applied, lines),
            "\n"@,
        ),
        Saying::Line(line) => line,
        Saying::Text(t) => t,
    }
}

/// What a record is written as: a document as it is, and everything else as a
/// line.
pub open spec fn written_as(saying: Saying) -> Seq<char> {
    match saying {
        Saying::Text(t) => t,
        _ => line_of(saying) + "\n"@,
    }
}

/// What records are written as, one after the other.
pub open spec fn written_all(s: Seq<Saying>) -> Seq<char>
    decreases s.len(),
{
    if s.len() == 0 {
        Seq::empty()
    } else {
        written_all(s.drop_last()) + written_as(s.last())
    }
}

/// Fields behind each other, separated with tabs.
fn tabbed(first: &str, second: &str) -> (r: String)
    ensures
        r@ == first@ + "\t"@ + second@,
{
    let mut r = first.to_owned();
    r.append("\t");
    r.append(second);
    r
}

/// One more field, behind a tab.
fn field(line: &mut String, value: &str)
    ensures
        final(line)@ == old(line)@ + "\t"@ + value@,
{
    line.append("\t");
    line.append(value);
}

/// The line of a commit, when there is one.
fn push_commit(lines: &mut Vec<String>, phase: &str, commit: &Option<Commit>)
    ensures
        text::texts(final(lines)@) == text::texts(old(lines)@) + commit_lines(phase@, mark(*commit)),
{
    let ghost was = text::texts(lines@);
    if let Some(commit) = commit {
        let mut line = tabbed(phase, commit.id.as_str());
        field(&mut line, commit.summary.as_str());
        let ghost one = line@;
        lines.push(line);
        assert(text::texts(lines@) =~= was + seq![one]);
    } else {
        assert(text::texts(lines@) =~= was + Seq::empty());
    }
}

/// The lines of a run in full.
fn detail(
    id: u64,
    time: &str,
    command: &str,
    cause: &str,
    found: &Option<Commit>,
    applied: &Option<Commit>,
    lines: &Vec<String>,
) -> (r: Vec<String>)
    ensures
        text::texts(r@) == detail_lines(
            id,
            time@,
            command@,
            cause@,
            mark(*found),
            mark(*applied),
            text::texts(lines@),
        ),
{
    let mut out: Vec<String> = Vec::new();
    let mut head = "run\t".to_owned();
    head.append(text::decimal_of(id).as_str());
    field(&mut head, time);
    field(&mut head, command);
    let mut why = "cause\t".to_owned();
    why.append(cause);
    let ghost first = seq![head@, why@];
    out.push(head);
    out.push(why);
    assert(text::texts(out@) =~= first);
    push_commit(&mut out, "found", found);
    push_commit(&mut out, "applied", applied);
    let n: usize = lines.len();
    if n > 0 {
        let ghost was = text::texts(out@);
        out.push(String::new());
        let ghost base = was.push(Seq::<char>::empty());
        assert(text::texts(out@) =~= base);
        let mut i: usize = 0;
        assert(base + text::texts(lines@).take(0) =~= base);
        while i < n
            invariant
                i <= n == lines@.len(),
                text::texts(out@) == base + text::texts(lines@).take(i as int),
            decreases n - i,
        {
            let ghost had = text::texts(out@);
            out.push(lines[i].clone());
            assert(text::texts(out@) =~= had.push(lines@[i as int]@));
            assert(base + text::texts(lines@).take(i + 1) =~= (base + text::texts(lines@).take(
                i as int,
            )).push(lines@[i as int]@));
            i += 1;
        }
        assert(text::texts(lines@).take(n as int) =~= text::texts(lines@));
    }
    out
}

impl Record {
    /// The line of the record, without the newline that ends it.
    pub fn line(&self) -> (r: String)
        ensures
            r@ == line_of(self@),
    {
        match self {
            Record::Type(kind) => kind.name().to_owned(),
            Record::Object { kind, name, source } => {
                let mut r = tabbed(kind.name(), name.as_str());
                field(&mut r, source.as_str());
                r
            },
            Record::Check { name, error } => match error {
                None => {
                    let mut r = "ok\t".to_owned();
                    r.append(name.as_str());
                    r
                },
                Some(error) => {
                    let mut r = "error\t".to_owned();
                    r.append(name.as_str());
                    field(&mut r, error.as_str());
                    r
                },
            },
            Record::Change { action, object, summary, error } => {
                let mut r = tabbed(action.as_str(), object.as_str());
                if let Some(detail) = error {
                    field(&mut r, detail.as_str());
                } else if let Some(detail) = summary {
                    field(&mut r, detail.as_str());
                }
                r
            },
            Record::Probe { mount, path } => tabbed(mount.as_str(), path.as_str()),
            Record::Bundle { name, version, signer, origin, persist } => {
                let mut r = tabbed(name.as_str(), version.as_str());
                field(&mut r, signer.as_str());
                field(&mut r, origin.as_str());
                let kept = if *persist {
                    "persistent"
                } else {
                    "transient"
                };
                field(&mut r, kept);
                r
            },
            Record::Run { id, time, command, summary } => {
                let mut r = text::decimal_of(*id);
                field(&mut r, time.as_str());
                field(&mut r, command.as_str());
                field(&mut r, summary.as_str());
                r
            },
            Record::RunDetail { id, time, command, cause, found, applied, lines } => text::joined(
                &detail(
                    *id,
                    time.as_str(),
                    command.as_str(),
                    cause.as_str(),
                    found,
                    applied,
                    lines,
                ),
                "\n",
            ),
            Record::Line(line) => line.clone(),
            Record::Text(t) => t.clone(),
        }
    }

    /// What the record is written as.
    pub fn written(&self) -> (r: String)
        ensures
            r@ == written_as(self@),
    {
        match self {
            Record::Text(t) => t.clone(),
            _ => {
                let mut r = self.line();
                r.append("\n");
                r
            },
        }
    }
}

/// What records are written as, one after the other.
pub fn rendered(records: &Vec<Record>) -> (r: String)
    ensures
        r@ == written_all(sayings(records@)),
{
    let ghost all = sayings(records@);
    let mut r = String::new();
    let mut i: usize = 0;
    assert(r@ =~= written_all(all.take(0)));
    while i < records.len()
        invariant
            i <= records@.len(),
            all == sayings(records@),
            r@ == written_all(all.take(i as int)),
        decreases records@.len() - i,
    {
        proof {
            assert(all.take(i + 1).drop_last() =~= all.take(i as int));
            assert(all.take(i + 1).last() == records@[i as int]@);
        }
        r.append(records[i].written().as_str());
        i += 1;
    }
    assert(all.take(i as int) =~= all);
    r
}

/// Fields with a tab between each two of them are read back one by one.
proof fn lemma_fields(fields: Seq<Seq<char>>)
    requires
        fields.len() > 0,
        forall|i: int| 0 <= i < fields.len() ==> !(#[trigger] fields[i]).contains('\t'),
    ensures
        text::split(text::join(fields, "\t"@), '\t') == fields,
    decreases fields.len(),
{
    reveal_strlit("\t");
    assert("\t"@ =~= seq!['\t']);
    let last = fields[fields.len() - 1];
    text::lemma_split_whole(last, '\t');
    if fields.len() == 1 {
        assert(fields =~= seq![last]);
    } else {
        let less = fields.drop_last();
        assert forall|i: int| 0 <= i < less.len() implies !(#[trigger] less[i]).contains('\t') by {
            assert(less[i] == fields[i]);
        }
        lemma_fields(less);
        text::lemma_split_joins(text::join(less, "\t"@), last, '\t');
        assert(less + seq![last] =~= fields);
    }
}

proof fn lemma_joined_fields(a: Seq<char>, b: Seq<char>, c: Seq<char>, d: Seq<char>, e: Seq<char>)
    ensures
        text::join(seq![a, b], "\t"@) == a + "\t"@ + b,
        text::join(seq![a, b, c], "\t"@) == a + "\t"@ + b + "\t"@ + c,
        text::join(seq![a, b, c, d], "\t"@) == a + "\t"@ + b + "\t"@ + c + "\t"@ + d,
        text::join(seq![a, b, c, d, e], "\t"@) == a + "\t"@ + b + "\t"@ + c + "\t"@ + d + "\t"@ + e,
{
    text::law_join_puts_one_between(Seq::empty(), a, "\t"@);
    text::law_join_puts_one_between(seq![a], b, "\t"@);
    text::law_join_puts_one_between(seq![a, b], c, "\t"@);
    text::law_join_puts_one_between(seq![a, b, c], d, "\t"@);
    text::law_join_puts_one_between(seq![a, b, c, d], e, "\t"@);
    assert(seq![a].push(b) =~= seq![a, b]);
    assert(seq![a, b].push(c) =~= seq![a, b, c]);
    assert(seq![a, b, c].push(d) =~= seq![a, b, c, d]);
    assert(seq![a, b, c, d].push(e) =~= seq![a, b, c, d, e]);
}

/// The types are written by these names.
pub proof fn law_types_are_written_by_these_names()
    ensures
        kind_name(Type::Probe) == "probe"@,
        kind_name(Type::Template) == "template"@,
        kind_name(Type::Resource) == "resource"@,
        kind_name(Type::Provider) == "provider"@,
        kind_name(Type::Variable) == "variable"@,
        all_kinds().len() == 5,
        forall|k: Type| all_kinds().contains(k),
{
    let all = all_kinds();
    assert(all[0] == Type::Probe && all[1] == Type::Template && all[2] == Type::Resource);
    assert(all[3] == Type::Provider && all[4] == Type::Variable);
    assert forall|k: Type| all.contains(k) by {
        match k {
            Type::Probe => assert(all.contains(all[0])),
            Type::Template => assert(all.contains(all[1])),
            Type::Resource => assert(all.contains(all[2])),
            Type::Provider => assert(all.contains(all[3])),
            Type::Variable => assert(all.contains(all[4])),
        }
    }
}

/// An object is a line of its type, its name and its file, with tabs between
/// them; a probe is a line of where it is mounted and its file.
pub proof fn law_an_object_is_a_line_of_fields(kind: Type, name: Seq<char>, source: Seq<char>)
    requires
        !name.contains('\t'),
        !source.contains('\t'),
    ensures
        text::split(line_of(Saying::Object { kind, name, source }), '\t') == seq![
            kind_name(kind),
            name,
            source,
        ],
        text::split(line_of(Saying::Probe { mount: name, path: source }), '\t') == seq![name, source],
{
    lemma_kind_plain(kind);
    lemma_joined_fields(kind_name(kind), name, source, name, source);
    lemma_joined_fields(name, source, source, name, source);
    lemma_fields(seq![kind_name(kind), name, source]);
    lemma_fields(seq![name, source]);
}

proof fn lemma_kind_plain(kind: Type)
    ensures
        !kind_name(kind).contains('\t'),
{
    reveal_strlit("probe");
    reveal_strlit("template");
    reveal_strlit("resource");
    reveal_strlit("provider");
    reveal_strlit("variable");
}

/// A check is a line that says `ok` and what was checked, or `error`, what was
/// checked and what is wrong with it.
pub proof fn law_a_check_is_ok_or_an_error(name: Seq<char>, e: Seq<char>)
    requires
        !name.contains('\t'),
        !e.contains('\t'),
    ensures
        text::split(line_of(Saying::Check { name, error: None }), '\t') == seq!["ok"@, name],
        text::split(line_of(Saying::Check { name, error: Some(e) }), '\t') == seq!["error"@, name, e],
{
    reveal_strlit("ok");
    reveal_strlit("error");
    reveal_strlit("ok\t");
    reveal_strlit("error\t");
    reveal_strlit("\t");
    assert("ok\t"@ =~= "ok"@ + "\t"@);
    assert("error\t"@ =~= "error"@ + "\t"@);
    lemma_joined_fields("ok"@, name, e, e, e);
    lemma_joined_fields("error"@, name, e, e, e);
    lemma_fields(seq!["ok"@, name]);
    lemma_fields(seq!["error"@, name, e]);
    assert("error\t"@ + name + "\t"@ + e =~= "error"@ + "\t"@ + name + "\t"@ + e);
    assert("ok\t"@ + name =~= "ok"@ + "\t"@ + name);
}

/// A change is a line of what happened, to what, and the detail of it, if
/// there is any: the error where it failed, and else the summary.
pub proof fn law_a_change_says_its_error_first(
    action: Seq<char>,
    object: Seq<char>,
    summary: Option<Seq<char>>,
    e: Seq<char>,
)
    ensures
        line_of(Saying::Change { action, object, summary, error: Some(e) }) == text::join(
            seq![action, object, e],
            "\t"@,
        ),
        summary matches Some(detail) ==> line_of(
            Saying::Change { action, object, summary, error: None },
        ) == text::join(seq![action, object, detail], "\t"@),
        summary is None ==> line_of(Saying::Change { action, object, summary, error: None })
            == text::join(seq![action, object], "\t"@),
{
    lemma_joined_fields(action, object, e, e, e);
    match summary {
        Some(detail) => {
            lemma_joined_fields(action, object, detail, e, e);
        },
        None => {},
    }
}

/// A bundle is a line of its name, its version, who signed it, where it came
/// from, and whether it outlasts a boot; a run is a line of its number, its
/// time, its command and its summary.
pub proof fn law_bundles_and_runs_are_lines_of_fields(
    name: Seq<char>,
    version: Seq<char>,
    signer: Seq<char>,
    origin: Seq<char>,
    id: u64,
)
    ensures
        line_of(Saying::Bundle { name, version, signer, origin, persist: true }) == text::join(
            seq![name, version, signer, origin, "persistent"@],
            "\t"@,
        ),
        line_of(Saying::Bundle { name, version, signer, origin, persist: false }) == text::join(
            seq![name, version, signer, origin, "transient"@],
            "\t"@,
        ),
        line_of(Saying::Run { id, time: name, command: version, summary: signer }) == text::join(
            seq![text::decimal(id as nat), name, version, signer],
            "\t"@,
        ),
{
    lemma_joined_fields(name, version, signer, origin, "persistent"@);
    lemma_joined_fields(name, version, signer, origin, "transient"@);
    lemma_joined_fields(text::decimal(id as nat), name, version, signer, origin);
}

/// The detail of a run opens with the run and its cause, then gives what was
/// found and what was applied where there is any, and then, behind a blank
/// line, what the run said.
pub proof fn law_a_run_is_told_in_order(
    id: u64,
    time: Seq<char>,
    command: Seq<char>,
    cause: Seq<char>,
    found: Option<Mark>,
    applied: Option<Mark>,
    lines: Seq<Seq<char>>,
)
    ensures
        ({
            let all = detail_lines(id, time, command, cause, found, applied, lines);
            let head: int = 2 + (if found is Some {
                1int
            } else {
                0
            }) + (if applied is Some {
                1int
            } else {
                0
            });
            &&& all[0] == "run\t"@ + text::decimal(id as nat) + "\t"@ + time + "\t"@ + command
            &&& all[1] == "cause\t"@ + cause
            &&& found matches Some(c) ==> all[2] == "found\t"@ + c.id + "\t"@ + c.summary
            &&& applied matches Some(c) ==> all[head - 1] == "applied\t"@ + c.id + "\t"@ + c.summary
            &&& lines.len() == 0 ==> all.len() == head
            &&& lines.len() > 0 ==> all.len() == head + 1 + lines.len() && all[head].len() == 0
                && all.skip(head + 1) == lines
        }),
{
    reveal_strlit("found\t");
    reveal_strlit("found");
    reveal_strlit("applied\t");
    reveal_strlit("applied");
    reveal_strlit("\t");
    assert("found\t"@ =~= "found"@ + "\t"@);
    assert("applied\t"@ =~= "applied"@ + "\t"@);
    let all = detail_lines(id, time, command, cause, found, applied, lines);
    let head: int = 2 + (if found is Some {
        1int
    } else {
        0
    }) + (if applied is Some {
        1int
    } else {
        0
    });
    if lines.len() > 0 {
        assert(all.skip(head + 1) =~= lines);
    }
}

/// Everything that is said ends with a line feed but a text, which is written
/// as it is; more is written behind what was.
pub proof fn law_what_is_said_is_a_line_each(s: Seq<Saying>, one: Saying)
    ensures
        !(one is Text) ==> written_as(one) == line_of(one) + seq!['\n'],
        one is Text ==> written_as(one) == one->Text_0,
        written_all(Seq::empty()).len() == 0,
        written_all(s.push(one)) == written_all(s) + written_as(one),
{
    reveal_strlit("\n");
    assert("\n"@ =~= seq!['\n']);
    assert(s.push(one).drop_last() =~= s);
}

} // verus!
