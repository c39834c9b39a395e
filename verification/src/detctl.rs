//! Run a subcommand of `detc` on other machines.
//!
//! `detctl` takes the same subcommands as `detc`, starts `detcd` on the far side,
//! sends the call, and prints what comes back exactly as `detc` would have printed
//! it there.  It knows nothing about SSH beyond how to build an argv.
//!
//! Several machines are reached at once, and each one answers in a block of its
//! own, in the order they were asked, whatever the order in which they answered.
//! A watch runs the same command again on a period, and prints a run only when it
//! is not the one before it.

use vstd::prelude::*;

use crate::detc::{bytes_read, Commands, Verb};
use crate::hosts;
use crate::hosts::{Fleet, Inventory};
use crate::manager;
use crate::manager::{asking_of, method_name, method_streams, Asking, Params};
use crate::text;
use crate::value;
use crate::value::{Datum, Json};
use crate::var;
use crate::varlink;
use crate::varlink::{Answer, Reply};

verus! {

/// Where `detcd` is expected to be in the far side.
pub const REMOTE_PATH: &'static str = "/usr/bin/detcd";

/// How many machines are reached at a time when nothing says otherwise.  It is a
/// bound on the ssh processes of one run, and not on the size of a fleet.
pub const JOBS: usize = 10;

/// What the command line says about the machines to reach.
pub struct Options {
    /// Hosts to reach, groups and patterns of them, or several separated by commas.
    pub host: Vec<String>,
    /// Path of detcd in the host.
    pub remote_path: String,
    /// Run detcd in the host through sudo.
    pub sudo: bool,
    /// Options for ssh, as `-o` in its own command line.
    pub ssh_option: Vec<String>,
    /// Shell commands that start detcd, for what is not a plain host.
    pub command: Vec<String>,
    /// Run the command again on a period, in seconds.
    pub watch: Option<u64>,
}

/// What the command line says about the machines to reach, as plain values.
pub struct Wish {
    pub hosts: Seq<Seq<char>>,
    pub remote_path: Seq<char>,
    pub sudo: bool,
    pub options: Seq<Seq<char>>,
    pub commands: Seq<Seq<char>>,
    pub watched: bool,
}

impl View for Options {
    type V = Wish;

    open spec fn view(&self) -> Wish {
        Wish {
            hosts: text::texts(self.host@),
            remote_path: self.remote_path@,
            sudo: self.sudo,
            options: text::texts(self.ssh_option@),
            commands: text::texts(self.command@),
            watched: self.watch is Some,
        }
    }
}

/// One machine of the run: what to call it, and how to start `detcd` there.
pub struct Target {
    pub name: String,
    pub argv: Vec<String>,
}

/// One machine of the run, as plain values.
pub struct Machine {
    pub name: Seq<char>,
    pub argv: Seq<Seq<char>>,
}

impl View for Target {
    type V = Machine;

    open spec fn view(&self) -> Machine {
        Machine { name: self.name@, argv: text::texts(self.argv@) }
    }
}

/// The machines of a run, as plain values.
pub open spec fn machines(targets: Seq<Target>) -> Seq<Machine> {
    Seq::new(targets.len(), |i: int| targets[i]@)
}

/// The machines of a run, or why there are none.
pub open spec fn aimed(r: Result<Vec<Target>, String>) -> Result<Seq<Machine>, Seq<char>> {
    match r {
        Ok(targets) => Ok(machines(targets@)),
        Err(e) => Err(e@),
    }
}

/// A letter of the Latin alphabet as it is written small, and any other character
/// as it is.
pub open spec fn small(c: char) -> char {
    if 'A' <= c <= 'Z' {
        (c as u32 + 32) as char
    } else {
        c
    }
}

/// A text with its Latin letters written small.
pub open spec fn lowered(s: Seq<char>) -> Seq<char> {
    Seq::new(s.len(), |i: int| small(s[i]))
}

/// What an option for ssh sets.
pub open spec fn key(option: Seq<char>) -> Seq<char> {
    text::trim(text::split(option, '=')[0])
}

/// Whether an option for ssh says whether it may ask for a password.
pub open spec fn is_batch(option: Seq<char>) -> bool {
    lowered(key(option)) == "batchmode"@
}

/// Whether the options for ssh say whether it may ask for a password.
pub open spec fn asked(options: Seq<Seq<char>>) -> bool {
    exists|i: int| 0 <= i < options.len() && #[trigger] is_batch(options[i])
}

/// Options for ssh, each behind its flag.
pub open spec fn flagged(options: Seq<Seq<char>>) -> Seq<Seq<char>>
    decreases options.len(),
{
    if options.len() == 0 {
        Seq::empty()
    } else {
        flagged(options.drop_last()).push("-o"@).push(options.last())
    }
}

/// The command line that starts `detcd` in one host.
pub open spec fn ssh_line(wish: Wish, host: Seq<char>, batch: bool) -> Seq<Seq<char>> {
    let opening = if batch {
        seq!["ssh"@, "-o"@, "BatchMode=yes"@]
    } else {
        seq!["ssh"@]
    };
    let path = if wish.sudo {
        "sudo -n "@ + wish.remote_path
    } else {
        wish.remote_path
    };
    (opening + flagged(wish.options)).push(host).push(path)
}

/// Whether ssh is told not to ask for anything: several of them at once cannot
/// each own the terminal, and nobody is there for the second run of a watch,
/// unless the command line said what it wanted.
pub open spec fn batched(wish: Wish, hosts: nat) -> bool {
    !asked(wish.options) && (hosts + wish.commands.len() > 1 || wish.watched)
}

/// The machine that is not a plain host.
pub open spec fn commanded(command: Seq<char>) -> Machine {
    Machine { name: command, argv: seq!["sh"@, "-c"@, command] }
}

/// The machines that the command line asks for.
pub open spec fn aims(fleet: Fleet, wish: Wish) -> Result<Seq<Machine>, Seq<char>> {
    match hosts::expanded(fleet, hosts::terms_of(wish.hosts)) {
        Err(e) => Err(e),
        Ok(hosts) => {
            let batch = batched(wish, hosts.len());
            let all = Seq::new(
                hosts.len(),
                |i: int| Machine { name: hosts[i], argv: ssh_line(wish, hosts[i], batch) },
            ) + Seq::new(wish.commands.len(), |i: int| commanded(wish.commands[i]));
            if all.len() == 0 {
                Err("Pass --host, or --command for what is not a plain host"@)
            } else {
                Ok(all)
            }
        },
    }
}

/// A text with its Latin letters written small.
fn lower(s: &str) -> (r: String)
    ensures
        r@ == lowered(s@),
{
    let cs = text::chars_of(s);
    let n: usize = cs.len();
    let mut r = String::new();
    let mut i: usize = 0;
    assert(r@ =~= lowered(s@.take(0)));
    while i < n
        invariant
            i <= n == cs@.len(),
            cs@ == s@,
            r@ == lowered(s@.take(i as int)),
        decreases n - i,
    {
        let c: char = cs[i];
        if 'A' <= c && c <= 'Z' {
            let b: u8 = c as u8;
            let d: char = (b + 32u8) as char;
            r.push(d);
        } else {
            r.push(c);
        }
        assert(r@ =~= lowered(s@.take(i + 1)));
        i += 1;
    }
    assert(s@.take(i as int) =~= s@);
    r
}

/// Whether an option for ssh says whether it may ask for a password.
fn sets_batch(option: &str) -> (r: bool)
    ensures
        r == is_batch(option@),
{
    let pieces = text::pieces(option, '=');
    proof {
        text::lemma_split_some(option@, '=');
    }
    assert(text::texts(pieces@)[0] == pieces@[0]@);
    text::equal(lower(text::trimmed(pieces[0].as_str()).as_str()).as_str(), "batchmode")
}

/// Whether the options for ssh say whether it may ask for a password.
fn was_asked(options: &Vec<String>) -> (r: bool)
    ensures
        r == asked(text::texts(options@)),
{
    let ghost all = text::texts(options@);
    let n: usize = options.len();
    let mut i: usize = 0;
    while i < n
        invariant
            i <= n == options@.len(),
            all == text::texts(options@),
            forall|j: int| 0 <= j < i ==> !#[trigger] is_batch(all[j]),
        decreases n - i,
    {
        assert(all[i as int] == options@[i as int]@);
        if sets_batch(options[i].as_str()) {
            return true;
        }
        i += 1;
    }
    false
}

/// The command line that starts `detcd` in one host.
///
/// This is the whole of what `detctl` knows about SSH: an argv.  How to reach a
/// machine is written where it has always been written.
pub fn ssh(options: &Options, host: &str, batch: bool) -> (r: Vec<String>)
    ensures
        text::texts(r@) == ssh_line(options@, host@, batch),
{
    let mut argv: Vec<String> = Vec::new();
    argv.push("ssh".to_owned());
    if batch {
        argv.push("-o".to_owned());
        argv.push("BatchMode=yes".to_owned());
    }
    let ghost opening = if batch {
        seq!["ssh"@, "-o"@, "BatchMode=yes"@]
    } else {
        seq!["ssh"@]
    };
    let ghost all = text::texts(options.ssh_option@);
    let n: usize = options.ssh_option.len();
    let mut i: usize = 0;
    assert(text::texts(argv@) =~= opening + flagged(all.take(0)));
    while i < n
        invariant
            i <= n == options.ssh_option@.len(),
            all == text::texts(options.ssh_option@),
            text::texts(argv@) == opening + flagged(all.take(i as int)),
        decreases n - i,
    {
        proof {
            assert(all.take(i + 1).drop_last() =~= all.take(i as int));
            assert(all[i as int] == options.ssh_option@[i as int]@);
        }
        let ghost was = text::texts(argv@);
        argv.push("-o".to_owned());
        argv.push(options.ssh_option[i].clone());
        assert(text::texts(argv@) =~= was.push("-o"@).push(all[i as int]));
        assert(was.push("-o"@).push(all[i as int]) =~= opening + flagged(all.take(i + 1)));
        i += 1;
    }
    assert(all.take(i as int) =~= all);
    let ghost was = text::texts(argv@);
    argv.push(host.to_owned());
    let mut path = String::new();
    if options.sudo {
        path.append("sudo -n ");
    }
    path.append(options.remote_path.as_str());
    assert(path@ =~= if options.sudo {
        "sudo -n "@ + options.remote_path@
    } else {
        options.remote_path@
    });
    let ghost last = path@;
    argv.push(path);
    assert(text::texts(argv@) =~= was.push(host@).push(last));
    argv
}

/// The machines that the command line asks for.
///
/// A host is expanded through the inventory, so one name can be a fleet; a
/// command is a machine that is not a plain host and is named by the command
/// itself.  Both may be given, and then the run is their union.
pub fn targets(options: &Options, inventory: &Inventory) -> (r: Result<Vec<Target>, String>)
    ensures
        aimed(r) == aims(inventory@, options@),
{
    let ghost wish = options@;
    let hosts = match inventory.expand(&options.host) {
        Ok(hosts) => hosts,
        Err(e) => {
            return Err(e);
        },
    };
    let ghost names = text::texts(hosts@);
    let n: usize = hosts.len();
    let m: usize = options.command.len();
    let several = n > 1 || m > 1 || (n == 1 && m == 1);
    let watched = match options.watch {
        Some(_) => true,
        None => false,
    };
    let batch = !was_asked(&options.ssh_option) && (several || watched);
    assert(batch == batched(wish, names.len()));
    let ghost reached = Seq::new(
        names.len(),
        |i: int| Machine { name: names[i], argv: ssh_line(wish, names[i], batch) },
    );
    let ghost rest = Seq::new(wish.commands.len(), |i: int| commanded(wish.commands[i]));
    let mut all: Vec<Target> = Vec::new();
    let mut i: usize = 0;
    assert(machines(all@) =~= reached.take(0));
    while i < n
        invariant
            i <= n == hosts@.len(),
            names == text::texts(hosts@),
            wish == options@,
            reached == Seq::new(
                names.len(),
                |i: int| Machine { name: names[i], argv: ssh_line(wish, names[i], batch) },
            ),
            machines(all@) == reached.take(i as int),
        decreases n - i,
    {
        let ghost was = machines(all@);
        let argv = ssh(options, hosts[i].as_str(), batch);
        let target = Target { name: hosts[i].clone(), argv };
        let ghost one = target@;
        all.push(target);
        assert(names[i as int] == hosts@[i as int]@);
        assert(one == reached[i as int]);
        assert(machines(all@) =~= was.push(one));
        assert(reached.take(i + 1) =~= reached.take(i as int).push(reached[i as int]));
        i += 1;
    }
    let mut k: usize = 0;
    assert(reached.take(i as int) =~= reached);
    assert(reached + rest.take(0) =~= reached);
    while k < m
        invariant
            k <= m == options.command@.len(),
            wish == options@,
            rest == Seq::new(wish.commands.len(), |i: int| commanded(wish.commands[i])),
            machines(all@) == reached + rest.take(k as int),
        decreases m - k,
    {
        let ghost was = machines(all@);
        let mut argv: Vec<String> = Vec::new();
        argv.push("sh".to_owned());
        argv.push("-c".to_owned());
        argv.push(options.command[k].clone());
        let target = Target { name: options.command[k].clone(), argv };
        let ghost one = target@;
        assert(wish.commands[k as int] == options.command@[k as int]@);
        assert(one.argv =~= seq!["sh"@, "-c"@, wish.commands[k as int]]);
        assert(one == rest[k as int]);
        all.push(target);
        assert(machines(all@) =~= was.push(one));
        assert(reached + rest.take(k + 1) =~= (reached + rest.take(k as int)).push(rest[k as int]));
        k += 1;
    }
    assert(rest.take(k as int) =~= rest);
    if all.len() == 0 {
        return Err("Pass --host, or --command for what is not a plain host".to_owned());
    }
    Ok(all)
}

/// Why a machine could not be started.
pub fn not_started(program: &str, e: &str) -> (r: String)
    ensures
        r@ == "Cannot start "@ + program@ + ": "@ + e@,
{
    let mut r = "Cannot start ".to_owned();
    r.append(program);
    r.append(": ");
    r.append(e);
    r
}

/// The call that every machine of a run is sent.
pub struct Message {
    pub method: String,
    pub params: Params,
    pub more: bool,
}

/// The call that every machine of a run is sent, as plain values.
pub struct Errand {
    pub method: Seq<char>,
    pub asking: Asking,
    pub more: bool,
}

impl View for Message {
    type V = Errand;

    open spec fn view(&self) -> Errand {
        Errand { method: self.method@, asking: self.params@, more: self.more }
    }
}

/// A method by its full name.
pub open spec fn full_name(method: manager::Method) -> Seq<char> {
    manager::INTERFACE@ + "."@ + method_name(method)
}

/// The call that a subcommand is.
pub open spec fn errand(verb: Verb, dry_run: bool, read: Result<Seq<u8>, Seq<char>>) -> Result<
    Errand,
    Seq<char>,
> {
    match asking_of(verb, dry_run, read) {
        Err(e) => Err(e),
        Ok(asking) => Ok(
            Errand {
                method: full_name(manager::method_of(asking)),
                asking,
                more: method_streams(manager::method_of(asking)),
            },
        ),
    }
}

/// A call, or why there is none.
pub open spec fn sent(r: Result<Message, String>) -> Result<Errand, Seq<char>> {
    match r {
        Ok(message) => Ok(message@),
        Err(e) => Err(e@),
    }
}

/// The call that every machine of a run is sent.
///
/// It is built once, before anything is started, so that a bundle in a file is
/// read and encoded one time for the whole fleet, and so that a subcommand that
/// `detctl` refuses is refused before a single connection is opened.
pub fn message(command: &Commands, dry_run: bool, read: Result<Vec<u8>, String>) -> (r: Result<
    Message,
    String,
>)
    ensures
        sent(r) == errand(command@, dry_run, bytes_read(read)),
{
    match manager::call(command, dry_run, read) {
        Err(e) => Err(e),
        Ok((method, params)) => {
            let mut name = manager::INTERFACE.to_owned();
            name.append(".");
            name.append(method.name());
            Ok(Message { method: name, params, more: method.stream() })
        },
    }
}

/// What `detctl` asks for is what `detcd` finds: a method is found by its full
/// name.
pub proof fn law_a_method_is_found_by_its_full_name(method: manager::Method)
    ensures
        manager::method_found(full_name(method)) == Some(method),
{
    let name = method_name(method);
    reveal_strlit(".");
    let below = full_name(method).skip(manager::INTERFACE@.len() as int);
    assert(full_name(method).take(manager::INTERFACE@.len() as int) =~= manager::INTERFACE@);
    assert(below =~= "."@ + name);
    assert(below.take(1) =~= "."@);
    assert(below.skip(1) =~= name);
    assert(varlink::method_of(manager::INTERFACE@, full_name(method)) == Some(name));
    manager::lemma_named(method);
}

/// The message that a failure carries.
pub open spec fn carried(parameters: Option<Json>) -> Option<Seq<char>> {
    match parameters {
        Some(Json::Object(m)) => match value::member(m, "message"@) {
            Some(Json::Text(t)) => Some(t),
            _ => None,
        },
        _ => None,
    }
}

/// What to report when the far side answers with an error.
pub open spec fn refusal(answer: Answer) -> Seq<char> {
    let error = match answer.error {
        Some(error) => error,
        None => Seq::empty(),
    };
    match carried(answer.parameters) {
        Some(message) => message,
        None => if error == manager::READ_ONLY@ {
            "detcd was started read-only, and the command changes the system"@
        } else {
            "detcd answered with "@ + error
        },
    }
}

/// What to report when the far side answers with an error.
///
/// A command that failed carries the message that `detc` would have printed, and
/// is reported as it is, so that a run over a connection reads the same as one on
/// the machine itself.
pub fn refused(reply: &Reply) -> (r: String)
    ensures
        r@ == refusal(reply@),
{
    if let Some(Datum::Object(entries)) = &reply.parameters {
        if let Some(Datum::String(t)) = value::get(entries, "message") {
            return t.clone();
        }
    }
    let error: String = match &reply.error {
        Some(error) => error.clone(),
        None => String::new(),
    };
    if text::equal(error.as_str(), manager::READ_ONLY) {
        return "detcd was started read-only, and the command changes the system".to_owned();
    }
    let mut r = "detcd answered with ".to_owned();
    r.append(error.as_str());
    r
}

/// Whether more is said behind an answer, or why the conversation ends here.
pub open spec fn hearing(answer: Option<Answer>) -> Result<bool, Seq<char>> {
    match answer {
        None => Err("detcd closed the connection before answering"@),
        Some(answer) => if answer.error is Some {
            Err(refusal(answer))
        } else {
            Ok(answer.continues)
        },
    }
}

/// Whether more is said behind an answer, or why the conversation ends here.
pub fn hear(reply: Option<&Reply>) -> (r: Result<bool, String>)
    ensures
        hearing(
            match reply {
                Some(reply) => Some(reply@),
                None => None,
            },
        ) == (match r {
            Ok(more) => Ok::<bool, Seq<char>>(more),
            Err(e) => Err(e@),
        }),
{
    match reply {
        None => Err("detcd closed the connection before answering".to_owned()),
        Some(reply) => match &reply.error {
            Some(_) => Err(refused(reply)),
            None => Ok(reply.continues),
        },
    }
}

/// The status of a run of one machine.  A run that failed without a status of its
/// own still failed.
pub fn status(spoke: bool, code: i32) -> (r: i32)
    ensures
        r == spoken_status(spoke, code as int),
        r == (if !spoke && code == 0 {
            1
        } else {
            code
        }),
{
    if !spoke && code == 0 {
        1
    } else {
        code
    }
}

/// The last thing that was said in some lines.
pub open spec fn last_words(lines: Seq<Seq<char>>) -> Option<Seq<char>>
    decreases lines.len(),
{
    if lines.len() == 0 {
        None
    } else if text::trim(lines.last()).len() > 0 {
        Some(text::trim(lines.last()))
    } else {
        last_words(lines.drop_last())
    }
}

/// Why a machine that never answered failed.
pub open spec fn explained(errors: Seq<char>, code: int) -> Seq<char> {
    match last_words(text::lines(errors)) {
        Some(words) => words,
        None => if code == 255 {
            "The host could not be reached"@
        } else {
            "detcd exited with "@ + text::signed(code)
        },
    }
}

/// Why a machine that never answered failed.
///
/// What `ssh` has to say about a host it could not reach is on its standard
/// error, and there is nothing better to report than the words it used, so the
/// last of them is the reason.  Only when it said nothing at all is there a
/// message here, and then 255 is how `ssh` says it never got there.
pub fn reason(errors: &str, code: i32) -> (r: String)
    ensures
        r@ == explained(errors@, code as int),
{
    let lines = text::lines_of(errors);
    let ghost all = text::texts(lines@);
    let mut n: usize = lines.len();
    assert(all.take(n as int) =~= all);
    while n > 0
        invariant
            n <= lines@.len(),
            all == text::texts(lines@),
            all == text::lines(errors@),
            last_words(all.take(n as int)) == last_words(all),
        decreases n,
    {
        n -= 1;
        proof {
            assert(all.take(n + 1).drop_last() =~= all.take(n as int));
            assert(all.take(n + 1).last() == lines@[n as int]@);
        }
        if !text::blank(lines[n].as_str()) {
            return text::trimmed(lines[n].as_str());
        }
    }
    if code == 255 {
        return "The host could not be reached".to_owned();
    }
    let mut r = "detcd exited with ".to_owned();
    r.append(text::signed_of(code as i64).as_str());
    r
}

/// What one machine had to say, once it is done saying it.
pub struct Outcome {
    /// The lines of `detc`, as they would have been printed there.
    pub answers: String,
    /// Why the run failed, when it did.
    pub error: Option<String>,
    /// What `ssh` and `detcd` wrote while it happened.
    pub errors: String,
}

/// What one machine had to say, as plain values.
pub struct Tale {
    pub answers: Seq<char>,
    pub error: Option<Seq<char>>,
    pub errors: Seq<char>,
}

impl View for Outcome {
    type V = Tale;

    open spec fn view(&self) -> Tale {
        Tale { answers: self.answers@, error: text::text_of(self.error), errors: self.errors@ }
    }
}

/// Why a machine failed, when it did.
pub open spec fn blamed(
    spoke: Result<(), Seq<char>>,
    code: int,
    errors: Seq<char>,
) -> Option<Seq<char>> {
    if code != 0 {
        Some(explained(errors, code))
    } else {
        match spoke {
            Ok(_) => None,
            Err(e) => Some(e),
        }
    }
}

/// What one machine of a fleet had to say: a machine that could not be started
/// says nothing but why, and another one says how the conversation went and the
/// status it left with.
///
/// A machine that left with a status of its own is explained by that status and
/// by what it said on the way out, and never by this side noticing that the pipe
/// closed.
pub fn settle(
    spoke: Result<(), String>,
    code: i32,
    answers: String,
    errors: String,
) -> (r: Outcome)
    ensures
        r@ == (Tale {
            answers: answers@,
            error: blamed(var::outcome(spoke), code as int, errors@),
            errors: errors@,
        }),
{
    let error: Option<String> = if code != 0 {
        Some(reason(errors.as_str(), code))
    } else {
        match spoke {
            Ok(_) => None,
            Err(e) => Some(e),
        }
    };
    Outcome { answers, error, errors }
}

/// What a machine that could not be started had to say.
pub fn unstarted(why: String) -> (r: Outcome)
    ensures
        r@ == (Tale { answers: Seq::empty(), error: Some(why@), errors: Seq::empty() }),
{
    let r = Outcome { answers: String::new(), error: Some(why), errors: String::new() };
    assert(r@.answers =~= Seq::empty());
    assert(r@.errors =~= Seq::empty());
    r
}

/// How many machines are reached at a time.
pub fn workers(jobs: usize, targets: usize) -> (r: usize)
    ensures
        r == at_a_time(jobs as nat, targets as nat),
        r == (if jobs == 0 || jobs > targets {
            targets
        } else {
            jobs
        }),
{
    if jobs == 0 || jobs > targets {
        targets
    } else {
        jobs
    }
}

/// How a text is marked in a terminal: what goes before it and what goes behind
/// it, both of them empty where nobody is looking.
pub struct Paint {
    pub on: String,
    pub off: String,
}

/// A text as it is marked.
pub open spec fn painted(paint: Paint, t: Seq<char>) -> Seq<char> {
    paint.on@ + t + paint.off@
}

/// Write a text as it is marked.
fn mark(r: &mut String, paint: &Paint, t: &str)
    ensures
        final(r)@ == old(r)@ + painted(*paint, t@),
{
    r.append(paint.on.as_str());
    r.append(t);
    r.append(paint.off.as_str());
    assert(r@ =~= old(r)@ + painted(*paint, t@));
}

/// The line that says why a machine failed: the word every failed line of `detc`
/// starts with, and the tab that separates every other field.
pub open spec fn error_line(error: Option<Seq<char>>) -> Seq<char> {
    match error {
        Some(e) => "error\t"@ + e + "\n"@,
        None => Seq::empty(),
    }
}

/// The block of one machine of a fleet.
pub open spec fn block(paint: Paint, name: Seq<char>, tale: Tale, first: bool) -> Seq<char> {
    (if first {
        Seq::<char>::empty()
    } else {
        "\n"@
    }) + painted(paint, name) + "\n"@ + tale.answers + error_line(tale.error)
}

/// The blocks of the machines of a fleet from one of them to another.
pub open spec fn blocks(
    paint: Paint,
    names: Seq<Seq<char>>,
    done: Seq<Option<Tale>>,
    from: nat,
    to: nat,
) -> Seq<char>
    decreases to,
{
    if to <= from {
        Seq::empty()
    } else {
        let k = to - 1;
        blocks(paint, names, done, from, k as nat) + block(paint, names[k], done[k]->0, k == 0)
    }
}

/// What a machine wrote while it was reached, each line behind its name.
pub open spec fn asides(name: Seq<char>, errors: Seq<char>) -> Seq<Seq<char>> {
    Seq::new(text::lines(errors).len(), |i: int| name + "\t"@ + text::lines(errors)[i])
}

/// What the machines of a fleet wrote while they were reached, from one of them to
/// another.
pub open spec fn asides_of(
    names: Seq<Seq<char>>,
    done: Seq<Option<Tale>>,
    from: nat,
    to: nat,
) -> Seq<Seq<char>>
    decreases to,
{
    if to <= from {
        Seq::empty()
    } else {
        let k = to - 1;
        asides_of(names, done, from, k as nat) + asides(names[k], (done[k]->0).errors)
    }
}

/// The failures of the first machines of a fleet, each with the name of the
/// machine.
pub open spec fn failures_of(
    names: Seq<Seq<char>>,
    done: Seq<Option<Tale>>,
    n: nat,
) -> Seq<(Seq<char>, Seq<char>)>
    decreases n,
{
    if n == 0 {
        Seq::empty()
    } else {
        let k = n - 1;
        match (done[k]->0).error {
            Some(e) => failures_of(names, done, k as nat).push((names[k], e)),
            None => failures_of(names, done, k as nat),
        }
    }
}

/// The first machine, from one of them on, that is not done.
pub open spec fn ready(done: Seq<Option<Tale>>, from: nat) -> nat
    decreases done.len() - from,
{
    if from < done.len() && done[from as int] is Some {
        ready(done, from + 1)
    } else {
        from
    }
}

proof fn lemma_ready(done: Seq<Option<Tale>>, from: nat)
    requires
        from <= done.len(),
    ensures
        from <= ready(done, from) <= done.len(),
        forall|i: int| from <= i < ready(done, from) ==> (#[trigger] done[i]) is Some,
        ready(done, from) < done.len() ==> done[ready(done, from) as int] is None,
    decreases done.len() - from,
{
    if from < done.len() && done[from as int] is Some {
        lemma_ready(done, from + 1);
    }
}

proof fn lemma_ready_is(done: Seq<Option<Tale>>, from: nat, n: nat)
    requires
        from <= n <= done.len(),
        forall|i: int| from <= i < n ==> (#[trigger] done[i]) is Some,
        n < done.len() ==> done[n as int] is None,
    ensures
        ready(done, from) == n,
    decreases n - from,
{
    if from < n {
        lemma_ready_is(done, from + 1, n);
    }
}

proof fn lemma_blocks_part(
    paint: Paint,
    names: Seq<Seq<char>>,
    done: Seq<Option<Tale>>,
    a: nat,
    b: nat,
    c: nat,
)
    requires
        a <= b <= c,
    ensures
        blocks(paint, names, done, a, c) == blocks(paint, names, done, a, b) + blocks(
            paint,
            names,
            done,
            b,
            c,
        ),
    decreases c,
{
    if b == c {
        assert(blocks(paint, names, done, a, c) =~= blocks(paint, names, done, a, b) + blocks(
            paint,
            names,
            done,
            b,
            c,
        ));
    } else {
        lemma_blocks_part(paint, names, done, a, b, (c - 1) as nat);
        assert(blocks(paint, names, done, a, c) =~= blocks(paint, names, done, a, b) + blocks(
            paint,
            names,
            done,
            b,
            c,
        ));
    }
}

proof fn lemma_blocks_same(
    paint: Paint,
    names: Seq<Seq<char>>,
    one: Seq<Option<Tale>>,
    two: Seq<Option<Tale>>,
    a: nat,
    b: nat,
)
    requires
        forall|i: int| a <= i < b ==> one[i] == #[trigger] two[i],
    ensures
        blocks(paint, names, one, a, b) == blocks(paint, names, two, a, b),
    decreases b,
{
    if a < b {
        lemma_blocks_same(paint, names, one, two, a, (b - 1) as nat);
        assert(one[b - 1] == two[b - 1]);
    }
}

/// What the machines of a fleet had to say, as plain values.
pub open spec fn tales(done: Seq<Option<Outcome>>) -> Seq<Option<Tale>> {
    Seq::new(
        done.len(),
        |i: int|
            match done[i] {
                Some(outcome) => Some(outcome@),
                None => None,
            },
    )
}

/// The machines of a fleet while they are reached: which of them are done, and what
/// was printed of it.
///
/// The blocks are printed in the order the machines were named and never in the one
/// they happened to finish in: a host is reported the moment it is done and
/// everything before it has been, so a run reads the same however the network
/// behaved that day.
pub struct Roll {
    names: Vec<String>,
    bold: Paint,
    done: Vec<Option<Outcome>>,
    printed: usize,
}

/// The machines of a fleet while they are reached, as plain values.
pub struct Muster {
    pub names: Seq<Seq<char>>,
    pub bold: Paint,
    pub done: Seq<Option<Tale>>,
}

impl View for Roll {
    type V = Muster;

    closed spec fn view(&self) -> Muster {
        Muster { names: text::texts(self.names@), bold: self.bold, done: tales(self.done@) }
    }
}

/// What there is to print once one more machine is done: the blocks, and the lines
/// that are no answers and do not go where the answers go.
pub struct Printed {
    pub text: String,
    pub asides: Vec<String>,
}

impl Roll {
    /// Whether what was printed is what is ready to be.
    pub closed spec fn wf(self) -> bool {
        &&& self.names@.len() == self.done@.len()
        &&& self.printed == ready(tales(self.done@), 0)
    }

    /// A fleet of which no machine is done.
    pub fn new(targets: &Vec<Target>, bold: Paint) -> (r: Self)
        ensures
            r.wf(),
            r@ == (Muster {
                names: Seq::new(targets@.len(), |i: int| targets@[i].name@),
                bold,
                done: Seq::new(targets@.len(), |i: int| None),
            }),
    {
        let mut names: Vec<String> = Vec::new();
        let mut done: Vec<Option<Outcome>> = Vec::new();
        let n: usize = targets.len();
        let mut i: usize = 0;
        while i < n
            invariant
                i <= n == targets@.len(),
                names@.len() == i,
                done@.len() == i,
                forall|j: int| 0 <= j < i ==> (#[trigger] names@[j])@ == targets@[j].name@,
                forall|j: int| 0 <= j < i ==> (#[trigger] done@[j]) is None,
            decreases n - i,
        {
            names.push(targets[i].name.clone());
            done.push(None);
            i += 1;
        }
        let r = Roll { names, bold, done, printed: 0 };
        assert(r@.names =~= Seq::new(targets@.len(), |i: int| targets@[i].name@));
        assert(r@.done =~= Seq::new(targets@.len(), |i: int| None));
        r
    }

    /// What there is to print once one more machine is done.
    pub fn arrive(&mut self, index: usize, outcome: Outcome) -> (r: Printed)
        requires
            old(self).wf(),
            index < old(self)@.done.len(),
            old(self)@.done[index as int] is None,
        ensures
            final(self).wf(),
            final(self)@ == (Muster {
                done: old(self)@.done.update(index as int, Some(outcome@)),
                ..old(self)@
            }),
            r.text@ == blocks(
                old(self)@.bold,
                old(self)@.names,
                final(self)@.done,
                ready(old(self)@.done, 0),
                ready(final(self)@.done, 0),
            ),
            text::texts(r.asides@) == asides_of(
                old(self)@.names,
                final(self)@.done,
                ready(old(self)@.done, 0),
                ready(final(self)@.done, 0),
            ),
    {
        let ghost was = self@;
        let ghost slot = outcome@;
        self.done.set(index, Some(outcome));
        let ghost now = tales(self.done@);
        let ghost names = text::texts(self.names@);
        let start: usize = self.printed;
        proof {
            assert(now =~= was.done.update(index as int, Some(slot)));
            lemma_ready(was.done, 0);
            assert forall|i: int| 0 <= i < start implies (#[trigger] now[i]) is Some by {
                assert(was.done[i] is Some);
            }
        }
        let mut r = String::new();
        let mut asides: Vec<String> = Vec::new();
        let n: usize = self.done.len();
        assert(r@ =~= blocks(self.bold, names, now, start as nat, start as nat));
        assert(text::texts(asides@) =~= asides_of(names, now, start as nat, start as nat));
        loop
            invariant
                start <= self.printed <= n == self.done@.len(),
                self.names@.len() == n,
                now == tales(self.done@),
                names == text::texts(self.names@),
                self@.bold == was.bold,
                self@.done == now,
                self@.names == names,
                was.names == names,
                forall|i: int| 0 <= i < self.printed ==> (#[trigger] now[i]) is Some,
                r@ == blocks(was.bold, names, now, start as nat, self.printed as nat),
                text::texts(asides@) == asides_of(names, now, start as nat, self.printed as nat),
            ensures
                self.printed < n ==> now[self.printed as int] is None,
            decreases n - self.printed,
        {
            if self.printed >= n {
                break ;
            }
            let k: usize = self.printed;
            match &self.done[k] {
                None => {
                    assert(now[k as int] is None);
                    break ;
                },
                Some(outcome) => {
                    assert(now[k as int] == Some(outcome@));
                    write_block(&mut r, &self.bold, self.names[k].as_str(), outcome, k == 0);
                    write_asides(&mut asides, self.names[k].as_str(), outcome.errors.as_str());
                },
            }
            self.printed = k + 1;
        }
        proof {
            lemma_ready_is(now, 0, self.printed as nat);
        }
        Printed { text: r, asides }
    }

    /// The machines that failed, each with the reason.
    pub fn failures(&self) -> (r: Vec<(String, String)>)
        requires
            self.wf(),
        ensures
            shown(r@) == failures_of(self@.names, self@.done, ready(self@.done, 0)),
    {
        let ghost now = tales(self.done@);
        let ghost names = text::texts(self.names@);
        let n: usize = self.printed;
        proof {
            lemma_ready(now, 0);
        }
        let mut r: Vec<(String, String)> = Vec::new();
        let mut i: usize = 0;
        assert(shown(r@) =~= failures_of(names, now, 0));
        while i < n
            invariant
                i <= n <= self.done@.len() == self.names@.len(),
                now == tales(self.done@),
                names == text::texts(self.names@),
                forall|j: int| 0 <= j < n ==> (#[trigger] now[j]) is Some,
                shown(r@) == failures_of(names, now, i as nat),
            decreases n - i,
        {
            assert(now[i as int] is Some);
            assert(names[i as int] == self.names@[i as int]@);
            if let Some(outcome) = &self.done[i] {
                if let Some(error) = &outcome.error {
                    let ghost had = shown(r@);
                    r.push((self.names[i].clone(), error.clone()));
                    assert(shown(r@) =~= had.push((names[i as int], error@)));
                }
            }
            i += 1;
        }
        r
    }
}

/// Names of machines with the reasons why they failed, as plain values.
pub open spec fn shown(failures: Seq<(String, String)>) -> Seq<(Seq<char>, Seq<char>)> {
    Seq::new(failures.len(), |i: int| (failures[i].0@, failures[i].1@))
}

/// Write the block of one machine of a fleet.
fn write_block(r: &mut String, paint: &Paint, name: &str, outcome: &Outcome, first: bool)
    ensures
        final(r)@ == old(r)@ + block(*paint, name@, outcome@, first),
{
    let ghost was = r@;
    if !first {
        r.append("\n");
    }
    mark(r, paint, name);
    r.append("\n");
    r.append(outcome.answers.as_str());
    if let Some(error) = &outcome.error {
        r.append("error\t");
        r.append(error.as_str());
        r.append("\n");
    }
    assert(r@ =~= was + block(*paint, name@, outcome@, first));
}

/// Write what a machine wrote while it was reached, each line behind its name.
fn write_asides(all: &mut Vec<String>, name: &str, errors: &str)
    ensures
        text::texts(final(all)@) == text::texts(old(all)@) + asides(name@, errors@),
{
    let ghost was = text::texts(all@);
    let ghost want = asides(name@, errors@);
    let lines = text::lines_of(errors);
    let n: usize = lines.len();
    let mut i: usize = 0;
    assert(was + want.take(0) =~= was);
    while i < n
        invariant
            i <= n == lines@.len(),
            text::texts(lines@) == text::lines(errors@),
            want == asides(name@, errors@),
            text::texts(all@) == was + want.take(i as int),
        decreases n - i,
    {
        let mut line = name.to_owned();
        line.append("\t");
        line.append(lines[i].as_str());
        assert(text::texts(lines@)[i as int] == lines@[i as int]@);
        assert(line@ =~= want[i as int]);
        let ghost had = text::texts(all@);
        let ghost one = line@;
        all.push(line);
        assert(text::texts(all@) =~= had.push(one));
        assert(was + want.take(i + 1) =~= (was + want.take(i as int)).push(want[i as int]));
        i += 1;
    }
    assert(want.take(i as int) =~= want);
}

/// What is known of a fleet once some of its machines arrived, in some order.
pub open spec fn arrived(all: Seq<Tale>, order: Seq<int>) -> Seq<Option<Tale>> {
    Seq::new(
        all.len(),
        |i: int|
            if order.contains(i) {
                Some(all[i])
            } else {
                None
            },
    )
}

/// What was printed once some machines of a fleet arrived, in some order: at each
/// arrival, what [`Roll::arrive`] gives for it.
pub open spec fn printed_by(
    paint: Paint,
    names: Seq<Seq<char>>,
    all: Seq<Tale>,
    order: Seq<int>,
) -> Seq<char>
    decreases order.len(),
{
    if order.len() == 0 {
        Seq::empty()
    } else {
        printed_by(paint, names, all, order.drop_last()) + blocks(
            paint,
            names,
            arrived(all, order),
            ready(arrived(all, order.drop_last()), 0),
            ready(arrived(all, order), 0),
        )
    }
}

proof fn lemma_printed_by(paint: Paint, names: Seq<Seq<char>>, all: Seq<Tale>, order: Seq<int>)
    ensures
        printed_by(paint, names, all, order) == blocks(
            paint,
            names,
            Seq::new(all.len(), |i: int| Some(all[i])),
            0,
            ready(arrived(all, order), 0),
        ),
    decreases order.len(),
{
    let whole = Seq::new(all.len(), |i: int| Some(all[i]));
    let now = arrived(all, order);
    lemma_ready(now, 0);
    if order.len() == 0 {
        if ready(now, 0) > 0 {
            assert(now[0] is Some);
        }
    } else {
        let less = order.drop_last();
        let was = arrived(all, less);
        lemma_printed_by(paint, names, all, less);
        lemma_ready(was, 0);
        let p = ready(was, 0);
        let q = ready(now, 0);
        if q < p {
            assert(was[q as int] is Some);
            let at = choose|j: int| 0 <= j < less.len() && less[j] == q as int;
            assert(order[at] == q as int);
            assert(order.contains(q as int));
        }
        assert forall|i: int| p <= i < q implies now[i] == #[trigger] whole[i] by {
            assert(now[i] is Some);
        }
        lemma_blocks_same(paint, names, now, whole, p, q);
        lemma_blocks_part(paint, names, whole, 0, p, q);
    }
}

/// A run over a fleet reads the same whatever the order in which the machines
/// answered: once all of them did, what was printed is their blocks in the order in
/// which they were named.
pub proof fn law_the_order_of_arrival_does_not_show(
    paint: Paint,
    names: Seq<Seq<char>>,
    all: Seq<Tale>,
    order: Seq<int>,
)
    requires
        forall|i: int| 0 <= i < all.len() ==> #[trigger] order.contains(i),
    ensures
        printed_by(paint, names, all, order) == blocks(
            paint,
            names,
            Seq::new(all.len(), |i: int| Some(all[i])),
            0,
            all.len(),
        ),
{
    let now = arrived(all, order);
    lemma_printed_by(paint, names, all, order);
    assert forall|i: int| 0 <= i < all.len() implies (#[trigger] now[i]) is Some by {
        assert(order.contains(i));
    }
    lemma_ready_is(now, 0, all.len());
}

/// The status of a run over a fleet.  A host that could not be reached is not the
/// end of the run, and it is still a run that failed.
pub fn fleet_status(failures: &Vec<(String, String)>) -> (r: i32)
    ensures
        r == failed_status(failures@.len()),
        r == (if failures@.len() > 0 {
            1
        } else {
            0int
        }),
{
    if failures.len() > 0 {
        1
    } else {
        0
    }
}

/// The line that says how one machine went, as the run goes.
pub open spec fn reached_line(
    green: Paint,
    red: Paint,
    host: Seq<char>,
    error: Option<Seq<char>>,
) -> Seq<char> {
    match error {
        None => painted(green, "ok"@) + " "@ + host,
        Some(e) => painted(red, "failed"@) + " "@ + host + "  "@ + e,
    }
}

/// The line that says how one machine went, as the run goes.
pub fn reached(green: &Paint, red: &Paint, host: &str, outcome: &Outcome) -> (r: String)
    ensures
        r@ == reached_line(*green, *red, host@, outcome@.error),
{
    let mut r = String::new();
    match &outcome.error {
        None => {
            mark(&mut r, green, "ok");
            r.append(" ");
            r.append(host);
        },
        Some(e) => {
            mark(&mut r, red, "failed");
            r.append(" ");
            r.append(host);
            r.append("  ");
            r.append(e.as_str());
        },
    }
    assert(r@ =~= reached_line(*green, *red, host@, outcome@.error));
    r
}

/// How a run over a fleet went: how many machines there were, how many of them
/// worked, and which of them did not.
pub open spec fn summary(
    red: Paint,
    targets: nat,
    failures: Seq<(Seq<char>, Seq<char>)>,
) -> Seq<Seq<char>> {
    let count = text::decimal(failures.len()) + " failed"@;
    let head = text::decimal(targets) + " hosts: "@ + text::decimal(
        (targets - failures.len()) as nat,
    ) + " ok, "@ + (if failures.len() == 0 {
        count
    } else {
        painted(red, count)
    });
    seq![head] + Seq::new(
        failures.len(),
        |i: int| "  "@ + failures[i].0 + "\t"@ + failures[i].1,
    )
}

/// How a run over a fleet went.
pub fn summarize(red: &Paint, targets: usize, failures: &Vec<(String, String)>) -> (r: Vec<String>)
    requires
        failures@.len() <= targets,
    ensures
        text::texts(r@) == summary(*red, targets as nat, shown(failures@)),
{
    let ghost all = shown(failures@);
    let n: usize = failures.len();
    let mut count = text::decimal_of(n as u64);
    count.append(" failed");
    let mut head = text::decimal_of(targets as u64);
    head.append(" hosts: ");
    head.append(text::decimal_of((targets - n) as u64).as_str());
    head.append(" ok, ");
    if n == 0 {
        head.append(count.as_str());
    } else {
        mark(&mut head, red, count.as_str());
    }
    let ghost want = summary(*red, targets as nat, all);
    assert(head@ =~= want[0]);
    let mut r: Vec<String> = Vec::new();
    r.push(head);
    let mut i: usize = 0;
    assert(text::texts(r@) =~= want.take(1));
    while i < n
        invariant
            i <= n == failures@.len(),
            all == shown(failures@),
            want == summary(*red, targets as nat, all),
            text::texts(r@) == want.take(i + 1),
        decreases n - i,
    {
        let mut line = "  ".to_owned();
        line.append(failures[i].0.as_str());
        line.append("\t");
        line.append(failures[i].1.as_str());
        assert(line@ =~= want[i + 1]);
        let ghost had = text::texts(r@);
        let ghost one = line@;
        r.push(line);
        assert(text::texts(r@) =~= had.push(one));
        assert(want.take(i + 2) =~= want.take(i + 1).push(want[i + 1]));
        i += 1;
    }
    assert(want.take(i + 1) =~= want);
    r
}

/// What one run had to say, which is what the next one is compared against.
///
/// The status is part of it because a host that starts failing without a word on
/// its standard output is a change, and the answers alone would not show it.
pub struct Pass {
    pub answers: Vec<u8>,
    pub code: i32,
}

impl View for Pass {
    type V = (Seq<u8>, int);

    open spec fn view(&self) -> (Seq<u8>, int) {
        (self.answers@, self.code as int)
    }
}

/// A run, if there was one.
pub open spec fn passed(last: Option<Pass>) -> Option<(Seq<u8>, int)> {
    match last {
        Some(pass) => Some(pass@),
        None => None,
    }
}

/// What a run of a watch is headed by, when it is printed: a run is printed only
/// when it is not the one before it, and is kept apart from that one the way the
/// blocks of a fleet are.
pub open spec fn heading(
    last: Option<(Seq<u8>, int)>,
    this: (Seq<u8>, int),
    now: Seq<char>,
) -> Option<Seq<char>> {
    let head = "changed\t"@ + now + "\n"@;
    match last {
        None => Some(head),
        Some(before) => if before == this {
            None
        } else {
            Some("\n"@ + head)
        },
    }
}

/// Whether a watch goes on once it ran: it does until it ran as often as it was
/// asked to, and where it was not told how often, until it is interrupted.
pub open spec fn goes_on(left: Option<u64>) -> bool {
    match left {
        None => true,
        Some(n) => n > 1,
    }
}

/// A watch: the run that was printed last, and how many are left.
pub struct Watch {
    pub last: Option<Pass>,
    pub left: Option<u64>,
}

/// Whether two runs said the same.
fn alike(a: &Vec<u8>, b: &Vec<u8>) -> (r: bool)
    ensures
        r == (a@ == b@),
{
    let n: usize = a.len();
    if n != b.len() {
        return false;
    }
    let mut i: usize = 0;
    while i < n
        invariant
            i <= n == a@.len() == b@.len(),
            forall|j: int| 0 <= j < i ==> a@[j] == #[trigger] b@[j],
        decreases n - i,
    {
        if a[i] != b[i] {
            return false;
        }
        i += 1;
    }
    assert(a@ =~= b@);
    true
}

impl Watch {
    /// A watch before its first run.
    pub fn new(count: Option<u64>) -> (r: Self)
        ensures
            r.left == count,
            passed(r.last) is None,
    {
        Watch { last: None, left: count }
    }

    /// One more run: what it is headed by when it is printed, and whether there is
    /// another one behind it.
    pub fn tick(&mut self, pass: Pass, now: &str) -> (r: (Option<String>, bool))
        requires
            old(self).left != Some(0u64),
        ensures
            text::text_of(r.0) == heading(passed(old(self).last), pass@, now@),
            r.1 == goes_on(old(self).left),
            passed(final(self).last) == Some(pass@),
            final(self).left == (match old(self).left {
                Some(n) => Some((n - 1) as u64),
                None => None,
            }),
    {
        let mut head = String::new();
        let first = match &self.last {
            None => true,
            Some(_) => false,
        };
        let same = match &self.last {
            None => false,
            Some(before) => before.code == pass.code && alike(&before.answers, &pass.answers),
        };
        if !first {
            head.append("\n");
        }
        head.append("changed\t");
        head.append(now);
        head.append("\n");
        let ghost want = "changed\t"@ + now@ + "\n"@;
        assert(head@ =~= if first {
            want
        } else {
            "\n"@ + want
        });
        let printed: Option<String> = if same {
            None
        } else {
            Some(head)
        };
        self.last = Some(pass);
        let more = match self.left {
            None => true,
            Some(n) => {
                self.left = Some(n - 1);
                n > 1
            },
        };
        (printed, more)
    }
}

/// A fleet that stays as it is says nothing: the first run of a watch is printed,
/// and one that is the same as the one before it is not, whatever the time.
pub proof fn law_a_watch_is_silent_until_something_changes(run: (Seq<u8>, int), now: Seq<char>)
    ensures
        heading(None, run, now) is Some,
        heading(Some(run), run, now) is None,
        forall|other: (Seq<u8>, int)|
            other != run ==> (#[trigger] heading(Some(other), run, now)) is Some,
{
}

/// A host is reached with ssh: the options that were asked for each behind
/// `-o`, then the host, and then what runs there, with sudo where that was
/// asked for. Batch mode comes first.
pub proof fn law_a_host_is_reached_with_ssh(wish: Wish, host: Seq<char>, batch: bool, i: int)
    requires
        0 <= i < wish.options.len(),
    ensures
        ({
            let argv = ssh_line(wish, host, batch);
            let from: int = if batch {
                3
            } else {
                1
            };
            &&& argv.len() == from + 2 * wish.options.len() + 2
            &&& argv[0] == "ssh"@
            &&& batch ==> argv[1] == "-o"@ && argv[2] == "BatchMode=yes"@
            &&& argv[from + 2 * i] == "-o"@
            &&& argv[from + 2 * i + 1] == wish.options[i]
            &&& argv[argv.len() - 2] == host
            &&& wish.sudo ==> argv[argv.len() - 1] == "sudo -n "@ + wish.remote_path
            &&& !wish.sudo ==> argv[argv.len() - 1] == wish.remote_path
        }),
{
    lemma_flagged(wish.options);
    let all = flagged(wish.options);
    let opening = if batch {
        seq!["ssh"@, "-o"@, "BatchMode=yes"@]
    } else {
        seq!["ssh"@]
    };
    let argv = ssh_line(wish, host, batch);
    let from = opening.len() as int;
    assert(argv[from + 2 * i] == all[2 * i]);
    assert(argv[from + 2 * i + 1] == all[2 * i + 1]);
    assert(all[2 * i] == "-o"@ && all[2 * i + 1] == wish.options[i]) by {
        lemma_flagged_at(wish.options, i);
    }
}

proof fn lemma_flagged(options: Seq<Seq<char>>)
    ensures
        flagged(options).len() == 2 * options.len(),
    decreases options.len(),
{
    if options.len() > 0 {
        lemma_flagged(options.drop_last());
    }
}

proof fn lemma_flagged_at(options: Seq<Seq<char>>, i: int)
    requires
        0 <= i < options.len(),
    ensures
        flagged(options).len() == 2 * options.len(),
        flagged(options)[2 * i] == "-o"@,
        flagged(options)[2 * i + 1] == options[i],
    decreases options.len(),
{
    let less = options.drop_last();
    lemma_flagged(options);
    lemma_flagged(less);
    if i < less.len() {
        lemma_flagged_at(less, i);
        assert(less[i] == options[i]);
        assert(flagged(options)[2 * i] == flagged(less)[2 * i]);
        assert(flagged(options)[2 * i + 1] == flagged(less)[2 * i + 1]);
    }
}

/// With nobody to answer a question, ssh asks none: several targets and a
/// watch run in batch mode, unless an option says otherwise.
pub proof fn law_several_targets_run_in_batch_mode(wish: Wish, hosts: nat)
    ensures
        batched(wish, hosts) <==> (hosts + wish.commands.len() >= 2 || wish.watched) && forall|i: int|
            0 <= i < wish.options.len() ==> !is_batch(#[trigger] wish.options[i]),
{
}

/// An option sets batch mode when that is what stands before its equals sign,
/// in whatever case, with or without white space around it.
pub proof fn law_batch_mode_is_known_by_its_name(name: Seq<char>, v: Seq<char>)
    requires
        forall|i: int| 0 <= i < name.len() ==> name[i] != '=',
    ensures
        is_batch(name + seq!['='] + v) <==> is_batch(name),
        is_batch(name) <==> lowered(text::trim(name)) == "batchmode"@,
        lowered("BatchMode"@) == "batchmode"@,
        lowered("BATCHMODE"@) == "batchmode"@,
        lowered("batchmode"@) == "batchmode"@,
{
    text::lemma_split_joins(name, v, '=');
    text::lemma_split_whole(name, '=');
    text::lemma_split_some(v, '=');
    reveal_strlit("batchmode");
    reveal_strlit("BatchMode");
    reveal_strlit("BATCHMODE");
    assert(lowered("BatchMode"@) =~= "batchmode"@);
    assert(lowered("BATCHMODE"@) =~= "batchmode"@);
    assert(lowered("batchmode"@) =~= "batchmode"@);
}

/// The targets are the hosts that were named and then the commands, each in
/// its order; there is at least one.
pub proof fn law_hosts_come_before_commands(fleet: Fleet, wish: Wish, i: int)
    requires
        hosts::expanded(fleet, hosts::terms_of(wish.hosts)) is Ok,
    ensures
        ({
            let hosts = hosts::expanded(fleet, hosts::terms_of(wish.hosts))->Ok_0;
            let all = aims(fleet, wish);
            &&& all is Ok <==> hosts.len() + wish.commands.len() > 0
            &&& all is Ok ==> all->Ok_0.len() == hosts.len() + wish.commands.len()
            &&& all is Ok && 0 <= i < hosts.len() ==> all->Ok_0[i].name == hosts[i] && all->Ok_0[i].argv
                == ssh_line(wish, hosts[i], batched(wish, hosts.len()))
            &&& all is Ok && 0 <= i < wish.commands.len() ==> {
                let one = all->Ok_0[hosts.len() + i];
                &&& one.name == wish.commands[i]
                &&& one.argv == seq!["sh"@, "-c"@, wish.commands[i]]
            }
        }),
{
}

/// A selection that cannot be read reaches nobody.
pub proof fn law_a_bad_selection_reaches_nobody(fleet: Fleet, wish: Wish)
    requires
        hosts::expanded(fleet, hosts::terms_of(wish.hosts)) is Err,
    ensures
        aims(fleet, wish) is Err,
{
}

/// An answer with an error is an error, an answer that goes on is followed by
/// another, and no answer at all is an error too.
pub proof fn law_an_error_ends_the_hearing(answer: Answer)
    ensures
        hearing(None) is Err,
        answer.error is Some ==> hearing(Some(answer)) is Err,
        answer.error is None ==> hearing(Some(answer)) == Ok::<bool, Seq<char>>(answer.continues),
{
}

/// A refusal is told with the message that it carries, and with a message of
/// its own when it carries none.
pub proof fn law_a_refusal_is_told_in_its_own_words(
    answer: Answer,
    m: Map<Seq<char>, Json>,
    t: Seq<char>,
)
    ensures
        answer.parameters == Some(Json::Object(m)) && m.dom().contains("message"@) && m["message"@]
            == Json::Text(t) ==> refusal(answer) == t,
        answer.parameters is None && answer.error == Some("org.detc.Manager.ReadOnly"@) ==> refusal(
            answer,
        ) == "detcd was started read-only, and the command changes the system"@,
        answer.parameters is None && answer.error is Some && answer.error->0
            != "org.detc.Manager.ReadOnly"@ ==> refusal(answer) == "detcd answered with "@
            + answer.error->0,
{
}

/// A target is blamed when its command ends with another code than zero, or
/// when what it said could not be understood.
pub proof fn law_a_target_that_fails_is_blamed(
    spoke: Result<(), Seq<char>>,
    code: int,
    errors: Seq<char>,
)
    ensures
        blamed(spoke, code, errors) is None <==> code == 0 && spoke is Ok,
        code != 0 ==> blamed(spoke, code, errors) == Some(explained(errors, code)),
        code == 0 && spoke is Err ==> blamed(spoke, code, errors) == Some(spoke->Err_0),
{
}

/// A failure is explained by the last line that was said and is not blank; in
/// silence, 255 is a host that could not be reached.
pub proof fn law_the_last_words_explain(lines: Seq<Seq<char>>, line: Seq<char>)
    ensures
        text::trim(line).len() > 0 ==> last_words(lines.push(line)) == Some(text::trim(line)),
        text::trim(line).len() == 0 ==> last_words(lines.push(line)) == last_words(lines),
        last_words(Seq::empty()) is None,
        explained(Seq::empty(), 255) == "The host could not be reached"@,
        forall|code: int|
            code != 255 ==> #[trigger] explained(Seq::empty(), code) == "detcd exited with "@
                + text::signed(code),
        forall|errors: Seq<char>, code: int|
            last_words(text::lines(errors)) is Some ==> #[trigger] explained(errors, code)
                == last_words(text::lines(errors))->0,
{
    assert(lines.push(line).drop_last() =~= lines);
    text::law_a_line_ends_at_its_line_feed(Seq::empty(), Seq::empty());
}

/// A block is the name of its target, what it answered, and its error where it
/// has one; a blank line stands between two blocks.
pub proof fn law_a_block_is_headed_by_its_target(paint: Paint, name: Seq<char>, tale: Tale)
    ensures
        block(paint, name, tale, false) == "\n"@ + block(paint, name, tale, true),
        tale.error is None ==> block(paint, name, tale, true) == paint.on@ + name + paint.off@ + "\n"@
            + tale.answers,
        tale.error matches Some(e) ==> block(paint, name, tale, true) == paint.on@ + name + paint.off@
            + "\n"@ + tale.answers + "error\t"@ + e + "\n"@,
{
    let whole = painted(paint, name) + "\n"@ + tale.answers + error_line(tale.error);
    assert(block(paint, name, tale, true) =~= whole);
    assert(block(paint, name, tale, false) =~= "\n"@ + whole);
    if tale.error is None {
        assert(whole =~= paint.on@ + name + paint.off@ + "\n"@ + tale.answers);
    } else {
        let e = tale.error->0;
        assert(whole =~= paint.on@ + name + paint.off@ + "\n"@ + tale.answers + "error\t"@ + e
            + "\n"@);
    }
}

/// What was told aside is every line of it behind the name of its target.
pub proof fn law_asides_are_told_by_target(name: Seq<char>, errors: Seq<char>, i: int)
    requires
        0 <= i < text::lines(errors).len(),
    ensures
        asides(name, errors).len() == text::lines(errors).len(),
        asides(name, errors)[i] == name + "\t"@ + text::lines(errors)[i],
{
}

/// The failures are the targets that have an error, in their order, each with
/// its own.
pub proof fn law_failures_are_the_targets_with_an_error(
    names: Seq<Seq<char>>,
    done: Seq<Option<Tale>>,
    n: nat,
)
    ensures
        failures_of(names, done, 0).len() == 0,
        (done[n as int]->0).error is None ==> failures_of(names, done, n + 1) == failures_of(
            names,
            done,
            n,
        ),
        (done[n as int]->0).error matches Some(e) ==> failures_of(names, done, n + 1) == failures_of(
            names,
            done,
            n,
        ).push((names[n as int], e)),
{
}

/// What can be shown is everything before the first target that has not come
/// back.
pub proof fn law_what_can_be_shown_ends_at_the_first_gap(done: Seq<Option<Tale>>, from: nat)
    requires
        from <= done.len(),
    ensures
        from <= ready(done, from) <= done.len(),
        forall|i: int| from <= i < ready(done, from) ==> (#[trigger] done[i]) is Some,
        ready(done, from) < done.len() ==> done[ready(done, from) as int] is None,
    decreases done.len() - from,
{
    if from < done.len() && done[from as int] is Some {
        law_what_can_be_shown_ends_at_the_first_gap(done, from + 1);
    }
}

/// A summary counts the targets, those that worked and those that did not,
/// which add up, and then gives each failure on a line.
pub proof fn law_a_summary_adds_up(
    red: Paint,
    targets: nat,
    failures: Seq<(Seq<char>, Seq<char>)>,
    i: int,
)
    requires
        failures.len() <= targets,
    ensures
        summary(red, targets, failures).len() == failures.len() + 1,
        failures.len() == 0 ==> summary(red, targets, failures)[0] == text::decimal(targets)
            + " hosts: "@ + text::decimal(targets) + " ok, "@ + (text::decimal(0) + " failed"@),
        failures.len() > 0 ==> summary(red, targets, failures)[0] == text::decimal(targets)
            + " hosts: "@ + text::decimal((targets - failures.len()) as nat) + " ok, "@ + painted(
            red,
            text::decimal(failures.len()) + " failed"@,
        ),
        0 <= i < failures.len() ==> summary(red, targets, failures)[i + 1] == "  "@ + failures[i].0
            + "\t"@ + failures[i].1,
{
}

/// A host that was reached is said to be, and one that was not with why.
pub proof fn law_a_host_is_reached_or_failed(green: Paint, red: Paint, host: Seq<char>, e: Seq<char>)
    ensures
        reached_line(green, red, host, None) == green.on@ + "ok"@ + green.off@ + " "@ + host,
        reached_line(green, red, host, Some(e)) == red.on@ + "failed"@ + red.off@ + " "@ + host + "  "@
            + e,
{
}

/// A watch that is given a number of runs makes that many, and one that is
/// given none goes on.
pub proof fn law_a_watch_goes_on_while_runs_are_left(n: u64)
    ensures
        goes_on(None),
        goes_on(Some(n)) <==> n >= 2,
{
}

/// A run that shows something new is headed by the time; a blank line parts it
/// from what was shown before.
pub proof fn law_what_is_new_is_headed_by_the_time(
    before: (Seq<u8>, int),
    this: (Seq<u8>, int),
    now: Seq<char>,
)
    ensures
        heading(None, this, now) == Some("changed\t"@ + now + "\n"@),
        before != this ==> heading(Some(before), this, now) == Some(
            "\n"@ + ("changed\t"@ + now + "\n"@),
        ),
        before == this ==> heading(Some(before), this, now) is None,
{
}

/// A command is sent to the method of its own name, and asks for more answers
/// where there may be more.
pub proof fn law_a_command_is_sent_to_its_method(
    verb: Verb,
    dry_run: bool,
    read: Result<Seq<u8>, Seq<char>>,
)
    ensures
        asking_of(verb, dry_run, read) matches Err(e) ==> errand(verb, dry_run, read) == Err::<
            Errand,
            Seq<char>,
        >(e),
        asking_of(verb, dry_run, read) matches Ok(asking) ==> (errand(verb, dry_run, read) matches Ok(
            message,
        ) && message.method == "org.detc.Manager"@ + "."@ + method_name(manager::method_of(asking))
            && message.asking == asking && message.more == method_streams(
            manager::method_of(asking),
        )),
{
}

/// Blocks come one behind the other, and only the first has no blank line
/// before it.
pub proof fn law_blocks_come_one_behind_the_other(
    paint: Paint,
    names: Seq<Seq<char>>,
    done: Seq<Option<Tale>>,
    from: nat,
    to: nat,
)
    requires
        from <= to,
    ensures
        blocks(paint, names, done, from, from).len() == 0,
        blocks(paint, names, done, from, to + 1) == blocks(paint, names, done, from, to) + block(
            paint,
            names[to as int],
            done[to as int]->0,
            to == 0,
        ),
        asides_of(names, done, from, from).len() == 0,
        asides_of(names, done, from, to + 1) == asides_of(names, done, from, to) + asides(
            names[to as int],
            (done[to as int]->0).errors,
        ),
{
}

/// Capital letters of ASCII are made small, and nothing else is changed.
pub proof fn law_capital_letters_are_made_small(s: Seq<char>, i: int)
    requires
        0 <= i < s.len(),
    ensures
        lowered(s).len() == s.len(),
        !('A' <= s[i] && s[i] <= 'Z') ==> lowered(s)[i] == s[i],
        'A' <= s[i] && s[i] <= 'Z' ==> lowered(s)[i] as int == s[i] as int + 32,
{
}

/// A machine is reached at its own name, runs the service where that is
/// installed, and ten are reached at a time.
pub proof fn law_a_fleet_is_reached_by_default()
    ensures
        REMOTE_PATH@ == "/usr/bin/detcd"@,
        JOBS == 10,
{
}

/// The status of a run of one machine.
pub open spec fn spoken_status(spoke: bool, code: int) -> int {
    if !spoke && code == 0 {
        1
    } else {
        code
    }
}

/// How many of these targets are reached at a time.
pub open spec fn at_a_time(jobs: nat, targets: nat) -> nat {
    if jobs == 0 || jobs > targets {
        targets
    } else {
        jobs
    }
}

/// The status of a run over a fleet.
pub open spec fn failed_status(failures: nat) -> int {
    if failures > 0 {
        1
    } else {
        0
    }
}

/// A run succeeds when it ended well and could be understood, a failure keeps
/// its own status, and a fleet succeeds when none of its hosts failed.
pub proof fn law_a_run_succeeds_when_nothing_failed(spoke: bool, code: int, failures: nat)
    ensures
        spoken_status(spoke, code) == 0 <==> spoke && code == 0,
        code != 0 ==> spoken_status(spoke, code) == code,
        spoken_status(false, 0) == 1,
        failed_status(failures) == 0 <==> failures == 0,
        failures > 0 ==> failed_status(failures) == 1,
{
}

/// As many targets are reached at a time as was asked for, at most all of
/// them, and all of them when no number was given.
pub proof fn law_no_more_workers_than_targets(jobs: nat, targets: nat)
    ensures
        at_a_time(jobs, targets) <= targets,
        at_a_time(0, targets) == targets,
        0 < jobs <= targets ==> at_a_time(jobs, targets) == jobs,
        jobs > targets ==> at_a_time(jobs, targets) == targets,
        targets > 0 ==> at_a_time(jobs, targets) > 0,
{
}

} // verus!
