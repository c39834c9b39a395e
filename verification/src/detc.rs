//! The subcommands of `detc`: what they are asked with, what they decide, and
//! what they report.
//!
//! Every subcommand works on the objects that the system provides.  What was
//! found in the system is handed in, and what a subcommand has to say comes
//! back as records, so that a command sent over a socket is the same command,
//! run the same way, as the one typed on the machine.

use vstd::prelude::*;

use crate::bundle;
use crate::provider::said;
use crate::record::Type;
use crate::text;
use crate::value::Json;
use crate::var;
use crate::var::Variables;

verus! {

/// Root of the system when none is given in the command line.
pub const DEFAULT_ROOT: &'static str = "/";

/// The three tools that live in one binary.
#[derive(Clone, Copy, Debug, PartialEq, Eq, Structural)]
pub enum Tool {
    Detc,
    Detcd,
    Detctl,
}

/// The tool that a name calls.
pub open spec fn tool_named(name: Option<Seq<char>>) -> Tool {
    if name == Some("detctl"@) {
        Tool::Detctl
    } else if name == Some("detcd"@) {
        Tool::Detcd
    } else {
        Tool::Detc
    }
}

/// The tool that matches the name used to call the binary.
pub fn tool(name: Option<&str>) -> (r: Tool)
    ensures
        r == tool_named(
            match name {
                Some(name) => Some(name@),
                None => None,
            },
        ),
{
    match name {
        None => Tool::Detc,
        Some(name) => if text::equal(name, "detctl") {
            Tool::Detctl
        } else if text::equal(name, "detcd") {
            Tool::Detcd
        } else {
            Tool::Detc
        },
    }
}

/// How much is reported of a run, by how often it was asked for.
pub open spec fn level_text(debug: nat) -> Seq<char> {
    if debug == 0 {
        "OFF"@
    } else if debug == 1 {
        "ERROR"@
    } else if debug == 2 {
        "WARN"@
    } else if debug == 3 {
        "INFO"@
    } else if debug == 4 {
        "DEBUG"@
    } else {
        "TRACE"@
    }
}

/// Nothing is reported unless it is asked for, and everything is once it was
/// asked for five times.
pub proof fn law_more_is_reported_the_more_it_is_asked_for(debug: nat)
    ensures
        level_text(0) == "OFF"@,
        level_text(1) == "ERROR"@,
        level_text(2) == "WARN"@,
        level_text(3) == "INFO"@,
        level_text(4) == "DEBUG"@,
        debug >= 5 ==> level_text(debug) == "TRACE"@,
{
}

/// How much is reported of a run, by how often it was asked for.  Nothing is
/// reported by default, as the tool is expected to be used in a pipeline.
pub fn level(debug: u8) -> (r: &'static str)
    ensures
        r@ == level_text(debug as nat),
        r@ == (if debug == 0 {
            "OFF"@
        } else if debug == 1 {
            "ERROR"@
        } else if debug == 2 {
            "WARN"@
        } else if debug == 3 {
            "INFO"@
        } else if debug == 4 {
            "DEBUG"@
        } else {
            "TRACE"@
        }),
{
    match debug {
        0 => "OFF",
        1 => "ERROR",
        2 => "WARN",
        3 => "INFO",
        4 => "DEBUG",
        _ => "TRACE",
    }
}

/// Variables given in the command line, that override the ones collected from
/// the system.
#[derive(Debug, PartialEq, Eq)]
pub struct VarArgs {
    pub key: Vec<String>,
    pub value: Vec<String>,
    pub kv: Vec<String>,
}

/// Variables given in the command line, as plain values.
#[verifier::ext_equal]
pub struct Given {
    pub key: Seq<Seq<char>>,
    pub value: Seq<Seq<char>>,
    pub kv: Seq<Seq<char>>,
}

impl View for VarArgs {
    type V = Given;

    open spec fn view(&self) -> Given {
        Given {
            key: text::texts(self.key@),
            value: text::texts(self.value@),
            kv: text::texts(self.kv@),
        }
    }
}

/// No variables at all.
pub open spec fn none_given() -> Given {
    Given { key: Seq::empty(), value: Seq::empty(), kv: Seq::empty() }
}

/// Whether arguments write to the system instead of querying it.
pub open spec fn writes(given: Given, file: bool, probes: bool, probe: bool) -> bool {
    !probes && !probe && (file || given.kv.len() > 0 || (given.key.len() > 0 && given.value.len() > 0))
}

/// Keys and values, as pairs.
pub open spec fn zipped(key: Seq<Seq<char>>, value: Seq<Seq<char>>) -> Seq<(Seq<char>, Seq<char>)> {
    Seq::new(key.len(), |i: int| (key[i], value[i]))
}

/// The pairs that keys and values make, when there are as many of one as of the
/// other.
pub open spec fn pairs_of(given: Given) -> Result<Seq<(Seq<char>, Seq<char>)>, Seq<char>> {
    if given.key.len() != given.value.len() {
        Err(
            "When setting variable values, make sure to provide the same ammount of key and values"@,
        )
    } else {
        Ok(zipped(given.key, given.value))
    }
}

/// Pairs, as plain values.
pub open spec fn pair_texts(s: Seq<(String, String)>) -> Seq<(Seq<char>, Seq<char>)> {
    Seq::new(s.len(), |i: int| (s[i].0@, s[i].1@))
}

/// A list of texts once more.
pub fn texts_again(list: &Vec<String>) -> (r: Vec<String>)
    ensures
        text::texts(r@) == text::texts(list@),
{
    let mut r: Vec<String> = Vec::new();
    let mut i: usize = 0;
    while i < list.len()
        invariant
            i <= list@.len(),
            r@.len() == i,
            forall|j: int| 0 <= j < i ==> (#[trigger] r@[j])@ == list@[j]@,
        decreases list@.len() - i,
    {
        r.push(list[i].clone());
        i += 1;
    }
    assert(text::texts(r@) =~= text::texts(list@));
    r
}

/// An optional text once more.
pub fn option_again(t: &Option<String>) -> (r: Option<String>)
    ensures
        text::text_of(r) == text::text_of(*t),
{
    match t {
        Some(t) => Some(t.clone()),
        None => None,
    }
}

/// A namespace with pairs of keys and typed values set in it, in their order.
pub open spec fn set_pairs(j: Json, pairs: Seq<(Seq<char>, Seq<char>)>) -> Result<Json, Seq<char>>
    decreases pairs.len(),
{
    if pairs.len() == 0 {
        Ok(j)
    } else {
        match set_pairs(j, pairs.drop_last()) {
            Err(e) => Err(e),
            Ok(before) => var::set_at(before, pairs.last().0, var::typed(pairs.last().1)),
        }
    }
}

/// A namespace with mappings of dotted keys set in it, in their order.
pub open spec fn set_mappings(j: Json, kv: Seq<Seq<char>>) -> Result<Json, Seq<char>>
    decreases kv.len(),
{
    if kv.len() == 0 {
        Ok(j)
    } else {
        match set_mappings(j, kv.drop_last()) {
            Err(e) => Err(e),
            Ok(before) => match var::mapping_in(kv.last()) {
                Err(e) => Err(e),
                Ok(m) => match var::set_all(before, m, text::listing(m.dom())) {
                    (_, Err(e)) => Err(e),
                    (after, Ok(_)) => Ok(after),
                },
            },
        }
    }
}

/// A namespace overridden with the variables of a command line.
pub open spec fn overridden(system: Result<Json, Seq<char>>, given: Given) -> Result<
    Json,
    Seq<char>,
> {
    match system {
        Err(e) => Err(e),
        Ok(j) => match pairs_of(given) {
            Err(e) => Err(e),
            Ok(pairs) => match set_pairs(j, pairs) {
                Err(e) => Err(e),
                Ok(j) => set_mappings(j, given.kv),
            },
        },
    }
}

proof fn lemma_pairs_stop(j: Json, pairs: Seq<(Seq<char>, Seq<char>)>, i: int)
    requires
        0 <= i <= pairs.len(),
        set_pairs(j, pairs.take(i)) is Err,
    ensures
        set_pairs(j, pairs) == set_pairs(j, pairs.take(i)),
    decreases pairs.len() - i,
{
    if i == pairs.len() {
        assert(pairs.take(i) =~= pairs);
    } else {
        assert(pairs.take(i + 1).drop_last() =~= pairs.take(i));
        lemma_pairs_stop(j, pairs, i + 1);
    }
}

proof fn lemma_mappings_stop(j: Json, kv: Seq<Seq<char>>, i: int)
    requires
        0 <= i <= kv.len(),
        set_mappings(j, kv.take(i)) is Err,
    ensures
        set_mappings(j, kv) == set_mappings(j, kv.take(i)),
    decreases kv.len() - i,
{
    if i == kv.len() {
        assert(kv.take(i) =~= kv);
    } else {
        assert(kv.take(i + 1).drop_last() =~= kv.take(i));
        lemma_mappings_stop(j, kv, i + 1);
    }
}

impl VarArgs {
    /// No variables at all.
    pub fn none() -> (r: Self)
        ensures
            r@ == none_given(),
    {
        let r = VarArgs { key: Vec::new(), value: Vec::new(), kv: Vec::new() };
        assert(r@ =~= none_given());
        r
    }

    /// The same variables once more.
    pub fn again(&self) -> (r: Self)
        ensures
            r@ == self@,
    {
        VarArgs {
            key: texts_again(&self.key),
            value: texts_again(&self.value),
            kv: texts_again(&self.kv),
        }
    }

    /// Whether these arguments write to the system instead of querying it.
    pub fn writes(&self, file: Option<&str>, probes: bool, probe: Option<&str>) -> (r: bool)
        ensures
            r == writes(self@, file is Some, probes, probe is Some),
    {
        !probes && probe.is_none() && (file.is_some() || self.kv.len() > 0 || (self.key.len() > 0
            && self.value.len() > 0))
    }

    /// Pair every key with its value.  Both are given as repeated options, so
    /// they only address a variable when there are as many of one as the other.
    pub fn pairs(&self) -> (r: Result<Vec<(String, String)>, String>)
        ensures
            pairs_of(self@) == (match r {
                Ok(pairs) => Ok(pair_texts(pairs@)),
                Err(e) => Err(e@),
            }),
    {
        if self.key.len() != self.value.len() {
            return Err(
                "When setting variable values, make sure to provide the same ammount of key and values".to_owned(),
            );
        }
        let mut r: Vec<(String, String)> = Vec::new();
        let mut i: usize = 0;
        while i < self.key.len()
            invariant
                i <= self.key@.len() == self.value@.len(),
                r@.len() == i,
                forall|j: int|
                    0 <= j < i ==> (#[trigger] r@[j]).0@ == self.key@[j]@ && r@[j].1@
                        == self.value@[j]@,
            decreases self.key@.len() - i,
        {
            r.push((self.key[i].clone(), self.value[i].clone()));
            i += 1;
        }
        assert(pair_texts(r@) =~= zipped(self@.key, self@.value));
        Ok(r)
    }

    /// The variables of the system, updated with the ones given in the command
    /// line.
    pub fn variables(&self, system: Result<Variables, String>) -> (r: Result<
        Variables,
        String,
    >)
        ensures
            var::namespace(r) == overridden(var::namespace(system), self@),
    {
        let mut var = match system {
            Ok(var) => var,
            Err(e) => {
                return Err(e);
            },
        };
        let ghost start = var@;
        let pairs = match self.pairs() {
            Ok(pairs) => pairs,
            Err(e) => {
                return Err(e);
            },
        };
        let ghost all = pair_texts(pairs@);
        let n: usize = pairs.len();
        let mut i: usize = 0;
        while i < n
            invariant
                i <= n == pairs@.len(),
                all == pair_texts(pairs@),
                set_pairs(start, all.take(i as int)) == Ok::<Json, Seq<char>>(var@),
                var::namespace(system) == Ok::<Json, Seq<char>>(start),
                self@.kv == text::texts(self.kv@),
                overridden(Ok(start), self@) == (match set_pairs(start, all) {
                    Err(e) => Err(e),
                    Ok(j) => set_mappings(j, self@.kv),
                }),
            decreases n - i,
        {
            proof {
                assert(all.take(i + 1).drop_last() =~= all.take(i as int));
                assert(all.take(i + 1).last() == all[i as int]);
                if set_pairs(start, all.take(i + 1)) is Err {
                    lemma_pairs_stop(start, all, i + 1);
                }
            }
            if let Err(e) = var.set_json(pairs[i].0.as_str(), pairs[i].1.as_str()) {
                return Err(e);
            }
            i += 1;
        }
        assert(all.take(n as int) =~= all);
        let ghost middle = var@;
        let ghost kvs = self@.kv;
        let m: usize = self.kv.len();
        let mut k: usize = 0;
        while k < m
            invariant
                k <= m == self.kv@.len(),
                kvs == text::texts(self.kv@),
                set_mappings(middle, kvs.take(k as int)) == Ok::<Json, Seq<char>>(var@),
                var::namespace(system) == Ok::<Json, Seq<char>>(start),
                overridden(Ok(start), self@) == set_mappings(middle, kvs),
            decreases m - k,
        {
            proof {
                assert(kvs.take(k + 1).drop_last() =~= kvs.take(k as int));
                assert(kvs.take(k + 1).last() == self.kv@[k as int]@);
                if set_mappings(middle, kvs.take(k + 1)) is Err {
                    lemma_mappings_stop(middle, kvs, k + 1);
                }
            }
            if let Err(e) = var.set_kv(self.kv[k].as_str()) {
                return Err(e);
            }
            k += 1;
        }
        assert(kvs.take(m as int) =~= kvs);
        Ok(var)
    }
}

/// Where the bytes of a bundle come from.
///
/// A path means something only on the machine where it was typed, so it is read
/// there and what is in it is sent.  A URL means the same thing everywhere, so
/// it crosses unchanged and the machine that installs the bundle is the one
/// that fetches it.
#[derive(Debug, PartialEq, Eq)]
pub enum Source {
    /// A file of the machine that runs the command.
    Path(String),
    /// The standard input.
    Stdin,
    /// Something to fetch over HTTP.
    Url(String),
    /// The bundle itself, which is the shape it has once it crossed a
    /// connection.
    Bytes(Vec<u8>),
    /// The copy that was left in the system, which is the one a machine
    /// installs again after a reboot.
    Stored,
}

/// Where the bytes of a bundle come from, as plain values.
pub enum Locator {
    Path(Seq<char>),
    Stdin,
    Url(Seq<char>),
    Bytes(Seq<u8>),
    Stored,
}

impl View for Source {
    type V = Locator;

    open spec fn view(&self) -> Locator {
        match self {
            Source::Path(path) => Locator::Path(path@),
            Source::Stdin => Locator::Stdin,
            Source::Url(url) => Locator::Url(url@),
            Source::Bytes(bytes) => Locator::Bytes(bytes@),
            Source::Stored => Locator::Stored,
        }
    }
}

/// The path that a `file://` URL names, on the machine that reads it.  A file of
/// another host is not one that can be read from here, and an escape is not
/// decoded, because the same name is accepted as a path and there it means
/// itself.
pub open spec fn local_path(url: Seq<char>) -> Result<Seq<char>, Seq<char>> {
    let rest = text::rest(url, "file://"@.len());
    let path = match text::without_prefix(rest, "localhost"@) {
        Some(path) => path,
        None => rest,
    };
    if !text::begins(path, "/"@) {
        Err(
            url + " names a file of another host, which is not one that can be read from here"@,
        )
    } else if text::holds(path, "%"@) {
        Err(url + " holds an escape, which is not decoded here; name the file by its path"@)
    } else {
        Ok(path)
    }
}

/// What a locator that was typed addresses.
pub open spec fn located(locator: Seq<char>) -> Result<Locator, Seq<char>> {
    if locator == ""@ {
        Err("A bundle is a file, a URL, or - for the standard input"@)
    } else if locator == "-"@ {
        Ok(Locator::Stdin)
    } else if text::begins(locator, "http://"@) || text::begins(locator, "https://"@) {
        Ok(Locator::Url(locator))
    } else if text::begins(locator, "file://"@) {
        match local_path(locator) {
            Ok(path) => Ok(Locator::Path(path)),
            Err(e) => Err(e),
        }
    } else if text::holds(locator, "://"@) {
        Err(
            locator
                + " is fetched in a way that detc does not know; a bundle arrives over http, over https, or as a file"@,
        )
    } else {
        Ok(Locator::Path(locator))
    }
}

/// Where a bundle came from, as the installed system records it.
pub open spec fn origin_of(source: Locator) -> Seq<char> {
    match source {
        Locator::Url(url) => url,
        _ => bundle::LOCAL_ORIGIN@,
    }
}

/// The bytes of a bundle, by what was read or fetched where that is needed.
pub open spec fn bytes_of(source: Locator, read: Result<Seq<u8>, Seq<char>>) -> Result<
    Seq<u8>,
    Seq<char>,
> {
    match source {
        Locator::Path(path) => match read {
            Ok(bytes) => Ok(bytes),
            Err(e) => Err("Cannot read "@ + path + ": "@ + e),
        },
        Locator::Stdin | Locator::Url(_) => read,
        Locator::Bytes(bytes) => Ok(bytes),
        Locator::Stored => Err("The bundle that was kept is read from the system, not here"@),
    }
}

/// Bytes that were read.
pub open spec fn bytes_read(r: Result<Vec<u8>, String>) -> Result<Seq<u8>, Seq<char>> {
    match r {
        Ok(bytes) => Ok(bytes@),
        Err(e) => Err(e@),
    }
}

/// The message for a bundle that could not be fetched.
pub open spec fn fetch_message(url: Seq<char>, error: Seq<char>, refused: bool) -> Seq<char> {
    let plain = "Cannot fetch "@ + url + ": "@ + error;
    if refused {
        plain
            + ".  A mirror is checked against the certificate authorities that are compiled into detc, and never against the ones in etc/ssl/certs, so one that is vouched for by an authority of your own, or by whatever opens the connection on the way, cannot be fetched from here; fetch the bundle by other means and install it as a file"@
    } else {
        plain
    }
}

/// What went wrong with a fetch, said so that it can be acted on.  A
/// certificate that does not check out is the one worth spelling out.
pub fn explain(url: &str, error: &str, refused: bool) -> (r: String)
    ensures
        r@ == fetch_message(url@, error@, refused),
{
    let mut r = "Cannot fetch ".to_owned();
    r.append(url);
    r.append(": ");
    r.append(error);
    if refused {
        r.append(
            ".  A mirror is checked against the certificate authorities that are compiled into detc, and never against the ones in etc/ssl/certs, so one that is vouched for by an authority of your own, or by whatever opens the connection on the way, cannot be fetched from here; fetch the bundle by other means and install it as a file",
        );
    }
    r
}

/// The path that a `file://` URL names.
fn local(url: &str) -> (r: Result<String, String>)
    requires
        text::begins(url@, "file://"@),
    ensures
        said(r) == local_path(url@),
{
    let rest = match text::strip(url, "file://") {
        Some(rest) => rest,
        None => String::new(),
    };
    let path = match text::strip(rest.as_str(), "localhost") {
        Some(path) => path,
        None => rest,
    };
    if !text::starts(path.as_str(), "/") {
        let mut e = url.to_owned();
        e.append(" names a file of another host, which is not one that can be read from here");
        return Err(e);
    }
    if text::contains(path.as_str(), "%") {
        let mut e = url.to_owned();
        e.append(" holds an escape, which is not decoded here; name the file by its path");
        return Err(e);
    }
    Ok(path)
}

impl Source {
    /// What a locator that was typed addresses.
    pub fn from_str(locator: &str) -> (r: Result<Self, String>)
        ensures
            located(locator@) == (match r {
                Ok(source) => Ok(source@),
                Err(e) => Err(e@),
            }),
    {
        if text::equal(locator, "") {
            return Err("A bundle is a file, a URL, or - for the standard input".to_owned());
        }
        if text::equal(locator, "-") {
            return Ok(Source::Stdin);
        }
        if text::starts(locator, "http://") || text::starts(locator, "https://") {
            return Ok(Source::Url(locator.to_owned()));
        }
        if text::starts(locator, "file://") {
            return match local(locator) {
                Ok(path) => Ok(Source::Path(path)),
                Err(e) => Err(e),
            };
        }
        if text::contains(locator, "://") {
            let mut e = locator.to_owned();
            e.append(
                " is fetched in a way that detc does not know; a bundle arrives over http, over https, or as a file",
            );
            return Err(e);
        }
        Ok(Source::Path(locator.to_owned()))
    }

    /// Where the bundle came from, as the installed system records it.
    pub fn origin(&self) -> (r: String)
        ensures
            r@ == origin_of(self@),
    {
        match self {
            Source::Url(url) => url.clone(),
            _ => bundle::LOCAL_ORIGIN.to_owned(),
        }
    }

    /// The bundle itself, by what was read or fetched where that is needed.
    pub fn bytes(&self, read: Result<Vec<u8>, String>) -> (r: Result<Vec<u8>, String>)
        ensures
            bytes_read(r) == bytes_of(self@, bytes_read(read)),
    {
        match self {
            Source::Path(path) => match read {
                Ok(bytes) => Ok(bytes),
                Err(why) => {
                    let mut e = "Cannot read ".to_owned();
                    e.append(path.as_str());
                    e.append(": ");
                    e.append(why.as_str());
                    Err(e)
                },
            },
            Source::Stdin | Source::Url(_) => read,
            Source::Bytes(bytes) => Ok(bytes.clone()),
            Source::Stored => Err(
                "The bundle that was kept is read from the system, not here".to_owned(),
            ),
        }
    }
}

/// The subcommands of `bundle`.
#[derive(Debug, PartialEq, Eq)]
pub enum BundleCommands {
    /// Build a bundle out of a source tree.
    Create { dir: Option<String>, output: String, sign: Option<String> },
    /// Check a bundle and everything it carries, without installing it.
    Verify { bundle: Source },
    /// Install a bundle, taking away the one that was installed before it.
    Install { bundle: Source, persist: bool, apply: bool, allow_unsigned: bool },
    /// Install again the bundle that was kept, as a reboot needs.
    Restore { apply: bool },
    /// Show the bundle that is installed.
    Status,
    /// Take away the installed bundle, and the copy that was kept of it.
    Remove,
}

/// The subcommands of `bundle`, as plain values.
pub enum BundleVerb {
    Create { dir: Option<Seq<char>>, output: Seq<char>, sign: Option<Seq<char>> },
    Verify { bundle: Locator },
    Install { bundle: Locator, persist: bool, apply: bool, allow_unsigned: bool },
    Restore { apply: bool },
    Status,
    Remove,
}

impl View for BundleCommands {
    type V = BundleVerb;

    open spec fn view(&self) -> BundleVerb {
        match self {
            BundleCommands::Create { dir, output, sign } => BundleVerb::Create {
                dir: text::text_of(*dir),
                output: output@,
                sign: text::text_of(*sign),
            },
            BundleCommands::Verify { bundle } => BundleVerb::Verify { bundle: bundle@ },
            BundleCommands::Install { bundle, persist, apply, allow_unsigned } => BundleVerb::Install {
                bundle: bundle@,
                persist: *persist,
                apply: *apply,
                allow_unsigned: *allow_unsigned,
            },
            BundleCommands::Restore { apply } => BundleVerb::Restore { apply: *apply },
            BundleCommands::Status => BundleVerb::Status,
            BundleCommands::Remove => BundleVerb::Remove,
        }
    }
}

/// The subcommands of `detc`.
#[derive(Debug, PartialEq, Eq)]
pub enum Commands {
    /// Bring the system to the state that its objects declare.
    Apply { file: Option<String>, kind: Option<Type>, var: VarArgs },
    /// List the available templates and commands.
    List { types: bool, kind: Option<Type> },
    /// Describe an object, from the comments at the head of its file.
    Doc { object: String, kind: Option<Type> },
    /// Show what a template, a resource, a probe or a provider holds.
    Cat { object: String, kind: Option<Type>, raw: bool, var: VarArgs },
    /// Check that the objects of the system can be instantiated.
    Check { file: Option<String>, kind: Option<Type>, var: VarArgs },
    /// Ask a provider for the schema of what it accepts.
    Schema { provider: String },
    /// Query or set global variables.
    Var {
        file: Option<String>,
        var: VarArgs,
        persist: bool,
        unset: bool,
        probes: bool,
        probe: Option<String>,
    },
    /// Build, check and install a tree of objects.
    Bundle { command: BundleCommands },
    /// Show the report of a previous run.
    Report { id: Option<String>, list: bool, last: bool, only_fails: bool },
}

/// The subcommands of `detc`, as plain values.
pub enum Verb {
    Apply { file: Option<Seq<char>>, kind: Option<Type>, var: Given },
    List { types: bool, kind: Option<Type> },
    Doc { object: Seq<char>, kind: Option<Type> },
    Cat { object: Seq<char>, kind: Option<Type>, raw: bool, var: Given },
    Check { file: Option<Seq<char>>, kind: Option<Type>, var: Given },
    Schema { provider: Seq<char> },
    Var {
        file: Option<Seq<char>>,
        var: Given,
        persist: bool,
        unset: bool,
        probes: bool,
        probe: Option<Seq<char>>,
    },
    Bundle { command: BundleVerb },
    Report { id: Option<Seq<char>>, list: bool, last: bool, only_fails: bool },
}

impl View for Commands {
    type V = Verb;

    open spec fn view(&self) -> Verb {
        match self {
            Commands::Apply { file, kind, var } => Verb::Apply {
                file: text::text_of(*file),
                kind: *kind,
                var: var@,
            },
            Commands::List { types, kind } => Verb::List { types: *types, kind: *kind },
            Commands::Doc { object, kind } => Verb::Doc { object: object@, kind: *kind },
            Commands::Cat { object, kind, raw, var } => Verb::Cat {
                object: object@,
                kind: *kind,
                raw: *raw,
                var: var@,
            },
            Commands::Check { file, kind, var } => Verb::Check {
                file: text::text_of(*file),
                kind: *kind,
                var: var@,
            },
            Commands::Schema { provider } => Verb::Schema { provider: provider@ },
            Commands::Var { file, var, persist, unset, probes, probe } => Verb::Var {
                file: text::text_of(*file),
                var: var@,
                persist: *persist,
                unset: *unset,
                probes: *probes,
                probe: text::text_of(*probe),
            },
            Commands::Bundle { command } => Verb::Bundle { command: command@ },
            Commands::Report { id, list, last, only_fails } => Verb::Report {
                id: text::text_of(*id),
                list: *list,
                last: *last,
                only_fails: *only_fails,
            },
        }
    }
}

/// The tool is known by the name that it is called by.
pub proof fn law_the_tool_is_known_by_its_name(name: Seq<char>)
    ensures
        tool_named(Some("detctl"@)) == Tool::Detctl,
        tool_named(Some("detcd"@)) == Tool::Detcd,
        tool_named(Some("detc"@)) == Tool::Detc,
        tool_named(None) == Tool::Detc,
        name != "detctl"@ && name != "detcd"@ ==> tool_named(Some(name)) == Tool::Detc,
{
    reveal_strlit("detctl");
    reveal_strlit("detcd");
    reveal_strlit("detc");
    assert("detctl"@.len() == 6 && "detcd"@.len() == 5 && "detc"@.len() == 4);
}

/// Variables are written when there is a document, a mapping, or a key with a
/// value, and are read when there is a key alone or nothing; asking for probes
/// writes nothing.
pub proof fn law_variables_are_written_when_there_is_a_value(given: Given, file: bool)
    ensures
        !writes(given, file, true, false),
        !writes(given, file, false, true),
        !writes(given, file, true, true),
        writes(given, true, false, false),
        given.kv.len() > 0 ==> writes(given, file, false, false),
        given.key.len() > 0 && given.value.len() > 0 ==> writes(given, file, false, false),
        given.kv.len() == 0 && given.value.len() == 0 ==> !writes(given, false, false, false),
        given.kv.len() == 0 && given.key.len() == 0 ==> !writes(given, false, false, false),
{
}

/// Keys and values go together one by one, and there are as many of each.
pub proof fn law_keys_and_values_go_together(given: Given, i: int)
    ensures
        pairs_of(given) is Ok <==> given.key.len() == given.value.len(),
        pairs_of(given) matches Ok(pairs) ==> pairs.len() == given.key.len() && (0 <= i < pairs.len()
            ==> pairs[i] == (given.key[i], given.value[i])),
{
}

/// What is given on a command line comes over the namespace of the system: the
/// last key holds its value, and what none of them touches stays.
pub proof fn law_an_override_comes_over_the_system(
    j: Json,
    pairs: Seq<(Seq<char>, Seq<char>)>,
    key: Seq<char>,
    v: Seq<char>,
    other: Seq<char>,
)
    requires
        set_pairs(j, pairs.push((key, v))) is Ok,
    ensures
        set_pairs(j, pairs) is Ok,
        var::value_at(set_pairs(j, pairs.push((key, v)))->Ok_0, key) == Ok::<Json, Seq<char>>(
            var::typed(v),
        ),
        var::parts_ways(var::components(key), var::components(other)) ==> var::value_at(
            set_pairs(j, pairs.push((key, v)))->Ok_0,
            other,
        ) == var::value_at(set_pairs(j, pairs)->Ok_0, other),
        set_pairs(j, Seq::empty()) == Ok::<Json, Seq<char>>(j),
{
    assert(pairs.push((key, v)).drop_last() =~= pairs);
    let before = set_pairs(j, pairs)->Ok_0;
    var::law_set_is_read_back(before, key, var::typed(v));
    if var::parts_ways(var::components(key), var::components(other)) {
        var::law_set_keeps_the_rest(before, key, var::typed(v), other);
    }
}

/// A mapping that is given sets every key that it has, behind those that were
/// given before it.
pub proof fn law_a_mapping_sets_its_keys(j: Json, kv: Seq<Seq<char>>, one: Seq<char>)
    requires
        set_mappings(j, kv) is Ok,
    ensures
        set_mappings(j, Seq::empty()) == Ok::<Json, Seq<char>>(j),
        var::mapping_in(one) is Err ==> set_mappings(j, kv.push(one)) is Err,
        var::mapping_in(one) matches Ok(m) ==> ({
            let done = var::set_all(set_mappings(j, kv)->Ok_0, m, text::listing(m.dom()));
            &&& done.1 is Err ==> set_mappings(j, kv.push(one)) is Err
            &&& done.1 is Ok ==> set_mappings(j, kv.push(one)) == Ok::<Json, Seq<char>>(done.0)
        }),
{
    assert(kv.push(one).drop_last() =~= kv);
}

/// Without anything given, the namespace is that of the system; with anything
/// that cannot be read, there is none.
pub proof fn law_nothing_given_changes_nothing(j: Json, e: Seq<char>, given: Given)
    ensures
        overridden(Ok(j), none_given()) == Ok::<Json, Seq<char>>(j),
        overridden(Err(e), given) == Err::<Json, Seq<char>>(e),
        given.key.len() != given.value.len() ==> overridden(Ok(j), given) is Err,
        given.key.len() == given.value.len() && given.kv.len() == 0 ==> overridden(Ok(j), given)
            == set_pairs(j, pairs_of(given)->Ok_0),
{
    assert(pairs_of(none_given())->Ok_0 =~= Seq::empty());
}

/// A bundle is named by a dash for the standard input, by an address that it
/// is fetched from, or by a path.
pub proof fn law_a_bundle_is_a_path_a_url_or_a_dash(rest: Seq<char>, path: Seq<char>)
    ensures
        located("-"@) == Ok::<Locator, Seq<char>>(Locator::Stdin),
        located(""@) is Err,
        located("http://"@ + rest) == Ok::<Locator, Seq<char>>(Locator::Url("http://"@ + rest)),
        located("https://"@ + rest) == Ok::<Locator, Seq<char>>(Locator::Url("https://"@ + rest)),
        path.len() > 1 && !text::holds(path, "://"@) ==> located(path) == Ok::<Locator, Seq<char>>(
            Locator::Path(path),
        ),
        text::holds(path, "://"@) && path[0] != 'h' && path[0] != 'f' ==> located(path) is Err,
{
    reveal_strlit("-");
    reveal_strlit("");
    reveal_strlit("http://");
    reveal_strlit("https://");
    reveal_strlit("file://");
    reveal_strlit("://");
    let a = "http://"@ + rest;
    let b = "https://"@ + rest;
    assert(a.subrange(0, 7) =~= "http://"@);
    assert(b.subrange(0, 8) =~= "https://"@);
    assert(a[0] == 'h' && b[0] == 'h' && a.len() >= 7 && b.len() >= 8);
    assert("-"@.len() == 1 && ""@.len() == 0);
    if text::begins(path, "http://"@) {
        assert(path.subrange(0, 7)[0] == 'h');
        assert(path.subrange(4, 7) =~= "://"@) by {
            assert(path.subrange(0, 7)[4] == ':' && path.subrange(0, 7)[5] == '/' && path.subrange(
                0,
                7,
            )[6] == '/');
        }
        assert(text::stands_at(path, "://"@, 4));
    }
    if text::begins(path, "https://"@) {
        assert(path.subrange(0, 8)[0] == 'h');
        assert(path.subrange(5, 8) =~= "://"@) by {
            assert(path.subrange(0, 8)[5] == ':' && path.subrange(0, 8)[6] == '/' && path.subrange(
                0,
                8,
            )[7] == '/');
        }
        assert(text::stands_at(path, "://"@, 5));
    }
    if text::begins(path, "file://"@) {
        assert(path.subrange(0, 7)[0] == 'f');
        assert(path.subrange(4, 7) =~= "://"@) by {
            assert(path.subrange(0, 7)[4] == ':' && path.subrange(0, 7)[5] == '/' && path.subrange(
                0,
                7,
            )[6] == '/');
        }
        assert(text::stands_at(path, "://"@, 4));
    }
    if text::holds(path, "://"@) {
        let i = choose|i: int| text::stands_at(path, "://"@, i);
        assert(path.len() >= 3);
    }
}

/// The address of a file of this host is the path of the file, with the host
/// named or not; a path with an escape in it is refused.
pub proof fn law_the_address_of_a_file_is_its_path(path: Seq<char>)
    requires
        path.len() > 0,
        path[0] == '/',
    ensures
        !text::holds(path, "%"@) ==> located("file://"@ + path) == Ok::<Locator, Seq<char>>(
            Locator::Path(path),
        ),
        !text::holds(path, "%"@) ==> located("file://localhost"@ + path) == Ok::<
            Locator,
            Seq<char>,
        >(Locator::Path(path)),
        text::holds(path, "%"@) ==> located("file://"@ + path) is Err,
{
    reveal_strlit("-");
    reveal_strlit("");
    reveal_strlit("/");
    reveal_strlit("localhost");
    reveal_strlit("http://");
    reveal_strlit("https://");
    reveal_strlit("file://");
    reveal_strlit("file://localhost");
    let a = "file://"@ + path;
    let b = "file://localhost"@ + path;
    assert(a[0] == 'f' && b[0] == 'f');
    assert(a.subrange(0, 7) =~= "file://"@);
    assert(b.subrange(0, 7) =~= "file://"@);
    assert(!text::begins(a, "http://"@)) by {
        if text::begins(a, "http://"@) {
            assert(a.subrange(0, 7)[0] == 'h');
        }
    }
    assert(!text::begins(a, "https://"@)) by {
        if text::begins(a, "https://"@) {
            assert(a.subrange(0, 8)[0] == 'h');
        }
    }
    assert(!text::begins(b, "http://"@)) by {
        if text::begins(b, "http://"@) {
            assert(b.subrange(0, 7)[0] == 'h');
        }
    }
    assert(!text::begins(b, "https://"@)) by {
        if text::begins(b, "https://"@) {
            assert(b.subrange(0, 8)[0] == 'h');
        }
    }
    assert(text::rest(a, 7) =~= path);
    assert(text::rest(b, 7) =~= "localhost"@ + path);
    assert(!text::begins(path, "localhost"@)) by {
        if text::begins(path, "localhost"@) {
            assert(path.subrange(0, 9)[0] == 'l');
        }
    }
    assert(("localhost"@ + path).subrange(0, 9) =~= "localhost"@);
    assert(text::rest("localhost"@ + path, 9) =~= path);
    assert(path.subrange(0, 1) =~= "/"@);
}

/// A bundle comes from where it was fetched, and from here otherwise.
pub proof fn law_a_bundle_comes_from_its_url_or_from_here(source: Locator, url: Seq<char>)
    ensures
        origin_of(Locator::Url(url)) == url,
        !(source is Url) ==> origin_of(source) == "local"@,
{
}

/// The bytes of a bundle are those that were read, or those that came with
/// the call; a bundle that was kept is not read here.
pub proof fn law_bytes_are_what_was_read(source: Locator, read: Seq<u8>, bytes: Seq<u8>, e: Seq<char>)
    ensures
        source is Path || source is Stdin || source is Url ==> bytes_of(source, Ok(read)) == Ok::<
            Seq<u8>,
            Seq<char>,
        >(read) && bytes_of(source, Err(e)) is Err,
        bytes_of(Locator::Bytes(bytes), Ok(read)) == Ok::<Seq<u8>, Seq<char>>(bytes),
        bytes_of(Locator::Bytes(bytes), Err(e)) == Ok::<Seq<u8>, Seq<char>>(bytes),
        bytes_of(Locator::Stored, Ok(read)) is Err,
{
}

} // verus!
