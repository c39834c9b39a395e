//! The `org.detc.Manager` interface: its methods, the parameters they take,
//! and how a subcommand of `detc` becomes one of them and back.
//!
//! The interface is not one method per subcommand, because three of the
//! subcommands change the shape of their output with a flag and a varlink
//! method has one return type.  Splitting them is what a real interface buys:
//! every answer can be described, and the methods that change the system are a
//! set that can be named instead of a condition to evaluate.

use base64::Engine;
use vstd::prelude::*;

use crate::detc::{
    bytes_of, bytes_read, none_given, option_again, pairs_of, texts_again, writes, zipped,
    BundleCommands, BundleVerb, Commands, Given, Locator, Source, VarArgs, Verb,
};
use crate::record::Type;
use crate::text;
use crate::value;
use crate::value::{Datum, Json};
use crate::varlink;

verus! {

/// The interface that drives the system.
pub const INTERFACE: &'static str = "org.detc.Manager";

/// The service was started read-only, and the method changes the system.
pub const READ_ONLY: &'static str = "org.detc.Manager.ReadOnly";

/// The method answers with a stream, and the call did not ask for one.
pub const EXPECTED_MORE: &'static str = "org.detc.Manager.ExpectedMore";

/// The command failed, and the message is the one `detc` reports.
pub const FAILED: &'static str = "org.detc.Manager.Failed";

/// A method of the interface.
#[derive(Clone, Copy, Debug, PartialEq, Eq, Structural)]
pub enum Method {
    ListTypes,
    List,
    Cat,
    Check,
    Doc,
    Schema,
    GetVariables,
    ListProbes,
    RunProbe,
    ListRuns,
    GetRun,
    GetFailures,
    VerifyBundle,
    GetBundle,
    Apply,
    SetVariables,
    MergeDocument,
    InstallBundle,
    RemoveBundle,
}

/// The name of a method, without the interface.
pub open spec fn method_name(method: Method) -> Seq<char> {
    match method {
        Method::ListTypes => "ListTypes"@,
        Method::List => "List"@,
        Method::Cat => "Cat"@,
        Method::Check => "Check"@,
        Method::Doc => "Doc"@,
        Method::Schema => "Schema"@,
        Method::GetVariables => "GetVariables"@,
        Method::ListProbes => "ListProbes"@,
        Method::RunProbe => "RunProbe"@,
        Method::ListRuns => "ListRuns"@,
        Method::GetRun => "GetRun"@,
        Method::GetFailures => "GetFailures"@,
        Method::VerifyBundle => "VerifyBundle"@,
        Method::GetBundle => "GetBundle"@,
        Method::Apply => "Apply"@,
        Method::SetVariables => "SetVariables"@,
        Method::MergeDocument => "MergeDocument"@,
        Method::InstallBundle => "InstallBundle"@,
        Method::RemoveBundle => "RemoveBundle"@,
    }
}

/// The field that the replies of a method carry.  A stream ends with a reply
/// that sets it to null.
pub open spec fn method_field(method: Method) -> Seq<char> {
    match method {
        Method::ListTypes => "type"@,
        Method::List => "object"@,
        Method::Cat => "text"@,
        Method::Check => "check"@,
        Method::Doc => "text"@,
        Method::Schema => "text"@,
        Method::GetVariables => "text"@,
        Method::ListProbes => "probe"@,
        Method::RunProbe => "text"@,
        Method::ListRuns => "run"@,
        Method::GetRun => "detail"@,
        Method::GetFailures => "line"@,
        Method::VerifyBundle => "check"@,
        Method::GetBundle => "bundle"@,
        Method::Apply => "change"@,
        Method::SetVariables => "change"@,
        Method::MergeDocument => "change"@,
        Method::InstallBundle => "change"@,
        Method::RemoveBundle => "change"@,
    }
}

/// Whether a method answers with a stream.
pub open spec fn method_streams(method: Method) -> bool {
    match method {
        Method::Cat | Method::Doc | Method::Schema | Method::GetVariables | Method::RunProbe | Method::GetRun => false,
        _ => true,
    }
}

/// Whether a method changes the system.
pub open spec fn method_writes(method: Method) -> bool {
    match method {
        Method::Apply | Method::SetVariables | Method::MergeDocument | Method::InstallBundle | Method::RemoveBundle => true,
        _ => false,
    }
}

/// Everything the interface declares, in the order in which it is declared.
pub open spec fn methods() -> Seq<Method> {
    seq![
        Method::ListTypes,
        Method::List,
        Method::Cat,
        Method::Check,
        Method::Doc,
        Method::Schema,
        Method::GetVariables,
        Method::ListProbes,
        Method::RunProbe,
        Method::ListRuns,
        Method::GetRun,
        Method::GetFailures,
        Method::VerifyBundle,
        Method::GetBundle,
        Method::Apply,
        Method::SetVariables,
        Method::MergeDocument,
        Method::InstallBundle,
        Method::RemoveBundle,
    ]
}

/// The first method that has a name, from `n` on.
pub open spec fn named_from(name: Seq<char>, n: nat) -> Option<Method>
    decreases methods().len() - n,
{
    if n >= methods().len() {
        None
    } else if method_name(methods()[n as int]) == name {
        Some(methods()[n as int])
    } else {
        named_from(name, n + 1)
    }
}

/// The method that a fully qualified name addresses.
pub open spec fn method_found(method: Seq<char>) -> Option<Method> {
    match varlink::method_of(INTERFACE@, method) {
        None => None,
        Some(name) => named_from(name, 0),
    }
}

/// No two methods have one name.
pub proof fn lemma_named(method: Method)
    ensures
        named_from(method_name(method), 0) == Some(method),
{
    reveal_strlit("ListTypes");
    reveal_strlit("List");
    reveal_strlit("Cat");
    reveal_strlit("Check");
    reveal_strlit("Doc");
    reveal_strlit("Schema");
    reveal_strlit("GetVariables");
    reveal_strlit("ListProbes");
    reveal_strlit("RunProbe");
    reveal_strlit("ListRuns");
    reveal_strlit("GetRun");
    reveal_strlit("GetFailures");
    reveal_strlit("VerifyBundle");
    reveal_strlit("GetBundle");
    reveal_strlit("Apply");
    reveal_strlit("SetVariables");
    reveal_strlit("MergeDocument");
    reveal_strlit("InstallBundle");
    reveal_strlit("RemoveBundle");
    reveal_with_fuel(named_from, 20);
    let name = method_name(method);
    assert forall|i: int| 0 <= i < methods().len() && method_name(methods()[i]) == name implies methods()[i] == method by {
        let other = method_name(methods()[i]);
        if other.len() == name.len() {
            assert(other[0] == name[0]);
            assert(other[1] == name[1]);
            assert(other[2] == name[2]);
            assert(other[3] == name[3]);
        }
    }
}

impl Method {
    /// The name of the method, without the interface.
    pub fn name(self) -> (r: &'static str)
        ensures
            r@ == method_name(self),
    {
        match self {
            Method::ListTypes => "ListTypes",
            Method::List => "List",
            Method::Cat => "Cat",
            Method::Check => "Check",
            Method::Doc => "Doc",
            Method::Schema => "Schema",
            Method::GetVariables => "GetVariables",
            Method::ListProbes => "ListProbes",
            Method::RunProbe => "RunProbe",
            Method::ListRuns => "ListRuns",
            Method::GetRun => "GetRun",
            Method::GetFailures => "GetFailures",
            Method::VerifyBundle => "VerifyBundle",
            Method::GetBundle => "GetBundle",
            Method::Apply => "Apply",
            Method::SetVariables => "SetVariables",
            Method::MergeDocument => "MergeDocument",
            Method::InstallBundle => "InstallBundle",
            Method::RemoveBundle => "RemoveBundle",
        }
    }

    /// The field that the replies of the method carry.
    pub fn field(self) -> (r: &'static str)
        ensures
            r@ == method_field(self),
    {
        match self {
            Method::ListTypes => "type",
            Method::List => "object",
            Method::Cat => "text",
            Method::Check => "check",
            Method::Doc => "text",
            Method::Schema => "text",
            Method::GetVariables => "text",
            Method::ListProbes => "probe",
            Method::RunProbe => "text",
            Method::ListRuns => "run",
            Method::GetRun => "detail",
            Method::GetFailures => "line",
            Method::VerifyBundle => "check",
            Method::GetBundle => "bundle",
            Method::Apply => "change",
            Method::SetVariables => "change",
            Method::MergeDocument => "change",
            Method::InstallBundle => "change",
            Method::RemoveBundle => "change",
        }
    }

    /// Whether the method answers with a stream, and so wants `more`.
    pub fn stream(self) -> (r: bool)
        ensures
            r == method_streams(self),
    {
        match self {
            Method::Cat | Method::Doc | Method::Schema | Method::GetVariables | Method::RunProbe | Method::GetRun => false,
            _ => true,
        }
    }

    /// Whether the method changes the system, which is what a read-only service
    /// refuses.  A dry run of one of these changes nothing and is allowed.
    pub fn writes(self) -> (r: bool)
        ensures
            r == method_writes(self),
    {
        match self {
            Method::Apply | Method::SetVariables | Method::MergeDocument | Method::InstallBundle | Method::RemoveBundle => true,
            _ => false,
        }
    }

    /// Everything the interface declares.
    pub fn all() -> (r: Vec<Method>)
        ensures
            r@ == methods(),
    {
        let mut r: Vec<Method> = Vec::new();
        r.push(Method::ListTypes);
        r.push(Method::List);
        r.push(Method::Cat);
        r.push(Method::Check);
        r.push(Method::Doc);
        r.push(Method::Schema);
        r.push(Method::GetVariables);
        r.push(Method::ListProbes);
        r.push(Method::RunProbe);
        r.push(Method::ListRuns);
        r.push(Method::GetRun);
        r.push(Method::GetFailures);
        r.push(Method::VerifyBundle);
        r.push(Method::GetBundle);
        r.push(Method::Apply);
        r.push(Method::SetVariables);
        r.push(Method::MergeDocument);
        r.push(Method::InstallBundle);
        r.push(Method::RemoveBundle);
        assert(r@ =~= methods());
        r
    }
}

/// The method that a fully qualified name addresses.
pub fn find(method: &str) -> (r: Option<Method>)
    ensures
        r == method_found(method@),
{
    let name = match varlink::method_in(INTERFACE, method) {
        Some(name) => name,
        None => {
            return None;
        },
    };
    let all = Method::all();
    let n: usize = all.len();
    let mut i: usize = 0;
    while i < n
        invariant
            i <= n == all@.len(),
            all@ == methods(),
            varlink::method_of(INTERFACE@, method@) == Some(name@),
            named_from(name@, 0) == named_from(name@, i as nat),
        decreases n - i,
    {
        if text::equal(all[i].name(), name.as_str()) {
            return Some(all[i]);
        }
        i += 1;
    }
    None
}

/// A variable, and the value it takes.
pub struct Assignment {
    pub key: String,
    pub value: String,
}

/// The variables that override the namespace of one call.
///
/// The keys and the values are paired here, so that the one way of writing
/// them that can be wrong, as many values as keys, is wrong before anything is
/// sent.
pub struct Var {
    pub assignment: Vec<Assignment>,
    pub kv: Vec<String>,
}

/// The variables of one call, as plain values.
#[verifier::ext_equal]
pub struct Overrides {
    pub assignment: Seq<(Seq<char>, Seq<char>)>,
    pub kv: Seq<Seq<char>>,
}

/// Assignments, as plain values.
pub open spec fn assigned(s: Seq<Assignment>) -> Seq<(Seq<char>, Seq<char>)> {
    Seq::new(s.len(), |i: int| (s[i].key@, s[i].value@))
}

impl View for Var {
    type V = Overrides;

    open spec fn view(&self) -> Overrides {
        Overrides { assignment: assigned(self.assignment@), kv: text::texts(self.kv@) }
    }
}

/// The variables of a call, from those of a command line.
pub open spec fn overrides_of(given: Given) -> Result<Overrides, Seq<char>> {
    match pairs_of(given) {
        Err(e) => Err(e),
        Ok(pairs) => Ok(Overrides { assignment: pairs, kv: given.kv }),
    }
}

/// The variables of a command line, from those of a call.
pub open spec fn given_by(o: Overrides) -> Given {
    Given {
        key: Seq::new(o.assignment.len(), |i: int| o.assignment[i].0),
        value: Seq::new(o.assignment.len(), |i: int| o.assignment[i].1),
        kv: o.kv,
    }
}

impl Var {
    /// The variables of a call, from those of a command line.
    pub fn of(args: &VarArgs) -> (r: Result<Self, String>)
        ensures
            overrides_of(args@) == (match r {
                Ok(var) => Ok(var@),
                Err(e) => Err(e@),
            }),
    {
        let pairs = match args.pairs() {
            Ok(pairs) => pairs,
            Err(e) => {
                return Err(e);
            },
        };
        let mut assignment: Vec<Assignment> = Vec::new();
        let n: usize = pairs.len();
        let mut i: usize = 0;
        while i < n
            invariant
                i <= n == pairs@.len(),
                assignment@.len() == i,
                forall|j: int|
                    0 <= j < i ==> (#[trigger] assignment@[j]).key@ == pairs@[j].0@
                        && assignment@[j].value@ == pairs@[j].1@,
            decreases n - i,
        {
            assignment.push(Assignment { key: pairs[i].0.clone(), value: pairs[i].1.clone() });
            i += 1;
        }
        let r = Var { assignment, kv: texts_again(&args.kv) };
        assert(r@ =~= overrides_of(args@)->Ok_0);
        Ok(r)
    }

    /// The variables of a command line, from those of a call.
    pub fn into_args(self) -> (r: VarArgs)
        ensures
            r@ == given_by(self@),
    {
        let mut key: Vec<String> = Vec::new();
        let mut val: Vec<String> = Vec::new();
        let n: usize = self.assignment.len();
        let mut i: usize = 0;
        while i < n
            invariant
                i <= n == self.assignment@.len(),
                key@.len() == i,
                val@.len() == i,
                forall|j: int| 0 <= j < i ==> (#[trigger] key@[j])@ == self.assignment@[j].key@,
                forall|j: int| 0 <= j < i ==> (#[trigger] val@[j])@ == self.assignment@[j].value@,
            decreases n - i,
        {
            key.push(self.assignment[i].key.clone());
            val.push(self.assignment[i].value.clone());
            i += 1;
        }
        let r = VarArgs { key, value: val, kv: texts_again(&self.kv) };
        assert(r@ =~= given_by(self@));
        r
    }
}

/// The parameters of a call, one variant per method.
#[allow(inconsistent_fields)]
pub enum Params {
    ListTypes,
    List { kind: Option<Type> },
    Cat { name: String, kind: Option<Type>, raw: bool, var: Var },
    Check { name: Option<String>, kind: Option<Type>, var: Var },
    Doc { name: String, kind: Option<Type> },
    Schema { name: String },
    GetVariables { key: Vec<String> },
    ListProbes,
    RunProbe { probe: String },
    ListRuns { only_fails: bool },
    GetRun { id: Option<u64> },
    GetFailures { id: Option<u64> },
    VerifyBundle { bundle: Option<String>, url: Option<String> },
    GetBundle,
    Apply { name: Option<String>, kind: Option<Type>, dry_run: bool, var: Var },
    SetVariables { var: Var, persist: bool, dry_run: bool },
    MergeDocument { file: String, persist: bool, dry_run: bool },
    InstallBundle { bundle: Option<String>, url: Option<String>, persist: bool, apply: bool, allow_unsigned: bool, dry_run: bool },
    RemoveBundle { dry_run: bool },
}

/// The parameters of a call, as plain values.
#[allow(inconsistent_fields)]
pub enum Asking {
    ListTypes,
    List { kind: Option<Type> },
    Cat { name: Seq<char>, kind: Option<Type>, raw: bool, var: Overrides },
    Check { name: Option<Seq<char>>, kind: Option<Type>, var: Overrides },
    Doc { name: Seq<char>, kind: Option<Type> },
    Schema { name: Seq<char> },
    GetVariables { key: Seq<Seq<char>> },
    ListProbes,
    RunProbe { probe: Seq<char> },
    ListRuns { only_fails: bool },
    GetRun { id: Option<u64> },
    GetFailures { id: Option<u64> },
    VerifyBundle { bundle: Option<Seq<char>>, url: Option<Seq<char>> },
    GetBundle,
    Apply { name: Option<Seq<char>>, kind: Option<Type>, dry_run: bool, var: Overrides },
    SetVariables { var: Overrides, persist: bool, dry_run: bool },
    MergeDocument { file: Seq<char>, persist: bool, dry_run: bool },
    InstallBundle { bundle: Option<Seq<char>>, url: Option<Seq<char>>, persist: bool, apply: bool, allow_unsigned: bool, dry_run: bool },
    RemoveBundle { dry_run: bool },
}

impl View for Params {
    type V = Asking;

    open spec fn view(&self) -> Asking {
        match self {
            Params::ListTypes => Asking::ListTypes,
            Params::List { kind } => Asking::List { kind: *kind },
            Params::Cat { name, kind, raw, var } => Asking::Cat { name: name@, kind: *kind, raw: *raw, var: var@ },
            Params::Check { name, kind, var } => Asking::Check { name: text::text_of(*name), kind: *kind, var: var@ },
            Params::Doc { name, kind } => Asking::Doc { name: name@, kind: *kind },
            Params::Schema { name } => Asking::Schema { name: name@ },
            Params::GetVariables { key } => Asking::GetVariables { key: text::texts(key@) },
            Params::ListProbes => Asking::ListProbes,
            Params::RunProbe { probe } => Asking::RunProbe { probe: probe@ },
            Params::ListRuns { only_fails } => Asking::ListRuns { only_fails: *only_fails },
            Params::GetRun { id } => Asking::GetRun { id: *id },
            Params::GetFailures { id } => Asking::GetFailures { id: *id },
            Params::VerifyBundle { bundle, url } => Asking::VerifyBundle { bundle: text::text_of(*bundle), url: text::text_of(*url) },
            Params::GetBundle => Asking::GetBundle,
            Params::Apply { name, kind, dry_run, var } => Asking::Apply { name: text::text_of(*name), kind: *kind, dry_run: *dry_run, var: var@ },
            Params::SetVariables { var, persist, dry_run } => Asking::SetVariables { var: var@, persist: *persist, dry_run: *dry_run },
            Params::MergeDocument { file, persist, dry_run } => Asking::MergeDocument { file: file@, persist: *persist, dry_run: *dry_run },
            Params::InstallBundle { bundle, url, persist, apply, allow_unsigned, dry_run } => Asking::InstallBundle { bundle: text::text_of(*bundle), url: text::text_of(*url), persist: *persist, apply: *apply, allow_unsigned: *allow_unsigned, dry_run: *dry_run },
            Params::RemoveBundle { dry_run } => Asking::RemoveBundle { dry_run: *dry_run },
        }
    }
}

/// The method that parameters are of.
pub open spec fn method_of(asking: Asking) -> Method {
    match asking {
        Asking::ListTypes => Method::ListTypes,
        Asking::List { .. } => Method::List,
        Asking::Cat { .. } => Method::Cat,
        Asking::Check { .. } => Method::Check,
        Asking::Doc { .. } => Method::Doc,
        Asking::Schema { .. } => Method::Schema,
        Asking::GetVariables { .. } => Method::GetVariables,
        Asking::ListProbes => Method::ListProbes,
        Asking::RunProbe { .. } => Method::RunProbe,
        Asking::ListRuns { .. } => Method::ListRuns,
        Asking::GetRun { .. } => Method::GetRun,
        Asking::GetFailures { .. } => Method::GetFailures,
        Asking::VerifyBundle { .. } => Method::VerifyBundle,
        Asking::GetBundle => Method::GetBundle,
        Asking::Apply { .. } => Method::Apply,
        Asking::SetVariables { .. } => Method::SetVariables,
        Asking::MergeDocument { .. } => Method::MergeDocument,
        Asking::InstallBundle { .. } => Method::InstallBundle,
        Asking::RemoveBundle { .. } => Method::RemoveBundle,
    }
}

impl Params {
    /// The method that the parameters are of.
    pub fn method(&self) -> (r: Method)
        ensures
            r == method_of(self@),
    {
        match self {
            Params::ListTypes => Method::ListTypes,
            Params::List { .. } => Method::List,
            Params::Cat { .. } => Method::Cat,
            Params::Check { .. } => Method::Check,
            Params::Doc { .. } => Method::Doc,
            Params::Schema { .. } => Method::Schema,
            Params::GetVariables { .. } => Method::GetVariables,
            Params::ListProbes => Method::ListProbes,
            Params::RunProbe { .. } => Method::RunProbe,
            Params::ListRuns { .. } => Method::ListRuns,
            Params::GetRun { .. } => Method::GetRun,
            Params::GetFailures { .. } => Method::GetFailures,
            Params::VerifyBundle { .. } => Method::VerifyBundle,
            Params::GetBundle => Method::GetBundle,
            Params::Apply { .. } => Method::Apply,
            Params::SetVariables { .. } => Method::SetVariables,
            Params::MergeDocument { .. } => Method::MergeDocument,
            Params::InstallBundle { .. } => Method::InstallBundle,
            Params::RemoveBundle { .. } => Method::RemoveBundle,
        }
    }
}

/// Bytes as base64 writes them.
pub uninterp spec fn base64_text(bytes: Seq<u8>) -> Seq<char>;

/// The bytes that base64 reads in a text, or its complaint.
pub uninterp spec fn base64_bytes(t: Seq<char>) -> Result<Seq<u8>, Seq<char>>;

/// `base64` writes bytes with the standard alphabet and padding, and reads them
/// back from what it wrote.
#[verifier::external_body]
fn encode(bytes: &Vec<u8>) -> (r: String)
    ensures
        r@ == base64_text(bytes@),
        (base64_bytes(r@) == Ok::<Seq<u8>, Seq<char>>(bytes@)),
{
    base64::engine::general_purpose::STANDARD.encode(bytes)
}

/// `base64` reads bytes written with the standard alphabet and padding.
#[verifier::external_body]
fn decode(t: &str) -> (r: Result<Vec<u8>, String>)
    ensures
        base64_bytes(t@) == (match r {
            Ok(bytes) => Ok(bytes@),
            Err(e) => Err(e@),
        }),
{
    base64::engine::general_purpose::STANDARD.decode(t).map_err(|e| e.to_string())
}

/// How a bundle crosses: as the file itself, or as a URL that the machine which
/// answers fetches, or not at all when it is the one that machine kept.
pub open spec fn crossing(source: Locator, read: Result<Seq<u8>, Seq<char>>) -> Result<
    (Option<Seq<char>>, Option<Seq<char>>),
    Seq<char>,
> {
    match source {
        Locator::Url(url) => Ok((None, Some(url))),
        Locator::Stored => Ok((None, None)),
        source => match bytes_of(source, read) {
            Err(e) => Err(e),
            Ok(bytes) => Ok((Some(base64_text(bytes)), None)),
        },
    }
}

/// The bundle that a call carries, by the bytes that were read in the text it
/// crossed as.
pub open spec fn carried(
    bundle: Option<Result<Seq<u8>, Seq<char>>>,
    url: Option<Seq<char>>,
) -> Result<Locator, Seq<char>> {
    match (bundle, url) {
        (Some(_), Some(_)) => Err("A bundle is a file or a URL, and this call carries both"@),
        (Some(Ok(bytes)), None) => Ok(Locator::Bytes(bytes)),
        (Some(Err(e)), None) => Err("The bundle that the call carries is not base64: "@ + e),
        (None, Some(url)) => Ok(Locator::Url(url)),
        (None, None) => Ok(Locator::Stored),
    }
}

/// The bundle that a call carries.
pub open spec fn arrived(bundle: Option<Seq<char>>, url: Option<Seq<char>>) -> Result<
    Locator,
    Seq<char>,
> {
    carried(
        match bundle {
            Some(t) => Some(base64_bytes(t)),
            None => None,
        },
        url,
    )
}

/// The two ways a bundle crosses.
///
/// A path is read here, on the machine where it was typed, because that is the
/// only machine where it means anything.  A URL is forwarded, because it means
/// the same thing everywhere.  What crosses is read back as what was sent.
pub fn locator(source: &Source, read: Result<Vec<u8>, String>) -> (r: Result<
    (Option<String>, Option<String>),
    String,
>)
    ensures
        crossing(source@, bytes_read(read)) == (match r {
            Ok((bundle, url)) => Ok((text::text_of(bundle), text::text_of(url))),
            Err(e) => Err(e@),
        }),
        r matches Ok((Some(t), _)) ==> base64_bytes(t@) == bytes_of(source@, bytes_read(read)),
{
    match source {
        Source::Url(url) => Ok((None, Some(url.clone()))),
        Source::Stored => Ok((None, None)),
        _ => match source.bytes(read) {
            Err(e) => Err(e),
            Ok(bytes) => Ok((Some(encode(&bytes)), None)),
        },
    }
}

/// The bundle that a call carries, by the bytes that were read in the text it
/// crossed as.
pub fn carry(bundle: Option<Result<Vec<u8>, String>>, url: Option<String>) -> (r: Result<
    Source,
    String,
>)
    ensures
        carried(
            match bundle {
                Some(read) => Some(bytes_read(read)),
                None => None,
            },
            text::text_of(url),
        ) == (match r {
            Ok(source) => Ok(source@),
            Err(e) => Err(e@),
        }),
{
    match bundle {
        Some(read) => match url {
            Some(_) => Err("A bundle is a file or a URL, and this call carries both".to_owned()),
            None => match read {
                Ok(bytes) => Ok(Source::Bytes(bytes)),
                Err(why) => {
                    let mut e = "The bundle that the call carries is not base64: ".to_owned();
                    e.append(why.as_str());
                    Err(e)
                },
            },
        },
        None => match url {
            Some(url) => Ok(Source::Url(url)),
            None => Ok(Source::Stored),
        },
    }
}

/// The bundle that a call carries.
pub fn source(bundle: Option<String>, url: Option<String>) -> (r: Result<Source, String>)
    ensures
        arrived(text::text_of(bundle), text::text_of(url)) == (match r {
            Ok(source) => Ok(source@),
            Err(e) => Err(e@),
        }),
{
    match bundle {
        Some(t) => carry(Some(decode(t.as_str())), url),
        None => carry(None, url),
    }
}

/// The call that one of the bundle subcommands becomes.
pub open spec fn bundle_asking(
    verb: BundleVerb,
    dry_run: bool,
    read: Result<Seq<u8>, Seq<char>>,
) -> Result<Asking, Seq<char>> {
    match verb {
        BundleVerb::Create { .. } => Err(
            "bundle create builds a bundle from a local tree; run it with detc, not detctl"@,
        ),
        BundleVerb::Verify { bundle } => match crossing(bundle, read) {
            Err(e) => Err(e),
            Ok((bundle, url)) => Ok(Asking::VerifyBundle { bundle, url }),
        },
        BundleVerb::Status => Ok(Asking::GetBundle),
        BundleVerb::Install { bundle, persist, apply, allow_unsigned } => match crossing(
            bundle,
            read,
        ) {
            Err(e) => Err(e),
            Ok((bundle, url)) => Ok(
                Asking::InstallBundle { bundle, url, persist, apply, allow_unsigned, dry_run },
            ),
        },
        BundleVerb::Restore { apply } => Ok(
            Asking::InstallBundle {
                bundle: None,
                url: None,
                persist: true,
                apply,
                allow_unsigned: false,
                dry_run,
            },
        ),
        BundleVerb::Remove => Ok(Asking::RemoveBundle { dry_run }),
    }
}

/// The run that a report is asked about: both the last one and no run at all
/// mean the most recent.
pub open spec fn run_asked(id: Option<Seq<char>>, last: bool) -> Result<Option<u64>, Seq<char>> {
    match id {
        Some(t) if !last => match text::natural(t) {
            Some(n) => if n <= u64::MAX {
                Ok(Some(n as u64))
            } else {
                Err(t + " is not the number of a run"@)
            },
            None => Err(t + " is not the number of a run"@),
        },
        _ => Ok(None),
    }
}

/// The call that a subcommand becomes.
pub open spec fn asking_of(verb: Verb, dry_run: bool, read: Result<Seq<u8>, Seq<char>>) -> Result<
    Asking,
    Seq<char>,
> {
    match verb {
        Verb::List { types, kind } => if types {
            Ok(Asking::ListTypes)
        } else {
            Ok(Asking::List { kind })
        },
        Verb::Cat { object, kind, raw, var } => match overrides_of(var) {
            Err(e) => Err(e),
            Ok(var) => Ok(Asking::Cat { name: object, kind, raw, var }),
        },
        Verb::Check { file, kind, var } => match overrides_of(var) {
            Err(e) => Err(e),
            Ok(var) => Ok(Asking::Check { name: file, kind, var }),
        },
        Verb::Doc { object, kind } => Ok(Asking::Doc { name: object, kind }),
        Verb::Schema { provider } => Ok(Asking::Schema { name: provider }),
        Verb::Apply { file, kind, var } => match overrides_of(var) {
            Err(e) => Err(e),
            Ok(var) => Ok(Asking::Apply { name: file, kind, dry_run, var }),
        },
        Verb::Var { file, var, persist, unset, probes, probe } => if unset {
            Err(
                "var --unset takes away what was set on the machine itself; run it with detc, not detctl"@,
            )
        } else if probes {
            Ok(Asking::ListProbes)
        } else if probe is Some {
            Ok(Asking::RunProbe { probe: probe->Some_0 })
        } else if file is Some {
            Ok(Asking::MergeDocument { file: file->Some_0, persist, dry_run })
        } else if writes(var, false, false, false) {
            match overrides_of(var) {
                Err(e) => Err(e),
                Ok(var) => Ok(Asking::SetVariables { var, persist, dry_run }),
            }
        } else {
            Ok(Asking::GetVariables { key: var.key })
        },
        Verb::Bundle { command } => bundle_asking(command, dry_run, read),
        Verb::Report { id, list, last, only_fails } => if list {
            Ok(Asking::ListRuns { only_fails })
        } else {
            match run_asked(id, last) {
                Err(e) => Err(e),
                Ok(id) => if only_fails {
                    Ok(Asking::GetFailures { id })
                } else {
                    Ok(Asking::GetRun { id })
                },
            }
        },
    }
}

/// Parameters that were worked out.
pub open spec fn asked(r: Result<(Method, Params), String>) -> Result<Asking, Seq<char>> {
    match r {
        Ok((_, params)) => Ok(params@),
        Err(e) => Err(e@),
    }
}

/// The bytes of a bundle that a subcommand holds.
pub open spec fn bytes_held(verb: BundleVerb) -> Option<Seq<u8>> {
    match verb {
        BundleVerb::Verify { bundle: Locator::Bytes(bytes) } => Some(bytes),
        BundleVerb::Install { bundle: Locator::Bytes(bytes), .. } => Some(bytes),
        _ => None,
    }
}

/// Whether the bytes of a bundle that a subcommand holds are read back from
/// what they are written as.
spec fn read_back(verb: BundleVerb) -> bool {
    match bytes_held(verb) {
        Some(bytes) => base64_bytes(base64_text(bytes)) == Ok::<Seq<u8>, Seq<char>>(bytes),
        None => true,
    }
}

/// The call that one of the bundle subcommands becomes.
fn bundle_call(command: &BundleCommands, dry_run: bool, read: Result<Vec<u8>, String>) -> (r: Result<
    Params,
    String,
>)
    ensures
        bundle_asking(command@, dry_run, bytes_read(read)) == (match r {
            Ok(params) => Ok(params@),
            Err(e) => Err(e@),
        }),
        r is Ok ==> read_back(command@),
{
    match command {
        BundleCommands::Create { .. } => Err(
            "bundle create builds a bundle from a local tree; run it with detc, not detctl".to_owned(),
        ),
        BundleCommands::Verify { bundle } => match locator(bundle, read) {
            Err(e) => Err(e),
            Ok((bundle, url)) => Ok(Params::VerifyBundle { bundle, url }),
        },
        BundleCommands::Status => Ok(Params::GetBundle),
        BundleCommands::Install { bundle, persist, apply, allow_unsigned } => match locator(
            bundle,
            read,
        ) {
            Err(e) => Err(e),
            Ok((bundle, url)) => Ok(
                Params::InstallBundle {
                    bundle,
                    url,
                    persist: *persist,
                    apply: *apply,
                    allow_unsigned: *allow_unsigned,
                    dry_run,
                },
            ),
        },
        BundleCommands::Restore { apply } => Ok(
            Params::InstallBundle {
                bundle: None,
                url: None,
                persist: true,
                apply: *apply,
                allow_unsigned: false,
                dry_run,
            },
        ),
        BundleCommands::Remove => Ok(Params::RemoveBundle { dry_run }),
    }
}

/// The run that a report is asked about.
fn run_of(id: &Option<String>, last: bool) -> (r: Result<Option<u64>, String>)
    ensures
        run_asked(text::text_of(*id), last) == (match r {
            Ok(id) => Ok(id),
            Err(e) => Err(e@),
        }),
{
    if last {
        return Ok(None);
    }
    match id {
        None => Ok(None),
        Some(t) => match text::read_natural(t.as_str()) {
            Some(n) => Ok(Some(n)),
            None => {
                let mut e = t.clone();
                e.append(" is not the number of a run");
                Err(e)
            },
        },
    }
}

/// The parameters of the call that a subcommand becomes.
fn params_of(command: &Commands, dry_run: bool, read: Result<Vec<u8>, String>) -> (r: Result<
    Params,
    String,
>)
    ensures
        asking_of(command@, dry_run, bytes_read(read)) == (match r {
            Ok(params) => Ok(params@),
            Err(e) => Err(e@),
        }),
        r is Ok ==> (command@ matches Verb::Bundle { command } ==> read_back(command)),
{
    match command {
        Commands::List { types, kind } => {
            if *types {
                Ok(Params::ListTypes)
            } else {
                Ok(Params::List { kind: *kind })
            }
        },
        Commands::Cat { object, kind, raw, var } => match Var::of(var) {
            Err(e) => Err(e),
            Ok(var) => Ok(Params::Cat { name: object.clone(), kind: *kind, raw: *raw, var }),
        },
        Commands::Check { file, kind, var } => match Var::of(var) {
            Err(e) => Err(e),
            Ok(var) => Ok(Params::Check { name: option_again(file), kind: *kind, var }),
        },
        Commands::Doc { object, kind } => Ok(Params::Doc { name: object.clone(), kind: *kind }),
        Commands::Schema { provider } => Ok(Params::Schema { name: provider.clone() }),
        Commands::Apply { file, kind, var } => match Var::of(var) {
            Err(e) => Err(e),
            Ok(var) => Ok(Params::Apply { name: option_again(file), kind: *kind, dry_run, var }),
        },
        Commands::Var { file, var, persist, unset, probes, probe } => {
            // No method takes a variable away, and a query is not what was asked for
            if *unset {
                return Err(
                    "var --unset takes away what was set on the machine itself; run it with detc, not detctl".to_owned(),
                );
            }
            if *probes {
                return Ok(Params::ListProbes);
            }
            if let Some(probe) = probe {
                return Ok(Params::RunProbe { probe: probe.clone() });
            }
            if let Some(file) = file {
                return Ok(
                    Params::MergeDocument { file: file.clone(), persist: *persist, dry_run },
                );
            }
            if var.writes(None, false, None) {
                match Var::of(var) {
                    Err(e) => Err(e),
                    Ok(var) => Ok(Params::SetVariables { var, persist: *persist, dry_run }),
                }
            } else {
                Ok(Params::GetVariables { key: texts_again(&var.key) })
            }
        },
        Commands::Bundle { command } => bundle_call(command, dry_run, read),
        Commands::Report { id, list, last, only_fails } => {
            if *list {
                return Ok(Params::ListRuns { only_fails: *only_fails });
            }
            match run_of(id, *last) {
                Err(e) => Err(e),
                Ok(id) => {
                    if *only_fails {
                        Ok(Params::GetFailures { id })
                    } else {
                        Ok(Params::GetRun { id })
                    }
                },
            }
        },
    }
}

/// The call that a subcommand becomes, by what was read of the bundle that it
/// names where that is on this side.
///
/// The subcommands that split do it here, on the side that knows what was
/// typed, so that the service is left with one method per shape of answer.  A
/// call comes back as the subcommand it was, with the dry run that it was, where
/// the subcommand says no more than the method carries.
pub fn call(command: &Commands, dry_run: bool, read: Result<Vec<u8>, String>) -> (r: Result<
    (Method, Params),
    String,
>)
    ensures
        asked(r) == asking_of(command@, dry_run, bytes_read(read)),
        r matches Ok((method, params)) ==> method == method_of(params@),
        r is Ok && crosses_whole(command@) ==> verb_of(r->Ok_0.1@) == Ok::<(Verb, bool), Seq<char>>(
            (command@, says_dry_run(command@) && dry_run),
        ),
{
    match params_of(command, dry_run, read) {
        Ok(params) => {
            proof {
                if crosses_whole(command@) {
                    lemma_call_comes_back(command@, dry_run, bytes_read(read));
                }
            }
            Ok((params.method(), params))
        },
        Err(e) => Err(e),
    }
}

/// Querying or setting variables, as a call does it.
pub open spec fn var_verb(
    file: Option<Seq<char>>,
    var: Given,
    persist: bool,
    probes: bool,
    probe: Option<Seq<char>>,
) -> Verb {
    Verb::Var { file, var, persist, unset: false, probes, probe }
}

/// The bundle subcommand that a call to install is, by the bundle it carries.
/// A call that carries none is a restore: the only bundle the machine can
/// install without being given one is the copy it kept.
pub open spec fn install_verb(source: Locator, persist: bool, apply: bool, allow_unsigned: bool) -> BundleVerb {
    match source {
        Locator::Stored => BundleVerb::Restore { apply },
        bundle => BundleVerb::Install { bundle, persist, apply, allow_unsigned },
    }
}

/// The subcommand that a call is, and whether it is a dry run.
pub open spec fn verb_of(asking: Asking) -> Result<(Verb, bool), Seq<char>> {
    match asking {
        Asking::ListTypes => Ok((Verb::List { types: true, kind: None }, false)),
        Asking::List { kind } => Ok((Verb::List { types: false, kind }, false)),
        Asking::Cat { name, kind, raw, var } => Ok(
            (Verb::Cat { object: name, kind, raw, var: given_by(var) }, false),
        ),
        Asking::Check { name, kind, var } => Ok(
            (Verb::Check { file: name, kind, var: given_by(var) }, false),
        ),
        Asking::Doc { name, kind } => Ok((Verb::Doc { object: name, kind }, false)),
        Asking::Schema { name } => Ok((Verb::Schema { provider: name }, false)),
        Asking::Apply { name, kind, dry_run, var } => Ok(
            (Verb::Apply { file: name, kind, var: given_by(var) }, dry_run),
        ),
        Asking::ListProbes => Ok((var_verb(None, none_given(), false, true, None), false)),
        Asking::RunProbe { probe } => Ok(
            (var_verb(None, none_given(), false, false, Some(probe)), false),
        ),
        Asking::GetVariables { key } => Ok(
            (
                var_verb(
                    None,
                    Given { key, value: Seq::empty(), kv: Seq::empty() },
                    false,
                    false,
                    None,
                ),
                false,
            ),
        ),
        Asking::SetVariables { var, persist, dry_run } => Ok(
            (var_verb(None, given_by(var), persist, false, None), dry_run),
        ),
        Asking::MergeDocument { file, persist, dry_run } => Ok(
            (var_verb(Some(file), none_given(), persist, false, None), dry_run),
        ),
        Asking::VerifyBundle { bundle, url } => match arrived(bundle, url) {
            Err(e) => Err(e),
            Ok(bundle) => Ok((Verb::Bundle { command: BundleVerb::Verify { bundle } }, false)),
        },
        Asking::GetBundle => Ok((Verb::Bundle { command: BundleVerb::Status }, false)),
        Asking::InstallBundle { bundle, url, persist, apply, allow_unsigned, dry_run } => match arrived(
            bundle,
            url,
        ) {
            Err(e) => Err(e),
            Ok(source) => Ok(
                (
                    Verb::Bundle { command: install_verb(source, persist, apply, allow_unsigned) },
                    dry_run,
                ),
            ),
        },
        Asking::RemoveBundle { dry_run } => Ok(
            (Verb::Bundle { command: BundleVerb::Remove }, dry_run),
        ),
        Asking::ListRuns { only_fails } => Ok(
            (Verb::Report { id: None, list: true, last: false, only_fails }, false),
        ),
        Asking::GetRun { id } => Ok((report_verb(id, false), false)),
        Asking::GetFailures { id } => Ok((report_verb(id, true), false)),
    }
}

/// The report of one run.
pub open spec fn report_verb(id: Option<u64>, only_fails: bool) -> Verb {
    Verb::Report {
        id: match id {
            Some(n) => Some(text::decimal(n as nat)),
            None => None,
        },
        list: false,
        last: false,
        only_fails,
    }
}

/// A subcommand that was worked out.
pub open spec fn commanded(r: Result<(Commands, bool), String>) -> Result<(Verb, bool), Seq<char>> {
    match r {
        Ok((command, dry_run)) => Ok((command@, dry_run)),
        Err(e) => Err(e@),
    }
}

/// The report of one run.
fn report(id: Option<u64>, only_fails: bool) -> (r: Commands)
    ensures
        r@ == report_verb(id, only_fails),
{
    let id = match id {
        Some(n) => Some(text::decimal_of(n)),
        None => None,
    };
    Commands::Report { id, list: false, last: false, only_fails }
}

/// The subcommand that a call is, and whether it is a dry run.
pub fn command(params: Params) -> (r: Result<(Commands, bool), String>)
    ensures
        commanded(r) == verb_of(params@),
{
    match params {
        Params::ListTypes => Ok((Commands::List { types: true, kind: None }, false)),
        Params::List { kind } => Ok((Commands::List { types: false, kind }, false)),
        Params::Cat { name, kind, raw, var } => Ok(
            (Commands::Cat { object: name, kind, raw, var: var.into_args() }, false),
        ),
        Params::Check { name, kind, var } => Ok(
            (Commands::Check { file: name, kind, var: var.into_args() }, false),
        ),
        Params::Doc { name, kind } => Ok((Commands::Doc { object: name, kind }, false)),
        Params::Schema { name } => Ok((Commands::Schema { provider: name }, false)),
        Params::Apply { name, kind, dry_run, var } => Ok(
            (Commands::Apply { file: name, kind, var: var.into_args() }, dry_run),
        ),
        Params::ListProbes => Ok(
            (
                Commands::Var {
                    file: None,
                    var: VarArgs::none(),
                    persist: false,
                    unset: false,
                    probes: true,
                    probe: None,
                },
                false,
            ),
        ),
        Params::RunProbe { probe } => Ok(
            (
                Commands::Var {
                    file: None,
                    var: VarArgs::none(),
                    persist: false,
                    unset: false,
                    probes: false,
                    probe: Some(probe),
                },
                false,
            ),
        ),
        Params::GetVariables { key } => {
            let var = VarArgs { key, value: Vec::new(), kv: Vec::new() };
            assert(var@ =~= Given {
                key: text::texts(key@),
                value: Seq::empty(),
                kv: Seq::empty(),
            });
            Ok(
                (
                    Commands::Var {
                        file: None,
                        var,
                        persist: false,
                        unset: false,
                        probes: false,
                        probe: None,
                    },
                    false,
                ),
            )
        },
        Params::SetVariables { var, persist, dry_run } => Ok(
            (
                Commands::Var {
                    file: None,
                    var: var.into_args(),
                    persist,
                    unset: false,
                    probes: false,
                    probe: None,
                },
                dry_run,
            ),
        ),
        Params::MergeDocument { file, persist, dry_run } => Ok(
            (
                Commands::Var {
                    file: Some(file),
                    var: VarArgs::none(),
                    persist,
                    unset: false,
                    probes: false,
                    probe: None,
                },
                dry_run,
            ),
        ),
        Params::VerifyBundle { bundle, url } => match source(bundle, url) {
            Err(e) => Err(e),
            Ok(bundle) => Ok(
                (Commands::Bundle { command: BundleCommands::Verify { bundle } }, false),
            ),
        },
        Params::GetBundle => Ok((Commands::Bundle { command: BundleCommands::Status }, false)),
        Params::InstallBundle { bundle, url, persist, apply, allow_unsigned, dry_run } => {
            let command = match source(bundle, url) {
                Err(e) => {
                    return Err(e);
                },
                Ok(source) => match source {
                    Source::Stored => BundleCommands::Restore { apply },
                    bundle => BundleCommands::Install { bundle, persist, apply, allow_unsigned },
                },
            };
            Ok((Commands::Bundle { command }, dry_run))
        },
        Params::RemoveBundle { dry_run } => Ok(
            (Commands::Bundle { command: BundleCommands::Remove }, dry_run),
        ),
        Params::ListRuns { only_fails } => Ok(
            (Commands::Report { id: None, list: true, last: false, only_fails }, false),
        ),
        Params::GetRun { id } => Ok((report(id, false), false)),
        Params::GetFailures { id } => Ok((report(id, true), false)),
    }
}

/// The reply that ends a stream: the field of the method, and nothing in it.
pub fn end(method: Method) -> (r: Datum)
    ensures
        r@ == varlink::one(method_field(method), Json::Null),
{
    let mut entries: Vec<(String, Datum)> = Vec::new();
    value::put(&mut entries, method.field().to_owned(), Datum::Null);
    Datum::Object(entries)
}

/// Whether the parameters of a reply are the end of a stream: an object with
/// nothing in any of its fields.
pub open spec fn is_end(j: Json) -> bool {
    match j {
        Json::Object(m) => forall|k: Seq<char>| #[trigger] m.dom().contains(k) ==> m[k] == Json::Null,
        _ => false,
    }
}

/// Whether the parameters of a reply are the end of a stream, and carry no
/// record.
pub fn ends(parameters: &Datum) -> (r: bool)
    ensures
        r == is_end(parameters@),
{
    let entries = match parameters {
        Datum::Object(entries) => entries,
        _ => {
            return false;
        },
    };
    let names = value::names(entries);
    let ghost m = value::members(entries@);
    let ghost all = text::texts(names@);
    let n: usize = names.len();
    let mut i: usize = 0;
    while i < n
        invariant
            i <= n == names@.len(),
            m == value::members(entries@),
            parameters@ == Json::Object(m),
            all == text::texts(names@),
            all.to_set() == m.dom(),
            forall|j: int| 0 <= j < i ==> m[#[trigger] all[j]] == Json::Null,
        decreases n - i,
    {
        assert(all.to_set().contains(all[i as int]));
        match value::get(entries, names[i].as_str()) {
            Some(Datum::Null) => {},
            _ => {
                assert(m.dom().contains(all[i as int]) && m[all[i as int]] != Json::Null);
                return false;
            },
        }
        i += 1;
    }
    assert forall|k: Seq<char>| #[trigger] m.dom().contains(k) implies m[k] == Json::Null by {
        assert(all.to_set().contains(k));
        let j = choose|j: int| 0 <= j < all.len() && all[j] == k;
        assert(m[all[j]] == Json::Null);
    }
    true
}

/// The end of a stream carries no record.
pub proof fn law_end_of_a_stream_is_no_record(method: Method)
    ensures
        is_end(varlink::one(method_field(method), Json::Null)),
{
}

/// Whether nothing of a subcommand is lost when it crosses: it says no more
/// than the method that it becomes carries.
pub open spec fn crosses_whole(verb: Verb) -> bool {
    match verb {
        Verb::List { types, kind } => types ==> kind is None,
        Verb::Var { file, var, persist, unset, probes, probe } => {
            &&& !unset
            &&& if probes {
                file is None && var == none_given() && !persist && probe is None
            } else if probe is Some {
                file is None && var == none_given() && !persist
            } else if file is Some {
                var == none_given()
            } else if writes(var, false, false, false) {
                true
            } else {
                var.value.len() == 0 && !persist
            }
        },
        Verb::Bundle { command } => match command {
            BundleVerb::Verify { bundle } => !(bundle is Path || bundle is Stdin),
            BundleVerb::Install { bundle, .. } => bundle is Url || bundle is Bytes,
            BundleVerb::Create { .. } => false,
            _ => true,
        },
        Verb::Report { id, list, last, .. } => {
            &&& !last
            &&& match id {
                None => true,
                Some(t) => !list && exists|n: nat| n <= u64::MAX && t == #[trigger] text::decimal(n),
            }
        },
        _ => true,
    }
}

/// Whether a subcommand says whether it is a dry run when it crosses.
pub open spec fn says_dry_run(verb: Verb) -> bool {
    match verb {
        Verb::Apply { .. } => true,
        Verb::Var { file, var, probes, probe, .. } => writes(var, file is Some, probes, probe is Some),
        Verb::Bundle { command } => command is Install || command is Restore || command is Remove,
        _ => false,
    }
}

proof fn lemma_given_back(given: Given)
    requires
        given.key.len() == given.value.len(),
    ensures
        given_by(overrides_of(given)->Ok_0) == given,
{
    assert(given_by(overrides_of(given)->Ok_0) =~= given);
}

proof fn lemma_call_comes_back(verb: Verb, dry_run: bool, read: Result<Seq<u8>, Seq<char>>)
    requires
        crosses_whole(verb),
        asking_of(verb, dry_run, read) is Ok,
        verb matches Verb::Bundle { command } ==> read_back(command),
    ensures
        verb_of(asking_of(verb, dry_run, read)->Ok_0) == Ok::<(Verb, bool), Seq<char>>(
            (verb, says_dry_run(verb) && dry_run),
        ),
{
    match verb {
        Verb::Cat { var, .. } => {
            lemma_given_back(var);
        },
        Verb::Check { var, .. } => {
            lemma_given_back(var);
        },
        Verb::Apply { var, .. } => {
            lemma_given_back(var);
        },
        Verb::Var { file, var, probes, probe, .. } => {
            if !probes && probe is None && file is None {
                if writes(var, false, false, false) {
                    lemma_given_back(var);
                } else {
                    assert(var =~= Given { key: var.key, value: Seq::empty(), kv: Seq::empty() });
                }
            }
        },
        Verb::Report { id, list, .. } => {
            if id is Some {
                let n = choose|n: nat| n <= u64::MAX && id->Some_0 == #[trigger] text::decimal(n);
                text::lemma_decimal_is_read(n);
            }
        },
        _ => {},
    }
}

/// The methods that change the system are five.
pub proof fn law_five_methods_write(method: Method)
    ensures
        method_writes(method) <==> method == Method::Apply || method == Method::SetVariables || method
            == Method::MergeDocument || method == Method::InstallBundle || method
            == Method::RemoveBundle,
{
}

/// The methods that answer once are six, and every other may answer any number
/// of times.
pub proof fn law_six_methods_answer_once(method: Method)
    ensures
        !method_streams(method) <==> method == Method::Cat || method == Method::Doc || method
            == Method::Schema || method == Method::GetVariables || method == Method::RunProbe
            || method == Method::GetRun,
{
}

/// A method is found by its name behind that of the interface, and nothing
/// else is found.
pub proof fn law_a_method_is_found_by_its_name(name: Seq<char>)
    ensures
        method_found("org.detc.Manager"@ + "."@ + name) matches Some(m) ==> method_name(m) == name,
        name == "Apply"@ ==> method_found("org.detc.Manager"@ + "."@ + name) is Some,
        forall|t: Seq<char>|
            varlink::method_of("org.detc.Manager"@, t) is None ==> (#[trigger] method_found(t)) is None,
{
    varlink::law_a_method_belongs_to_its_interface("org.detc.Manager"@, name);
    lemma_named_from(name, 0);
    assert(methods()[14] == Method::Apply);
    if name == "Apply"@ && named_from(name, 0) is None {
        assert(method_name(methods()[14]) == name);
    }
}

proof fn lemma_named_from(name: Seq<char>, n: nat)
    ensures
        named_from(name, n) matches Some(m) ==> method_name(m) == name,
        named_from(name, n) is None ==> forall|i: int|
            n <= i < methods().len() ==> method_name(#[trigger] methods()[i]) != name,
    decreases methods().len() - n,
{
    if n < methods().len() && method_name(methods()[n as int]) != name {
        lemma_named_from(name, n + 1);
    }
}

/// A record is answered under a field that is named after what it is.
pub proof fn law_records_are_answered_under_their_fields()
    ensures
        method_field(Method::ListTypes) == "type"@,
        method_field(Method::List) == "object"@,
        method_field(Method::Cat) == "text"@,
        method_field(Method::Check) == "check"@,
        method_field(Method::Doc) == "text"@,
        method_field(Method::Schema) == "text"@,
        method_field(Method::GetVariables) == "text"@,
        method_field(Method::ListProbes) == "probe"@,
        method_field(Method::RunProbe) == "text"@,
        method_field(Method::ListRuns) == "run"@,
        method_field(Method::GetRun) == "detail"@,
        method_field(Method::GetFailures) == "line"@,
        method_field(Method::VerifyBundle) == "check"@,
        method_field(Method::GetBundle) == "bundle"@,
        method_field(Method::Apply) == "change"@,
        method_field(Method::SetVariables) == "change"@,
        method_field(Method::MergeDocument) == "change"@,
        method_field(Method::InstallBundle) == "change"@,
        method_field(Method::RemoveBundle) == "change"@,
{
}

/// What is given on a command line crosses as pairs and mappings, and comes
/// back as it was given.
pub proof fn law_overrides_cross_as_pairs(given: Given, i: int)
    ensures
        overrides_of(given) is Ok <==> given.key.len() == given.value.len(),
        overrides_of(given) matches Ok(o) ==> {
            &&& o.kv == given.kv
            &&& o.assignment.len() == given.key.len()
            &&& 0 <= i < o.assignment.len() ==> o.assignment[i] == (given.key[i], given.value[i])
            &&& given_by(o) == given
        },
{
    if given.key.len() == given.value.len() {
        lemma_given_back(given);
    }
}

/// A command that changes the system crosses with everything that was asked
/// for: a trial stays a trial, and what is to last is to last.
pub proof fn law_a_command_crosses_with_what_it_says(
    file: Option<Seq<char>>,
    kind: Option<Type>,
    var: Given,
    persist: bool,
    dry_run: bool,
    read: Result<Seq<u8>, Seq<char>>,
)
    requires
        var.key.len() == var.value.len(),
    ensures
        asking_of(Verb::Apply { file, kind, var }, dry_run, read) matches Ok(
            Asking::Apply { name, kind: k, dry_run: d, var: v },
        ) && name == file && k == kind && d == dry_run && given_by(v) == var,
        file matches Some(f) ==> asking_of(
            Verb::Var { file, var, persist, unset: false, probes: false, probe: None },
            dry_run,
            read,
        ) == Ok::<Asking, Seq<char>>(Asking::MergeDocument { file: f, persist, dry_run }),
        writes(var, false, false, false) ==> (asking_of(
            Verb::Var { file: None, var, persist, unset: false, probes: false, probe: None },
            dry_run,
            read,
        ) matches Ok(Asking::SetVariables { var: v, persist: p, dry_run: d }) && p == persist && d
            == dry_run && given_by(v) == var),
        !writes(var, false, false, false) ==> asking_of(
            Verb::Var { file: None, var, persist, unset: false, probes: false, probe: None },
            dry_run,
            read,
        ) == Ok::<Asking, Seq<char>>(Asking::GetVariables { key: var.key }),
        asking_of(
            Verb::Var { file, var, persist, unset: true, probes: false, probe: None },
            dry_run,
            read,
        ) is Err,
        asking_of(
            Verb::Var { file, var, persist, unset: false, probes: true, probe: None },
            dry_run,
            read,
        ) == Ok::<Asking, Seq<char>>(Asking::ListProbes),
        asking_of(Verb::Bundle { command: BundleVerb::Remove }, dry_run, read) == Ok::<
            Asking,
            Seq<char>,
        >(Asking::RemoveBundle { dry_run }),
{
    lemma_given_back(var);
}

/// A command that only looks crosses with what it looks for.
pub proof fn law_a_question_crosses_with_what_it_asks(
    object: Seq<char>,
    file: Option<Seq<char>>,
    kind: Option<Type>,
    raw: bool,
    var: Given,
    dry_run: bool,
    read: Result<Seq<u8>, Seq<char>>,
)
    requires
        var.key.len() == var.value.len(),
    ensures
        asking_of(Verb::List { types: true, kind }, dry_run, read) == Ok::<Asking, Seq<char>>(
            Asking::ListTypes,
        ),
        asking_of(Verb::List { types: false, kind }, dry_run, read) == Ok::<Asking, Seq<char>>(
            Asking::List { kind },
        ),
        asking_of(Verb::Cat { object, kind, raw, var }, dry_run, read) matches Ok(
            Asking::Cat { name, kind: k, raw: r, var: v },
        ) && name == object && k == kind && r == raw && given_by(v) == var,
        asking_of(Verb::Check { file, kind, var }, dry_run, read) matches Ok(
            Asking::Check { name, kind: k, var: v },
        ) && name == file && k == kind && given_by(v) == var,
        asking_of(Verb::Doc { object, kind }, dry_run, read) == Ok::<Asking, Seq<char>>(
            Asking::Doc { name: object, kind },
        ),
        asking_of(Verb::Schema { provider: object }, dry_run, read) == Ok::<Asking, Seq<char>>(
            Asking::Schema { name: object },
        ),
        asking_of(Verb::Bundle { command: BundleVerb::Status }, dry_run, read) == Ok::<
            Asking,
            Seq<char>,
        >(Asking::GetBundle),
{
    lemma_given_back(var);
}

/// A bundle crosses as its bytes or as where to fetch it, with everything
/// that was asked for; a restoration crosses as the installation of what was
/// kept, with a signature, and building a bundle does not cross.
pub proof fn law_a_bundle_crosses_with_what_is_asked(
    url: Seq<char>,
    bytes: Seq<u8>,
    persist: bool,
    apply: bool,
    allow_unsigned: bool,
    dry_run: bool,
    read: Result<Seq<u8>, Seq<char>>,
    create: BundleVerb,
)
    ensures
        bundle_asking(
            BundleVerb::Install { bundle: Locator::Url(url), persist, apply, allow_unsigned },
            dry_run,
            read,
        ) == Ok::<Asking, Seq<char>>(
            Asking::InstallBundle {
                bundle: None,
                url: Some(url),
                persist,
                apply,
                allow_unsigned,
                dry_run,
            },
        ),
        bundle_asking(
            BundleVerb::Install { bundle: Locator::Bytes(bytes), persist, apply, allow_unsigned },
            dry_run,
            read,
        ) == Ok::<Asking, Seq<char>>(
            Asking::InstallBundle {
                bundle: Some(base64_text(bytes)),
                url: None,
                persist,
                apply,
                allow_unsigned,
                dry_run,
            },
        ),
        read is Ok ==> bundle_asking(
            BundleVerb::Install { bundle: Locator::Path(url), persist, apply, allow_unsigned },
            dry_run,
            read,
        ) == Ok::<Asking, Seq<char>>(
            Asking::InstallBundle {
                bundle: Some(base64_text(read->Ok_0)),
                url: None,
                persist,
                apply,
                allow_unsigned,
                dry_run,
            },
        ),
        bundle_asking(BundleVerb::Restore { apply }, dry_run, read) == Ok::<Asking, Seq<char>>(
            Asking::InstallBundle {
                bundle: None,
                url: None,
                persist: true,
                apply,
                allow_unsigned: false,
                dry_run,
            },
        ),
        bundle_asking(BundleVerb::Verify { bundle: Locator::Url(url) }, dry_run, read) == Ok::<
            Asking,
            Seq<char>,
        >(Asking::VerifyBundle { bundle: None, url: Some(url) }),
        create is Create ==> bundle_asking(create, dry_run, read) is Err,
{
}

/// What arrives is the bundle that was sent: its bytes, where to fetch it, or
/// what was kept when there is neither; there cannot be both.
pub proof fn law_what_arrives_is_what_was_sent(bytes: Seq<u8>, url: Seq<char>, e: Seq<char>)
    ensures
        carried(Some(Ok(bytes)), None) == Ok::<Locator, Seq<char>>(Locator::Bytes(bytes)),
        carried(None, Some(url)) == Ok::<Locator, Seq<char>>(Locator::Url(url)),
        carried(None, None) == Ok::<Locator, Seq<char>>(Locator::Stored),
        carried(Some(Ok(bytes)), Some(url)) is Err,
        carried(Some(Err(e)), None) is Err,
{
}

/// A call is carried out as the command that it stands for, as a trial where
/// it asks for one.
pub proof fn law_a_call_is_the_command_it_stands_for(
    name: Option<Seq<char>>,
    kind: Option<Type>,
    file: Seq<char>,
    o: Overrides,
    persist: bool,
    apply: bool,
    allow_unsigned: bool,
    dry_run: bool,
    url: Seq<char>,
)
    ensures
        verb_of(Asking::Apply { name, kind, dry_run, var: o }) == Ok::<(Verb, bool), Seq<char>>(
            (Verb::Apply { file: name, kind, var: given_by(o) }, dry_run),
        ),
        verb_of(Asking::SetVariables { var: o, persist, dry_run }) == Ok::<(Verb, bool), Seq<char>>(
            (
                Verb::Var {
                    file: None,
                    var: given_by(o),
                    persist,
                    unset: false,
                    probes: false,
                    probe: None,
                },
                dry_run,
            ),
        ),
        verb_of(Asking::MergeDocument { file, persist, dry_run }) == Ok::<(Verb, bool), Seq<char>>(
            (
                Verb::Var {
                    file: Some(file),
                    var: none_given(),
                    persist,
                    unset: false,
                    probes: false,
                    probe: None,
                },
                dry_run,
            ),
        ),
        verb_of(
            Asking::InstallBundle {
                bundle: None,
                url: Some(url),
                persist,
                apply,
                allow_unsigned,
                dry_run,
            },
        ) == Ok::<(Verb, bool), Seq<char>>(
            (
                Verb::Bundle {
                    command: BundleVerb::Install {
                        bundle: Locator::Url(url),
                        persist,
                        apply,
                        allow_unsigned,
                    },
                },
                dry_run,
            ),
        ),
        verb_of(
            Asking::InstallBundle {
                bundle: None,
                url: None,
                persist,
                apply,
                allow_unsigned,
                dry_run,
            },
        ) == Ok::<(Verb, bool), Seq<char>>(
            (Verb::Bundle { command: BundleVerb::Restore { apply } }, dry_run),
        ),
        verb_of(Asking::RemoveBundle { dry_run }) == Ok::<(Verb, bool), Seq<char>>(
            (Verb::Bundle { command: BundleVerb::Remove }, dry_run),
        ),
{
}

/// A run is asked for by its number; the last one, or none, is asked for
/// without.
pub proof fn law_a_run_is_asked_for_by_its_number(n: u64, t: Seq<char>)
    ensures
        run_asked(Some(text::decimal(n as nat)), false) == Ok::<Option<u64>, Seq<char>>(Some(n)),
        run_asked(Some(t), true) == Ok::<Option<u64>, Seq<char>>(None),
        run_asked(None, false) == Ok::<Option<u64>, Seq<char>>(None),
        text::natural(t) is None ==> run_asked(Some(t), false) is Err,
{
    text::lemma_decimal_is_read(n as nat);
}

/// A report that lists crosses as a list, and any other as one run, or its
/// failures where those alone are asked for.
pub proof fn law_a_report_crosses_as_what_it_shows(
    n: u64,
    only_fails: bool,
    dry_run: bool,
    read: Result<Seq<u8>, Seq<char>>,
)
    ensures
        asking_of(
            Verb::Report { id: None, list: true, last: false, only_fails },
            dry_run,
            read,
        ) == Ok::<Asking, Seq<char>>(Asking::ListRuns { only_fails }),
        asking_of(
            Verb::Report {
                id: Some(text::decimal(n as nat)),
                list: false,
                last: false,
                only_fails: false,
            },
            dry_run,
            read,
        ) == Ok::<Asking, Seq<char>>(Asking::GetRun { id: Some(n) }),
        asking_of(
            Verb::Report {
                id: Some(text::decimal(n as nat)),
                list: false,
                last: false,
                only_fails: true,
            },
            dry_run,
            read,
        ) == Ok::<Asking, Seq<char>>(Asking::GetFailures { id: Some(n) }),
        asking_of(
            Verb::Report { id: None, list: false, last: true, only_fails: false },
            dry_run,
            read,
        ) == Ok::<Asking, Seq<char>>(Asking::GetRun { id: None }),
{
    text::lemma_decimal_is_read(n as nat);
}

/// A command that crosses whole comes back as itself, and as a trial only if
/// it was one and can be.
pub proof fn law_a_command_comes_back_as_itself(
    verb: Verb,
    dry_run: bool,
    read: Result<Seq<u8>, Seq<char>>,
)
    requires
        crosses_whole(verb),
        !(verb is Bundle),
        asking_of(verb, dry_run, read) is Ok,
    ensures
        verb_of(asking_of(verb, dry_run, read)->Ok_0) == Ok::<(Verb, bool), Seq<char>>(
            (verb, says_dry_run(verb) && dry_run),
        ),
{
    lemma_call_comes_back(verb, dry_run, read);
}

} // verus!
