//! Bringing the system to the state that it is declared to be in.
//!
//! Every object goes through the same three steps: work out what it should be,
//! look at what it is now, and change it only if the two differ.  For a
//! template that is rendering it and comparing it with the file on disk; for a
//! resource it is the `inspect` verb of its provider.
//!
//! A plan is sorted by the order of every object, and then by type and name so
//! that two runs of the same system produce the same plan.  An object that is
//! already the way it is declared is left completely alone.
//!
//! Every template is rendered before any resource is inspected, so by the time
//! a declaration is expanded the run already knows what every configuration
//! file is about to hold.  The run publishes it in the namespace, as
//! `detc.files`, and a declaration that has to react to a configuration file
//! names the file and gets back a digest of what it will hold.

use sha2::Digest;
use vstd::prelude::*;

use crate::document;
use crate::document::json_text;
use crate::order;
use crate::order::Ranked;
use crate::path;
use crate::provider;
use crate::provider::{said, said_again, Provider, Providers, Schema};
use crate::resource;
use crate::resource::{Declaration, Resource};
use crate::template;
use crate::template::Template;
use crate::text;
use crate::value;
use crate::value::{Datum, Json};
use crate::var;
use crate::var::Variables;

verus! {

/// Permissions of a configuration file that does not exist yet.
pub const DEFAULT_MODE: u32 = 0o644;

/// The subtree of the namespace that a run fills in with what it is about to
/// do.
pub const NAMESPACE: &'static str = "detc";

/// Where the configuration files are published inside it, as a flat map of the
/// path to the digest of what the file will hold.
pub const FILES: &'static str = "files";

/// A namespace with the configuration files of a run in it, in the place of
/// whatever was published before.
pub open spec fn published_in(j: Json, files: Map<Seq<char>, Json>) -> Result<Json, Seq<char>> {
    match j {
        Json::Object(m) => {
            let base = match value::member(m, NAMESPACE@) {
                Some(Json::Object(base)) => base,
                _ => Map::empty(),
            };
            Ok(Json::Object(m.insert(NAMESPACE@, Json::Object(base.insert(FILES@, Json::Object(files))))))
        },
        _ => Err("Cannot navigate through detc - not an object"@),
    }
}

/// A namespace that was worked out.
pub open spec fn namespace(r: Result<Variables, String>) -> Result<Json, Seq<char>> {
    match r {
        Ok(v) => Ok(v@),
        Err(e) => Err(e@),
    }
}

/// Whether every value of an object is text.
pub open spec fn all_texts(files: Map<Seq<char>, Json>) -> bool {
    forall|k: Seq<char>| #[trigger] files.dom().contains(k) ==> files[k] is Text
}

proof fn lemma_published(j: Json, files: Map<Seq<char>, Json>)
    requires
        all_texts(files),
        j is Object,
    ensures
        ({
            let keys = seq![NAMESPACE@];
            let erase = Json::Object(Map::<Seq<char>, Json>::empty().insert(FILES@, Json::Null));
            let fill = Json::Object(
                Map::<Seq<char>, Json>::empty().insert(FILES@, Json::Object(files)),
            );
            &&& var::subtree(j, keys) is Ok
            &&& {
                let once = var::grafted(j, keys, value::patched(var::subtree(j, keys)->Ok_0, erase));
                &&& var::subtree(once, keys) is Ok
                &&& Ok::<Json, Seq<char>>(
                    var::grafted(once, keys, value::patched(var::subtree(once, keys)->Ok_0, fill)),
                ) == published_in(j, files)
            }
        }),
{
    let keys = seq![NAMESPACE@];
    let m = j->Object_0;
    let erase = Json::Object(Map::<Seq<char>, Json>::empty().insert(FILES@, Json::Null));
    let fill = Json::Object(Map::<Seq<char>, Json>::empty().insert(FILES@, Json::Object(files)));
    let none = Json::Object(Map::<Seq<char>, Json>::empty());
    let sub = if m.dom().contains(NAMESPACE@) {
        m[NAMESPACE@]
    } else {
        none
    };
    let base = match sub {
        Json::Object(b) => b,
        _ => Map::<Seq<char>, Json>::empty(),
    };
    assert(keys.drop_first() =~= Seq::empty());
    reveal_with_fuel(var::subtree, 2);
    reveal_with_fuel(var::grafted, 2);
    assert(var::subtree(j, keys) == Ok::<Json, Seq<char>>(sub));
    reveal_with_fuel(value::patched, 3);
    let cleared = value::patched(sub, erase);
    assert(cleared->Object_0 =~= base.remove(FILES@));
    let once = var::grafted(j, keys, cleared);
    assert(once == Json::Object(m.insert(NAMESPACE@, cleared)));
    assert(var::subtree(once, keys) == Ok::<Json, Seq<char>>(cleared));
    let inner = value::patched(Json::Null, Json::Object(files));
    assert forall|k: Seq<char>| #[trigger] files.dom().contains(k) implies value::patched(
        Json::Null,
        files[k],
    ) == files[k] by {}
    assert(inner->Object_0 =~= files);
    let filled = value::patched(cleared, fill);
    assert(filled->Object_0 =~= base.insert(FILES@, Json::Object(files)));
    let twice = var::grafted(once, keys, filled);
    assert(twice->Object_0 =~= m.insert(NAMESPACE@, filled));
}

/// An object with one member.
fn single(name: &str, v: Datum) -> (r: Datum)
    ensures
        r@ == Json::Object(Map::<Seq<char>, Json>::empty().insert(name@, v@)),
{
    let mut entries: Vec<(String, Datum)> = Vec::new();
    value::put(&mut entries, name.to_owned(), v);
    Datum::Object(entries)
}

/// A copy of the namespace with the configuration files of a run in it.
fn published(var: &Variables, files: Vec<(String, Datum)>) -> (r: Result<Variables, String>)
    requires
        all_texts(value::members(files@)),
    ensures
        namespace(r) == published_in(var@, value::members(files@)),
{
    let mut copy = Variables::from_value(var.value().copy());
    let mut keys: Vec<String> = Vec::new();
    keys.push(NAMESPACE.to_owned());
    proof {
        assert(text::texts(keys@) =~= seq![NAMESPACE@]);
        if var@ is Object {
            lemma_published(var@, value::members(files@));
        } else {
            reveal_strlit("detc");
            reveal_with_fuel(var::subtree, 2);
            reveal_strlit("Cannot navigate through ");
            reveal_strlit(" - not an object");
            reveal_strlit("Cannot navigate through detc - not an object");
            assert("Cannot navigate through "@ + "detc"@ + " - not an object"@
                =~= "Cannot navigate through detc - not an object"@);
        }
    }
    if let Err(e) = copy.merge_at(&keys, Variables::from_value(single(FILES, Datum::Null))) {
        return Err(e);
    }
    if let Err(e) = copy.merge_at(&keys, Variables::from_value(single(FILES, Datum::Object(files)))) {
        return Err(e);
    }
    Ok(copy)
}

/// The namespace as a command that makes no plan sees it: the one the system
/// has, and an empty map of configuration files.
pub fn unplanned(var: &Variables) -> (r: Result<Variables, String>)
    ensures
        namespace(r) == published_in(var@, Map::empty()),
{
    let none: Vec<(String, Datum)> = Vec::new();
    published(var, none)
}

/// How a configuration file is named: relative to the root, and without a
/// leading slash.
pub open spec fn key_of(root: Seq<char>, path: Seq<char>) -> Seq<char> {
    match path::below(path, root) {
        Some(rest) => rest,
        None => path,
    }
}

/// How a configuration file is named, both as a key of the files that are
/// published and as the name of a resource that manages the same file.
pub fn files_key(root: &str, path: &str) -> (r: String)
    ensures
        r@ == key_of(root@, path@),
{
    match path::strip(path, root) {
        Some(rest) => rest,
        None => path.to_owned(),
    }
}

/// How a declaration names a template it depends on.
pub fn template_id(root: &str, path: &str) -> (r: String)
    ensures
        r@ == "template/"@ + key_of(root@, path@),
{
    let mut r = "template/".to_owned();
    r.append(files_key(root, path).as_str());
    r
}

/// The SHA-256 digest of bytes.
pub uninterp spec fn sha256_of(bytes: Seq<u8>) -> Seq<u8>;

/// `sha2::Sha256::digest` computes the SHA-256 digest of bytes, which is 32
/// bytes long.
#[verifier::external_body]
fn sha256(bytes: &[u8]) -> (r: Vec<u8>)
    ensures
        r@ == sha256_of(bytes@),
        r@.len() == 32,
{
    sha2::Sha256::digest(bytes).to_vec()
}

/// How a digest is written.
pub open spec fn fingerprint(digest: Seq<u8>) -> Seq<char> {
    "sha256:"@ + text::hex(digest)
}

/// How a digest is written.
pub fn fingerprint_of(digest: &Vec<u8>) -> (r: String)
    ensures
        r@ == fingerprint(digest@),
{
    let mut r = "sha256:".to_owned();
    r.append(text::hex_of(digest).as_str());
    r
}

/// How the content of a configuration file is fingerprinted.
pub fn digest(content: &[u8]) -> (r: String)
    ensures
        r@ == fingerprint(sha256_of(content@)),
{
    fingerprint_of(&sha256(content))
}

/// One object of the system, reduced to what deciding a requirement needs.
pub struct Requirement<'a> {
    /// How a declaration names the object.
    pub id: &'a str,
    pub order: i64,
    /// What the object asks to have worked first.
    pub requires: &'a [String],
    /// The object could not be worked out, so its order is a placeholder.
    pub broken: bool,
}

/// One object of the system, as plain values.
pub struct Need {
    pub id: Seq<char>,
    pub order: i64,
    pub requires: Seq<Seq<char>>,
    pub broken: bool,
}

impl View for Requirement<'_> {
    type V = Need;

    open spec fn view(&self) -> Need {
        Need {
            id: self.id@,
            order: self.order,
            requires: text::texts(self.requires@),
            broken: self.broken,
        }
    }
}

/// Objects, as plain values.
pub open spec fn needs(s: Seq<Requirement>) -> Seq<Need> {
    Seq::new(s.len(), |i: int| s[i]@)
}

/// The first object that has a name, from `n` on.
pub open spec fn named_from(objects: Seq<Need>, id: Seq<char>, n: nat) -> Option<int>
    decreases objects.len() - n,
{
    if n >= objects.len() {
        None
    } else if objects[n as int].id == id {
        Some(n as int)
    } else {
        named_from(objects, id, n + 1)
    }
}

/// The object that a requirement names.
pub open spec fn named(objects: Seq<Need>, id: Seq<char>) -> Option<int> {
    named_from(objects, id, 0)
}

/// Why a requirement of an object cannot be met by any run.
pub open spec fn reason(objects: Seq<Need>, object: Need, id: Seq<char>, complete: bool) -> Option<
    Seq<char>,
> {
    match named(objects, id) {
        None => if complete {
            Some("requires "@ + id + ", which is not declared in the system"@)
        } else {
            None
        },
        Some(i) => if !objects[i].broken && objects[i].order >= object.order {
            Some(
                "requires "@ + id + ", which is not applied earlier (order "@ + text::signed(
                    object.order as int,
                ) + " vs "@ + text::signed(objects[i].order as int) + ")"@,
            )
        } else {
            None
        },
    }
}

/// Why the requirements of an object cannot be met, by the one that is named.
pub open spec fn reasons(objects: Seq<Need>, object: Need, complete: bool) -> spec_fn(
    Seq<char>,
) -> Option<Seq<char>> {
    |id: Seq<char>| reason(objects, object, id, complete)
}

/// Why an object cannot have what it requires: the first reason, for an object
/// that could be worked out.
pub open spec fn objection(objects: Seq<Need>, object: Need, complete: bool) -> Option<Seq<char>> {
    if object.broken {
        None
    } else {
        text::first_of(object.requires, reasons(objects, object, complete))
    }
}

/// The objects that cannot have what they require among the first `n`, and
/// why.
pub open spec fn offenders(objects: Seq<Need>, complete: bool, n: nat) -> Seq<(int, Seq<char>)>
    decreases n,
{
    if n == 0 {
        Seq::empty()
    } else {
        let before = offenders(objects, complete, (n - 1) as nat);
        match objection(objects, objects[n - 1], complete) {
            Some(why) => before.push((n - 1, why)),
            None => before,
        }
    }
}

/// Offenders, as plain values.
pub open spec fn offences(s: Seq<(usize, String)>) -> Seq<(int, Seq<char>)> {
    Seq::new(s.len(), |i: int| (s[i].0 as int, s[i].1@))
}

/// The object that a requirement names.
fn find_named(objects: &[Requirement], id: &str) -> (r: Option<usize>)
    ensures
        named(needs(objects@), id@) == (match r {
            Some(i) => Some(i as int),
            None => None,
        }),
        r matches Some(i) ==> i < objects@.len(),
{
    let ghost all = needs(objects@);
    let n: usize = objects.len();
    let mut i: usize = 0;
    while i < n
        invariant
            i <= n == objects@.len(),
            all == needs(objects@),
            named(all, id@) == named_from(all, id@, i as nat),
        decreases n - i,
    {
        assert(all[i as int] == objects@[i as int]@);
        if text::equal(objects[i].id, id) {
            return Some(i);
        }
        i += 1;
    }
    None
}

/// Why a requirement of an object cannot be met by any run.
fn find_reason(objects: &[Requirement], object: &Requirement, id: &str, complete: bool) -> (r: Option<
    String,
>)
    ensures
        text::text_of(r) == reason(needs(objects@), object@, id@, complete),
{
    match find_named(objects, id) {
        None => {
            if complete {
                let mut e = "requires ".to_owned();
                e.append(id);
                e.append(", which is not declared in the system");
                Some(e)
            } else {
                None
            }
        },
        Some(i) => {
            assert(needs(objects@)[i as int] == objects@[i as int]@);
            if !objects[i].broken && objects[i].order >= object.order {
                let mut e = "requires ".to_owned();
                e.append(id);
                e.append(", which is not applied earlier (order ");
                e.append(text::signed_of(object.order).as_str());
                e.append(" vs ");
                e.append(text::signed_of(objects[i].order).as_str());
                e.append(")");
                Some(e)
            } else {
                None
            }
        },
    }
}

/// Why an object cannot have what it requires.
fn find_objection(objects: &[Requirement], object: &Requirement, complete: bool) -> (r: Option<String>)
    ensures
        text::text_of(r) == objection(needs(objects@), object@, complete),
{
    if object.broken {
        return None;
    }
    let ghost why = reasons(needs(objects@), object@, complete);
    let ghost all = object@.requires;
    let n: usize = object.requires.len();
    let mut i: usize = 0;
    while i < n
        invariant
            i <= n == object.requires@.len(),
            why == reasons(needs(objects@), object@, complete),
            all == object@.requires,
            all == text::texts(object.requires@),
            text::first_of(all.take(i as int), why) is None,
            !object@.broken,
        decreases n - i,
    {
        proof {
            text::lemma_first_step(all, why, i as int);
            assert(all[i as int] == object.requires@[i as int]@);
        }
        let found = find_reason(objects, object, object.requires[i].as_str(), complete);
        if found.is_some() {
            return found;
        }
        i += 1;
    }
    assert(all.take(n as int) =~= all);
    None
}

/// The requirements that no run could meet, as `(index, why)` into `objects`.
///
/// Only what is wrong with the *declaration* is decided here: a requirement
/// that names nothing, or that names something the run would get to later.  A
/// requirement has to be applied strictly earlier, so that it is not met by the
/// accident of a name.  `complete` says whether the run looked at the whole
/// system.
pub fn unmet(objects: &[Requirement], complete: bool) -> (r: Vec<(usize, String)>)
    ensures
        offences(r@) == offenders(needs(objects@), complete, objects@.len()),
{
    let mut errors: Vec<(usize, String)> = Vec::new();
    let n: usize = objects.len();
    let mut i: usize = 0;
    assert(offences(errors@) =~= Seq::empty());
    while i < n
        invariant
            i <= n == objects@.len(),
            offences(errors@) == offenders(needs(objects@), complete, i as nat),
        decreases n - i,
    {
        assert(needs(objects@)[i as int] == objects@[i as int]@);
        let ghost was = offences(errors@);
        if let Some(why) = find_objection(objects, &objects[i], complete) {
            let ghost one = (i as int, why@);
            errors.push((i, why));
            assert(offences(errors@) =~= was.push(one));
        }
        i += 1;
    }
    errors
}

proof fn lemma_first_none(
    names: Seq<Seq<char>>,
    why: spec_fn(Seq<char>) -> Option<Seq<char>>,
    i: int,
)
    requires
        0 <= i < names.len(),
        text::first_of(names, why) is None,
    ensures
        why(names[i]) is None,
    decreases names.len(),
{
    if i < names.len() - 1 {
        lemma_first_none(names.drop_last(), why, i);
    }
}

/// Of an object that nothing is wrong with, every requirement names something
/// that was declared, if the whole system was looked at, and what it names runs
/// strictly earlier, if it could be worked out.
pub proof fn law_requirements_run_earlier(objects: Seq<Need>, i: int, k: int, complete: bool)
    requires
        0 <= i < objects.len(),
        !objects[i].broken,
        objection(objects, objects[i], complete) is None,
        0 <= k < objects[i].requires.len(),
    ensures
        match named(objects, objects[i].requires[k]) {
            Some(j) => objects[j].broken || objects[j].order < objects[i].order,
            None => !complete,
        },
{
    let why = reasons(objects, objects[i], complete);
    lemma_first_none(objects[i].requires, why, k);
    assert(why(objects[i].requires[k]) is None);
}

/// Whether one object requires another.
pub open spec fn asks_for(objects: Seq<Need>, i: int, j: int) -> bool {
    exists|q: int|
        0 <= q < objects[i].requires.len() && named(objects, #[trigger] objects[i].requires[q])
            == Some(j)
}

/// Whether each object of a chain requires the one that follows it.
pub open spec fn requires_along(objects: Seq<Need>, along: Seq<int>) -> bool {
    &&& forall|k: int| 0 <= k < along.len() ==> 0 <= #[trigger] along[k] < objects.len()
    &&& forall|k: int| 0 <= k < along.len() - 1 ==> asks_for(objects, #[trigger] along[k], along[k + 1])
}

/// Objects that nothing is wrong with cannot require each other in a circle: a
/// chain of requirements never comes back to where it began.
pub proof fn law_requirements_have_no_cycle(objects: Seq<Need>, along: Seq<int>, complete: bool)
    requires
        requires_along(objects, along),
        forall|k: int|
            0 <= k < along.len() ==> !objects[#[trigger] along[k]].broken && objection(
                objects,
                objects[along[k]],
                complete,
            ) is None,
        along.len() > 1,
    ensures
        objects[along.last()].order < objects[along[0]].order,
        along.last() != along[0],
    decreases along.len(),
{
    let last = along.len() - 1;
    let before = along[last - 1];
    assert(objection(objects, objects[before], complete) is None);
    assert(asks_for(objects, along[last - 1], along[last - 1 + 1]));
    let q = choose|q: int|
        0 <= q < objects[before].requires.len() && named(
            objects,
            #[trigger] objects[before].requires[q],
        ) == Some(along[last]);
    law_requirements_run_earlier(objects, before, q, complete);
    assert(!objects[along[last]].broken);
    if along.len() > 2 {
        let less = along.drop_last();
        assert forall|k: int| 0 <= k < less.len() - 1 implies asks_for(
            objects,
            #[trigger] less[k],
            less[k + 1],
        ) by {
            assert(asks_for(objects, along[k], along[k + 1]));
        }
        law_requirements_have_no_cycle(objects, less, complete);
    }
}

/// What has to happen to an object for it to be the way it is declared.
#[derive(Clone, Copy, Debug, PartialEq, Eq, Structural)]
pub enum Action {
    /// Already the way it is declared, and left alone.
    InSync,
    /// Not in the system yet.
    Create,
    /// In the system, but not the way it is declared.
    Update,
    /// What the object should be could not even be worked out.
    Broken,
}

/// How an action is named before it is taken.
pub open spec fn planned_text(action: Action) -> Seq<char> {
    match action {
        Action::InSync => "ok"@,
        Action::Create => "create"@,
        Action::Update => "update"@,
        Action::Broken => "error"@,
    }
}

/// How an action is named once it is taken.
pub open spec fn taken_text(action: Action) -> Seq<char> {
    match action {
        Action::InSync => "ok"@,
        Action::Create => "created"@,
        Action::Update => "updated"@,
        Action::Broken => "error"@,
    }
}

impl Action {
    /// How the action is named before it is taken.
    pub fn planned(&self) -> (r: &'static str)
        ensures
            r@ == planned_text(*self),
    {
        match self {
            Action::InSync => "ok",
            Action::Create => "create",
            Action::Update => "update",
            Action::Broken => "error",
        }
    }

    /// How the action is named once it is taken.
    pub fn taken(&self) -> (r: &'static str)
        ensures
            r@ == taken_text(*self),
    {
        match self {
            Action::InSync => "ok",
            Action::Create => "created",
            Action::Update => "updated",
            Action::Broken => "error",
        }
    }

    /// Whether the object is anything other than the way it is declared.
    pub fn changes(&self) -> (r: bool)
        ensures
            r == (*self != Action::InSync),
            r == is_change(*self),
    {
        match self {
            Action::InSync => false,
            _ => true,
        }
    }
}

/// The two moments of a run that are worth recording: the system as the run
/// found it, and the system as the run left it.
#[derive(Clone, Copy, Debug, PartialEq, Eq, Structural)]
pub enum Phase {
    /// Before anything was applied.
    Found,
    /// After everything that could be applied was.
    Applied,
}

/// The state that a provider reported, read through the schema: nothing, where
/// the resource is absent or is not described as an object.
pub open spec fn current_of(
    properties: Map<Seq<char>, provider::Trait>,
    current: Option<Json>,
) -> Map<Seq<char>, Json> {
    match current {
        Some(Json::Object(m)) => provider::reported(properties, m),
        _ => Map::empty(),
    }
}

/// How one key differs.
pub open spec fn difference_at(current: Map<Seq<char>, Json>, key: Seq<char>, desired: Json) -> Json {
    Json::Object(
        Map::<Seq<char>, Json>::empty().insert(
            "current"@,
            if current.dom().contains(key) {
                current[key]
            } else {
                Json::Null
            },
        ).insert("desired"@, desired),
    )
}

/// Whether a key is not the way it is desired.
pub open spec fn differs(current: Map<Seq<char>, Json>, key: Seq<char>, desired: Json) -> bool {
    !(current.dom().contains(key) && value::alike(current[key], desired))
}

/// What separates a desired state from the state that a provider reported, by
/// the keys of the desired state.
pub open spec fn differences(
    properties: Map<Seq<char>, provider::Trait>,
    desired: Map<Seq<char>, Json>,
    current: Option<Json>,
) -> Map<Seq<char>, Json> {
    let found = current_of(properties, current);
    Map::new(
        |k: Seq<char>| desired.dom().contains(k) && differs(found, k, desired[k]),
        |k: Seq<char>| difference_at(found, k, desired[k]),
    )
}

/// What separates a desired state from the state that a provider reported.
///
/// Only the keys of the desired state are compared, because a key that the
/// resource does not mention is not managed by it, and both sides are read
/// through the schema first.
pub fn difference(
    schema: &Schema,
    desired: &Vec<(String, Datum)>,
    current: Option<&Datum>,
) -> (r: Vec<(String, Datum)>)
    ensures
        value::members(r@) == differences(
            schema@.properties,
            value::members(desired@),
            match current {
                Some(d) => Some(d@),
                None => None,
            },
        ),
{
    let ghost want = value::members(desired@);
    let found: Vec<(String, Datum)> = match current {
        Some(Datum::Object(entries)) => schema.read(entries),
        _ => Vec::new(),
    };
    let ghost have = value::members(found@);
    let names = value::names(desired);
    let ghost all = text::texts(names@);
    let mut r: Vec<(String, Datum)> = Vec::new();
    let n: usize = names.len();
    let mut i: usize = 0;
    while i < n
        invariant
            i <= n == names@.len(),
            all == text::texts(names@),
            want == value::members(desired@),
            have == value::members(found@),
            all.to_set() == want.dom(),
            forall|k: Seq<char>| #[trigger]
                value::members(r@).dom().contains(k) <==> all.take(i as int).contains(k) && differs(
                    have,
                    k,
                    want[k],
                ),
            forall|k: Seq<char>| #[trigger]
                value::members(r@).dom().contains(k) ==> value::members(r@)[k] == difference_at(
                    have,
                    k,
                    want[k],
                ),
        decreases n - i,
    {
        let name = names[i].as_str();
        proof {
            assert(all[i as int] == name@);
            assert(all.to_set().contains(all[i as int]));
            text::lemma_take_set(all, i as int);
        }
        let ghost had = value::members(r@);
        match value::get(desired, name) {
            Some(v) => {
                let there = value::get(&found, name);
                let same = match there {
                    Some(c) => c.same(v),
                    None => false,
                };
                assert(same == !differs(have, name@, want[name@]));
                if !same {
                    let state = match there {
                        Some(c) => c.copy(),
                        None => Datum::Null,
                    };
                    let mut change: Vec<(String, Datum)> = Vec::new();
                    value::put(&mut change, "current".to_owned(), state);
                    value::put(&mut change, "desired".to_owned(), v.copy());
                    value::put(&mut r, name.to_owned(), Datum::Object(change));
                }
            },
            None => {},
        }
        proof {
            let now = value::members(r@);
            assert forall|k: Seq<char>| #[trigger] now.dom().contains(k) <==> all.take(i + 1).contains(k)
                && differs(have, k, want[k]) by {
                assert(all.take(i + 1).to_set().contains(k) <==> all.take(
                    i as int,
                ).to_set().insert(name@).contains(k));
                assert(had.dom().contains(k) <==> all.take(i as int).contains(k) && differs(
                    have,
                    k,
                    want[k],
                ));
            }
        }
        i += 1;
    }
    proof {
        assert(all.take(n as int) =~= all);
        let current = match current {
            Some(d) => Some(d@),
            None => None,
        };
        let diff = differences(schema@.properties, want, current);
        assert forall|k: Seq<char>| value::members(r@).dom().contains(k) <==> diff.dom().contains(k) by {
            assert(all.to_set().contains(k) <==> want.dom().contains(k));
        }
        assert(value::members(r@) =~= diff);
    }
    r
}

/// A resource that reports the state that is asked of it has nothing left to
/// change: reading both sides through the schema is what lets it converge.
pub proof fn law_reached_state_has_no_difference(
    properties: Map<Seq<char>, provider::Trait>,
    state: Map<Seq<char>, Json>,
)
    requires
        provider::sound(properties),
        state.dom().finite(),
        provider::validated(properties, state) is Ok,
        forall|k: Seq<char>| #[trigger]
            provider::validated(properties, state)->Ok_0.dom().contains(k) ==> value::alike(
                provider::validated(properties, state)->Ok_0[k],
                provider::validated(properties, state)->Ok_0[k],
            ),
    ensures
        differences(
            properties,
            provider::validated(properties, state)->Ok_0,
            Some(Json::Object(provider::validated(properties, state)->Ok_0)),
        ) == Map::<Seq<char>, Json>::empty(),
{
    let desired = provider::validated(properties, state)->Ok_0;
    provider::law_validated_state_is_reported_as_itself(properties, state);
    assert(differences(properties, desired, Some(Json::Object(desired))) =~= Map::empty());
}

/// Whether an action is one that changes the system, or would.
pub open spec fn is_change(action: Action) -> bool {
    !(action is InSync)
}

/// The permissions that a file is written with.
pub open spec fn mode_for(declared: Option<u32>, present: Option<u32>) -> u32 {
    match declared {
        Some(mode) => mode,
        None => match present {
            Some(mode) => mode & 0o7777,
            None => DEFAULT_MODE,
        },
    }
}

/// The permissions that are declared are those that a file has. A file that is
/// there keeps its own, which are the twelve lowest bits of its mode, and a new
/// one can be read by everybody and written by its owner.
pub proof fn law_a_file_keeps_its_permissions(mode: u32, present: Option<u32>)
    ensures
        mode_for(Some(mode), present) == mode,
        mode <= 0o7777 ==> mode_for(None, Some(mode)) == mode,
        mode_for(None, Some(mode)) <= 0o7777,
        mode_for(None, Some(mode)) == mode % 0o10000,
        mode_for(None, None) == 0o644,
        is_change(Action::Create),
        is_change(Action::Update),
        is_change(Action::Broken),
        !is_change(Action::InSync),
{
    assert(mode & 0o7777 == mode % 0o10000) by (bit_vector);
}

/// The permissions that a file is written with: those that are declared for
/// it, or else those of the file that is already in the system, or else the
/// usual ones.
pub fn file_mode(declared: Option<u32>, present: Option<u32>) -> (r: u32)
    ensures
        r == mode_for(declared, present),
        r == (match (declared, present) {
            (Some(mode), _) => mode,
            (None, Some(mode)) => mode & 0o7777,
            (None, None) => DEFAULT_MODE,
        }),
{
    match declared {
        Some(mode) => mode,
        None => match present {
            Some(mode) => mode & 0o7777,
            None => DEFAULT_MODE,
        },
    }
}

/// An object of the system, with everything that was worked out about it.
pub enum Target {
    Template {
        template: Template,
        path: String,
        /// The configuration file as it was found in the system.
        found: Option<String>,
        content: String,
    },
    Resource {
        resource: Resource,
        provider: Provider,
        desired: Vec<(String, Datum)>,
        current: Option<Datum>,
        diff: Vec<(String, Datum)>,
    },
    Broken { error: String },
}

/// An object of the system, as plain values.
pub enum Goal {
    Template {
        template: template::Sheet,
        path: Seq<char>,
        found: Option<Seq<char>>,
        content: Seq<char>,
    },
    Resource {
        resource: resource::Claim,
        provider: provider::Program,
        desired: Map<Seq<char>, Json>,
        current: Option<Json>,
        diff: Map<Seq<char>, Json>,
    },
    Broken { error: Seq<char> },
}

impl View for Target {
    type V = Goal;

    open spec fn view(&self) -> Goal {
        match self {
            Target::Template { template, path, found, content } => Goal::Template {
                template: template@,
                path: path@,
                found: text::text_of(*found),
                content: content@,
            },
            Target::Resource { resource, provider, desired, current, diff } => Goal::Resource {
                resource: resource@,
                provider: provider@,
                desired: value::members(desired@),
                current: provider::json_of(*current),
                diff: value::members(diff@),
            },
            Target::Broken { error } => Goal::Broken { error: error@ },
        }
    }
}

/// One object of the system, and what has to happen to it.
pub struct Change {
    kind: String,
    name: String,
    id: String,
    order: i64,
    action: Action,
    requires: Vec<String>,
    error: Option<String>,
    skipped: Option<String>,
    target: Target,
}

/// One object of the system, and what has to happen to it, as plain values.
pub struct Step {
    pub kind: Seq<char>,
    pub name: Seq<char>,
    /// How a declaration names the object, which for a template is the path
    /// relative to the root.
    pub id: Seq<char>,
    pub order: i64,
    pub action: Action,
    /// What has to have worked before this is worth trying.
    pub requires: Seq<Seq<char>>,
    /// Why applying it did not work, once it has been tried.
    pub error: Option<Seq<char>>,
    /// The requirement that was not met, for an object that was not tried.
    pub skipped: Option<Seq<char>>,
    pub target: Goal,
}

impl View for Change {
    type V = Step;

    closed spec fn view(&self) -> Step {
        Step {
            kind: self.kind@,
            name: self.name@,
            id: self.id@,
            order: self.order,
            action: self.action,
            requires: text::texts(self.requires@),
            error: text::text_of(self.error),
            skipped: text::text_of(self.skipped),
            target: self.target@,
        }
    }
}

/// An object that could not be worked out.
pub open spec fn broken_step(
    kind: Seq<char>,
    name: Seq<char>,
    id: Seq<char>,
    error: Seq<char>,
) -> Step {
    Step {
        kind,
        name,
        id,
        order: provider::DEFAULT_ORDER,
        action: Action::Broken,
        requires: Seq::empty(),
        error: None,
        skipped: None,
        target: Goal::Broken { error },
    }
}

/// An object, as deciding a requirement sees it.
pub open spec fn need_of(step: Step) -> Need {
    Need {
        id: step.id,
        order: step.order,
        requires: step.requires,
        broken: step.action == Action::Broken,
    }
}

/// Objects, as deciding a requirement sees them.
pub open spec fn needs_of(steps: Seq<Step>) -> Seq<Need> {
    Seq::new(steps.len(), |i: int| need_of(steps[i]))
}

/// Objects, as plain values.
pub open spec fn steps(s: Seq<Change>) -> Seq<Step> {
    s.map_values(|c: Change| c@)
}

/// One object of the system as it is at a moment of the run, for whoever keeps
/// the history of the changes.
pub enum Snapshot {
    Template {
        /// The configuration file that the template instantiates.
        target: String,
        /// The template, as whoever installed it wrote it.
        template: String,
        /// The configuration file, absent when it is not in the system.
        content: Option<String>,
    },
    Resource {
        kind: String,
        name: String,
        order: i64,
        /// The declaration, before it is expanded through the namespace.
        declared: String,
        /// The state that the declaration asks for, expanded and validated.
        desired: Vec<(String, Datum)>,
        /// The state that the provider reported.
        state: Option<Datum>,
    },
}

/// One object of the system at a moment of the run, as plain values.
pub enum Moment {
    Template { target: Seq<char>, template: Seq<char>, content: Option<Seq<char>> },
    Resource {
        kind: Seq<char>,
        name: Seq<char>,
        order: i64,
        declared: Seq<char>,
        desired: Map<Seq<char>, Json>,
        state: Option<Json>,
    },
}

impl View for Snapshot {
    type V = Moment;

    open spec fn view(&self) -> Moment {
        match self {
            Snapshot::Template { target, template, content } => Moment::Template {
                target: target@,
                template: template@,
                content: text::text_of(*content),
            },
            Snapshot::Resource { kind, name, order, declared, desired, state } => Moment::Resource {
                kind: kind@,
                name: name@,
                order: *order,
                declared: declared@,
                desired: value::members(desired@),
                state: provider::json_of(*state),
            },
        }
    }
}

/// The object as it is at a moment of the run, by what was read of its source.
/// The rendering is only what the file holds if it was written, which a
/// template that failed or was skipped was not.
pub open spec fn moment_of(step: Step, phase: Phase, read: Result<Seq<char>, Seq<char>>) -> Result<
    Option<Moment>,
    Seq<char>,
> {
    match step.target {
        Goal::Broken { .. } => Ok(None),
        Goal::Template { template, found, content, .. } => match template::content_of(
            "template"@,
            template.source,
            read,
        ) {
            Err(e) => Err(e),
            Ok(written) => Ok(
                Some(
                    Moment::Template {
                        target: template.target,
                        template: written,
                        content: if phase == Phase::Applied && step.error is None && step.skipped is None {
                            Some(content)
                        } else {
                            found
                        },
                    },
                ),
            ),
        },
        Goal::Resource { resource, desired, current, .. } => match template::content_of(
            "resource"@,
            resource.source,
            read,
        ) {
            Err(e) => Err(e),
            Ok(declared) => Ok(
                Some(
                    Moment::Resource {
                        kind: step.kind,
                        name: step.name,
                        order: step.order,
                        declared,
                        desired,
                        state: current,
                    },
                ),
            ),
        },
    }
}

/// An object that a run skipped is left exactly as the run found it.
pub proof fn law_skipped_is_left_as_found(step: Step, read: Result<Seq<char>, Seq<char>>)
    requires
        step.skipped is Some,
    ensures
        moment_of(step, Phase::Applied, read) == moment_of(step, Phase::Found, read),
{
}

/// A moment that was looked at.
pub open spec fn moment(r: Result<Option<Snapshot>, String>) -> Result<Option<Moment>, Seq<char>> {
    match r {
        Ok(Some(s)) => Ok(Some(s@)),
        Ok(None) => Ok(None),
        Err(e) => Err(e@),
    }
}

/// The configuration file that a change puts in the system.
pub struct Instantiated<'a> {
    /// The configuration file.
    pub path: &'a str,
    /// The template that writes it.
    pub template: &'a str,
    /// What the template rendered to.
    pub content: &'a str,
}

/// The resource that a change asserts.
pub struct Applied<'a> {
    /// How a declaration names the resource.
    pub id: &'a str,
    /// The declaration that asks for it.
    pub source: &'a str,
    /// The state it asks for.
    pub desired: &'a Vec<(String, Datum)>,
}

/// How one key of a difference is told.
pub open spec fn told(key: Seq<char>, change: Json) -> Seq<char> {
    let m = match change {
        Json::Object(m) => m,
        _ => Map::empty(),
    };
    let current = match value::member(m, "current"@) {
        Some(v) => v,
        None => Json::Null,
    };
    let desired = match value::member(m, "desired"@) {
        Some(v) => v,
        None => Json::Null,
    };
    key + ": "@ + json_text(current) + " -> "@ + json_text(desired)
}

/// A difference as it is told, in the order of its keys.
pub open spec fn diff_text(diff: Map<Seq<char>, Json>) -> Seq<char> {
    let keys = text::listing(diff.dom());
    text::join(Seq::new(keys.len(), |i: int| told(keys[i], diff[keys[i]])), ", "@)
}

/// What is going to change, or why nothing can be.
pub open spec fn summary_of(step: Step) -> Seq<char> {
    match step.target {
        Goal::Resource { diff, .. } => diff_text(diff),
        Goal::Broken { error } => error,
        Goal::Template { .. } => Seq::empty(),
    }
}

/// An optional text once more.
fn text_again(t: &Option<String>) -> (r: Option<String>)
    ensures
        text::text_of(r) == text::text_of(*t),
{
    match t {
        Some(t) => Some(t.clone()),
        None => None,
    }
}

/// An optional document once more.
fn datum_again(d: &Option<Datum>) -> (r: Option<Datum>)
    ensures
        provider::json_of(r) == provider::json_of(*d),
{
    match d {
        Some(d) => Some(d.copy()),
        None => None,
    }
}

/// How one key of a difference is told.
fn tell(key: &str, change: &Datum) -> (r: String)
    ensures
        r@ == told(key@, change@),
{
    let none: Vec<(String, Datum)> = Vec::new();
    let entries = match change {
        Datum::Object(entries) => entries,
        _ => &none,
    };
    let nothing = Datum::Null;
    let current = match value::get(entries, "current") {
        Some(v) => v,
        None => &nothing,
    };
    let desired = match value::get(entries, "desired") {
        Some(v) => v,
        None => &nothing,
    };
    let mut r = key.to_owned();
    r.append(": ");
    r.append(document::to_json(current).as_str());
    r.append(" -> ");
    r.append(document::to_json(desired).as_str());
    r
}

/// A difference as it is told, in the order of its keys.
fn tell_all(diff: &Vec<(String, Datum)>) -> (r: String)
    ensures
        r@ == diff_text(value::members(diff@)),
{
    let ghost m = value::members(diff@);
    let names = value::names(diff);
    let ghost keys = text::texts(names@);
    let ghost want = Seq::new(keys.len(), |i: int| told(keys[i], m[keys[i]]));
    let mut lines: Vec<String> = Vec::new();
    let n: usize = names.len();
    let mut i: usize = 0;
    while i < n
        invariant
            i <= n == names@.len(),
            m == value::members(diff@),
            keys == text::texts(names@),
            keys.to_set() == m.dom(),
            want == Seq::new(keys.len(), |i: int| told(keys[i], m[keys[i]])),
            text::texts(lines@) == want.take(i as int),
        decreases n - i,
    {
        let name = names[i].as_str();
        proof {
            assert(keys[i as int] == name@);
            assert(keys.to_set().contains(keys[i as int]));
        }
        let ghost was = text::texts(lines@);
        match value::get(diff, name) {
            Some(change) => {
                let line = tell(name, change);
                let ghost one = line@;
                lines.push(line);
                assert(text::texts(lines@) =~= was.push(one));
                assert(want.take(i + 1) =~= want.take(i as int).push(one));
            },
            None => {},
        }
        i += 1;
    }
    assert(want.take(n as int) =~= want);
    text::joined(&lines, ", ")
}

/// The work that bringing an object to its state takes.
pub enum Work<'a> {
    /// There is nothing to do.
    Nothing,
    /// Nothing can be done.
    Impossible,
    /// Write a file.
    Write { path: &'a str, content: &'a str },
    /// Ask a provider, with the request that the `apply` verb takes and the one
    /// that the `inspect` verb takes afterwards.
    Ask { provider: &'a Provider, apply: String, inspect: String },
}

/// What came of the work.
pub enum Attempt {
    Nothing,
    Written(Result<(), String>),
    Asked {
        applied: Result<String, String>,
        schema: Result<String, String>,
        inspected: Result<String, String>,
    },
}

/// What came of the work, as plain values.
pub enum Effort {
    Nothing,
    Written(Result<(), Seq<char>>),
    Asked {
        applied: Result<Seq<char>, Seq<char>>,
        schema: Result<Seq<char>, Seq<char>>,
        inspected: Result<Seq<char>, Seq<char>>,
    },
}

impl View for Attempt {
    type V = Effort;

    open spec fn view(&self) -> Effort {
        match self {
            Attempt::Nothing => Effort::Nothing,
            Attempt::Written(r) => Effort::Written(var::outcome(*r)),
            Attempt::Asked { applied, schema, inspected } => Effort::Asked {
                applied: said(*applied),
                schema: said(*schema),
                inspected: said(*inspected),
            },
        }
    }
}

/// Whether what came of some work can have come of the work that an object
/// takes.
pub open spec fn suits(step: Step, effort: Effort) -> bool {
    step.action != Action::InSync ==> match step.target {
        Goal::Template { .. } => effort is Written,
        Goal::Resource { .. } => effort is Asked,
        Goal::Broken { .. } => true,
    }
}

/// What a provider says of itself when it is asked for its schema.
pub open spec fn shape_said(
    kind: Seq<char>,
    ran: Result<Seq<char>, Seq<char>>,
) -> Result<provider::Shape, Seq<char>> {
    match provider::answered(kind, "schema"@, ran) {
        Err(e) => Err(e),
        Ok(body) => provider::provided(kind, provider::schema_of(var::document_in(body))),
    }
}

/// The state that a provider says a resource is in.
pub open spec fn state_said(
    kind: Seq<char>,
    ran: Result<Seq<char>, Seq<char>>,
) -> Result<Option<Json>, Seq<char>> {
    match provider::answered(kind, "inspect"@, ran) {
        Err(e) => Err(e),
        Ok(reported) => provider::state_in(reported, var::document_in(reported)),
    }
}

/// What a resource that was applied is still missing.
pub open spec fn shortfall(
    id: Seq<char>,
    properties: Map<Seq<char>, provider::Trait>,
    desired: Map<Seq<char>, Json>,
    reached: Option<Json>,
) -> Result<(), Seq<char>> {
    let remaining = differences(properties, desired, reached);
    if reached is None {
        Err(id + " is still not in the system"@)
    } else if text::listing(remaining.dom()).len() > 0 {
        Err(
            id + " still differs after applying it: "@ + text::join(
                text::listing(remaining.dom()),
                ", "@,
            ),
        )
    } else {
        Ok(())
    }
}

/// Where a resource is once its provider was asked to apply it: the state that
/// it reached, when that is known, and whether it is the one that was asked
/// for.
pub open spec fn reached_by(
    resource: resource::Claim,
    kind: Seq<char>,
    desired: Map<Seq<char>, Json>,
    current: Option<Json>,
    applied: Result<Seq<char>, Seq<char>>,
    shape: Result<provider::Shape, Seq<char>>,
    state: Result<Option<Json>, Seq<char>>,
) -> (Option<Json>, Result<(), Seq<char>>) {
    match provider::answered(kind, "apply"@, applied) {
        Err(e) => (current, Err(e)),
        Ok(_) => match shape {
            Err(e) => (current, Err(e)),
            Ok(shape) => match state {
                Err(e) => (current, Err(e)),
                Ok(reached) => (
                    reached,
                    shortfall(resource::id_of(resource), shape.properties, desired, reached),
                ),
            },
        },
    }
}

/// An object with what came of applying it.
pub open spec fn marked(step: Step, r: Result<(), Seq<char>>) -> Step {
    match r {
        Ok(_) => step,
        Err(e) => Step { error: Some(e), ..step },
    }
}

/// An object once the work that it takes was done, and whether that worked.
pub open spec fn attempted(step: Step, effort: Effort) -> (Step, Result<(), Seq<char>>) {
    if step.action == Action::InSync {
        (step, Ok(()))
    } else {
        match step.target {
            Goal::Broken { error } => (marked(step, Err(error)), Err(error)),
            Goal::Template { .. } => (marked(step, effort->Written_0), effort->Written_0),
            Goal::Resource { resource, provider, desired, current, diff } => {
                let (reached, r) = reached_by(
                    resource,
                    provider.kind,
                    desired,
                    current,
                    effort->applied,
                    shape_said(provider.kind, effort->schema),
                    state_said(provider.kind, effort->inspected),
                );
                let moved = Step {
                    target: Goal::Resource { resource, provider, desired, current: reached, diff },
                    ..step
                };
                (marked(moved, r), r)
            },
        }
    }
}

/// What a resource that was applied is still missing.
fn missing(
    id: &str,
    schema: &Schema,
    desired: &Vec<(String, Datum)>,
    reached: Option<&Datum>,
) -> (r: Result<(), String>)
    ensures
        var::outcome(r) == shortfall(
            id@,
            schema@.properties,
            value::members(desired@),
            match reached {
                Some(d) => Some(d@),
                None => None,
            },
        ),
{
    if reached.is_none() {
        let mut e = id.to_owned();
        e.append(" is still not in the system");
        return Err(e);
    }
    let remaining = difference(schema, desired, reached);
    let keys = value::names(&remaining);
    if keys.len() > 0 {
        let mut e = id.to_owned();
        e.append(" still differs after applying it: ");
        e.append(text::joined(&keys, ", ").as_str());
        return Err(e);
    }
    Ok(())
}

/// Where a resource is once its provider was asked to apply it.
pub fn reach(
    resource: &Resource,
    provider: &Provider,
    desired: &Vec<(String, Datum)>,
    current: Option<Datum>,
    applied: Result<String, String>,
    schema: Result<Schema, String>,
    state: Result<Option<Datum>, String>,
) -> (r: (Option<Datum>, Result<(), String>))
    ensures
        (provider::json_of(r.0), var::outcome(r.1)) == reached_by(
            resource@,
            provider@.kind,
            value::members(desired@),
            provider::json_of(current),
            said(applied),
            provider::shaped(schema),
            provider::found(state),
        ),
{
    if let Err(e) = provider.apply(applied) {
        return (current, Err(e));
    }
    let schema = match schema {
        Ok(schema) => schema,
        Err(e) => {
            return (current, Err(e));
        },
    };
    let reached = match state {
        Ok(reached) => reached,
        Err(e) => {
            return (current, Err(e));
        },
    };
    let r = missing(resource.id().as_str(), &schema, desired, reached.as_ref());
    (reached, r)
}

impl Change {
    /// An object that could not be worked out, kept in the plan so that it is
    /// reported next to everything else.
    pub fn broken(kind: &str, name: &str, id: &str, error: &str) -> (r: Self)
        ensures
            r@ == broken_step(kind@, name@, id@, error@),
    {
        let none: Vec<String> = Vec::new();
        assert(text::texts(none@) =~= Seq::empty());
        Change {
            kind: kind.to_owned(),
            name: name.to_owned(),
            id: id.to_owned(),
            order: provider::DEFAULT_ORDER,
            action: Action::Broken,
            requires: none,
            error: None,
            skipped: None,
            target: Target::Broken { error: error.to_owned() },
        }
    }

    /// The type of the object: `template`, or the type of the resource.
    pub fn kind(&self) -> (r: &str)
        ensures
            r@ == self@.kind,
    {
        self.kind.as_str()
    }

    /// The name that addresses the object.
    pub fn name(&self) -> (r: &str)
        ensures
            r@ == self@.name,
    {
        self.name.as_str()
    }

    /// How a declaration names the object, which is what a requirement is
    /// matched against.
    pub fn id(&self) -> (r: &str)
        ensures
            r@ == self@.id,
    {
        self.id.as_str()
    }

    /// When the object is applied.
    pub fn order(&self) -> (r: i64)
        ensures
            r == self@.order,
    {
        self.order
    }

    pub fn action(&self) -> (r: Action)
        ensures
            r == self@.action,
    {
        self.action
    }

    /// What has to have worked before the object is worth trying.
    pub fn requirements(&self) -> (r: &Vec<String>)
        ensures
            text::texts(r@) == self@.requires,
    {
        &self.requires
    }

    /// The object as deciding a requirement sees it.
    fn requirement(&self) -> (r: Requirement<'_>)
        ensures
            r@ == need_of(self@),
    {
        Requirement {
            id: self.id.as_str(),
            order: self.order,
            requires: self.requires.as_slice(),
            broken: match self.action {
                Action::Broken => true,
                _ => false,
            },
        }
    }

    /// Why applying the object did not work, for as long as it has been tried.
    pub fn error(&self) -> (r: Option<&str>)
        ensures
            self@.error == (match r {
                Some(e) => Some(e@),
                None => None,
            }),
    {
        match &self.error {
            Some(e) => Some(e.as_str()),
            None => None,
        }
    }

    /// The requirement that was not met, for an object that was never tried.
    pub fn skipped(&self) -> (r: Option<&str>)
        ensures
            self@.skipped == (match r {
                Some(e) => Some(e@),
                None => None,
            }),
    {
        match &self.skipped {
            Some(e) => Some(e.as_str()),
            None => None,
        }
    }

    /// Leave the object alone, because a requirement did not work.
    pub fn skip(&mut self, requirement: &str)
        ensures
            final(self)@ == (Step { skipped: Some(requirement@), ..old(self)@ }),
    {
        self.skipped = Some(requirement.to_owned());
    }

    /// The configuration file that the change instantiates, and what goes in
    /// it.
    pub fn instantiated(&self) -> (r: Option<Instantiated<'_>>)
        ensures
            match self@.target {
                Goal::Template { template, path, content, .. } => r is Some && r->Some_0.path@ == path
                    && r->Some_0.template@ == template.source && r->Some_0.content@ == content,
                _ => r is None,
            },
    {
        match &self.target {
            Target::Template { template, path, content, .. } => Some(
                Instantiated {
                    path: path.as_str(),
                    template: template.source(),
                    content: content.as_str(),
                },
            ),
            _ => None,
        }
    }

    /// The resource that the change asserts, and the state it asserts of it.
    pub fn applied(&self) -> (r: Option<Applied<'_>>)
        ensures
            match self@.target {
                Goal::Resource { resource, desired, .. } => r is Some && r->Some_0.id@ == self@.id
                    && r->Some_0.source@ == resource.source && value::members(
                    r->Some_0.desired@,
                ) == desired,
                _ => r is None,
            },
    {
        match &self.target {
            Target::Resource { resource, desired, .. } => Some(
                Applied { id: self.id.as_str(), source: resource.source(), desired },
            ),
            _ => None,
        }
    }

    /// The object as it is at a moment of the run, by what was read of its
    /// source.
    pub fn snapshot(&self, phase: Phase, read: Result<String, String>) -> (r: Result<
        Option<Snapshot>,
        String,
    >)
        ensures
            moment(r) == moment_of(self@, phase, said(read)),
    {
        match &self.target {
            Target::Broken { .. } => Ok(None),
            Target::Template { template, found, content, .. } => match template.content(read) {
                Err(e) => Err(e),
                Ok(written) => {
                    let applied = match phase {
                        Phase::Applied => self.error.is_none() && self.skipped.is_none(),
                        Phase::Found => false,
                    };
                    Ok(
                        Some(
                            Snapshot::Template {
                                target: template.target().to_owned(),
                                template: written,
                                content: if applied {
                                    Some(content.clone())
                                } else {
                                    text_again(found)
                                },
                            },
                        ),
                    )
                },
            },
            Target::Resource { resource, desired, current, .. } => match resource.content(read) {
                Err(e) => Err(e),
                Ok(declared) => Ok(
                    Some(
                        Snapshot::Resource {
                            kind: self.kind.clone(),
                            name: self.name.clone(),
                            order: self.order,
                            declared,
                            desired: value::copied(desired),
                            state: datum_again(current),
                        },
                    ),
                ),
            },
        }
    }

    /// What is going to change, as `key: current -> desired`, or why nothing
    /// can be.  A template is its own content, so it has nothing to summarize.
    pub fn summary(&self) -> (r: String)
        ensures
            r@ == summary_of(self@),
    {
        match &self.target {
            Target::Resource { diff, .. } => tell_all(diff),
            Target::Broken { error } => error.clone(),
            Target::Template { .. } => {
                let r = String::new();
                assert(r@ =~= Seq::empty());
                r
            },
        }
    }

    /// How the object is written down.
    pub fn line(&self) -> (r: String)
        ensures
            r@ == self@.kind + "\t"@ + self@.name,
    {
        let mut r = self.kind.clone();
        r.append("\t");
        r.append(self.name.as_str());
        r
    }

    /// The work that bringing the object to its state takes.
    pub fn work(&self) -> (r: Work<'_>)
        ensures
            if self@.action == Action::InSync {
                r is Nothing
            } else {
                match self@.target {
                    Goal::Broken { .. } => r is Impossible,
                    Goal::Template { path, content, .. } => r is Write && r->path@ == path
                        && r->content@ == content,
                    Goal::Resource { resource, provider, desired, current, diff } => r is Ask
                        && r->provider@ == provider && r->apply@ == json_text(
                        provider::application(resource.name, desired, current, diff),
                    ) && r->inspect@ == json_text(provider::inspection(resource.name, desired)),
                }
            },
    {
        if !self.action.changes() {
            return Work::Nothing;
        }
        match &self.target {
            Target::Broken { .. } => Work::Impossible,
            Target::Template { path, content, .. } => Work::Write {
                path: path.as_str(),
                content: content.as_str(),
            },
            Target::Resource { resource, provider, desired, current, diff } => Work::Ask {
                provider,
                apply: Provider::apply_request(resource.name(), desired, current.as_ref(), diff),
                inspect: Provider::inspect_request(resource.name(), desired),
            },
        }
    }

    /// Take down what came of the work.
    ///
    /// A resource is inspected again after it was applied, because a provider
    /// that exits successfully has not necessarily done anything, and a
    /// difference that survives applying would otherwise come back run after
    /// run without ever being reported.
    pub fn apply(&mut self, attempt: Attempt) -> (r: Result<(), String>)
        requires
            suits(old(self)@, attempt@),
        ensures
            (final(self)@, var::outcome(r)) == attempted(old(self)@, attempt@),
    {
        if !self.action.changes() {
            return Ok(());
        }
        let ghost was = self@;
        let mut target = Target::Broken { error: String::new() };
        std::mem::swap(&mut target, &mut self.target);
        let (target, r) = match target {
            Target::Broken { error } => {
                let e = error.clone();
                (Target::Broken { error }, Err(e))
            },
            Target::Template { template, path, found, content } => {
                let r = match attempt {
                    Attempt::Written(r) => r,
                    _ => Ok(()),
                };
                (Target::Template { template, path, found, content }, r)
            },
            Target::Resource { resource, provider, desired, current, diff } => {
                match attempt {
                    Attempt::Asked { applied, schema, inspected } => {
                        let schema = provider.schema(schema);
                        let state = provider.inspect(inspected);
                        let (current, r) = reach(
                            &resource,
                            &provider,
                            &desired,
                            current,
                            applied,
                            schema,
                            state,
                        );
                        (Target::Resource { resource, provider, desired, current, diff }, r)
                    },
                    _ => (Target::Resource { resource, provider, desired, current, diff }, Ok(())),
                }
            },
        };
        self.target = target;
        if let Err(e) = &r {
            self.error = Some(e.clone());
        }
        r
    }
}

/// A template of a run: what was read of it, and what the file that it
/// instantiates holds, or whether there is one at all where it cannot be read.
pub struct Drawn {
    pub template: Template,
    pub read: Result<String, String>,
    pub found: Result<String, bool>,
}

/// A template of a run, as plain values.
pub struct Sketch {
    pub template: template::Sheet,
    pub read: Result<Seq<char>, Seq<char>>,
    pub found: Result<Seq<char>, bool>,
}

impl View for Drawn {
    type V = Sketch;

    open spec fn view(&self) -> Sketch {
        Sketch {
            template: self.template@,
            read: said(self.read),
            found: match self.found {
                Ok(t) => Ok(t@),
                Err(there) => Err(there),
            },
        }
    }
}

/// Templates of a run, as plain values.
pub open spec fn sketches(s: Seq<Drawn>) -> Seq<Sketch> {
    Seq::new(s.len(), |i: int| s[i]@)
}

/// A resource of a run: what its provider said when it was asked for its
/// schema, what was read of the declaration, and what the provider said when it
/// was asked for the state.
pub struct Observed {
    pub resource: Resource,
    pub schema: Result<String, String>,
    pub read: Result<String, String>,
    pub inspected: Result<String, String>,
}

/// A resource of a run, as plain values.
pub struct Outlook {
    pub resource: resource::Claim,
    pub schema: Result<Seq<char>, Seq<char>>,
    pub read: Result<Seq<char>, Seq<char>>,
    pub inspected: Result<Seq<char>, Seq<char>>,
}

impl View for Observed {
    type V = Outlook;

    open spec fn view(&self) -> Outlook {
        Outlook {
            resource: self.resource@,
            schema: said(self.schema),
            read: said(self.read),
            inspected: said(self.inspected),
        }
    }
}

/// Resources of a run, as plain values.
pub open spec fn outlooks(s: Seq<Observed>) -> Seq<Outlook> {
    Seq::new(s.len(), |i: int| s[i]@)
}

/// What has to happen to a file for it to hold a content.
pub open spec fn file_action(found: Result<Seq<char>, bool>, content: Seq<char>) -> Action {
    match found {
        Ok(current) => if current == content {
            Action::InSync
        } else {
            Action::Update
        },
        Err(there) => if there {
            Action::Update
        } else {
            Action::Create
        },
    }
}

/// What has to happen to a template, by what it renders to.
pub open spec fn template_step(
    root: Seq<char>,
    sheet: template::Sheet,
    found: Result<Seq<char>, bool>,
    rendered: Result<Seq<char>, Seq<char>>,
) -> Step {
    let id = "template/"@ + key_of(root, sheet.target);
    match rendered {
        Err(e) => broken_step("template"@, sheet.target, id, e),
        Ok(content) => Step {
            kind: "template"@,
            name: sheet.target,
            id,
            order: provider::DEFAULT_ORDER,
            action: file_action(found, content),
            requires: Seq::empty(),
            error: None,
            skipped: None,
            target: Goal::Template {
                template: sheet,
                path: sheet.target,
                found: match found {
                    Ok(t) => Some(t),
                    Err(_) => None,
                },
                content,
            },
        },
    }
}

/// What has to happen to a resource to have the state that is desired of it.
pub open spec fn state_action(current: Option<Json>, diff: Map<Seq<char>, Json>) -> Action {
    if current is None {
        Action::Create
    } else if diff.dom() == Set::<Seq<char>>::empty() {
        Action::InSync
    } else {
        Action::Update
    }
}

/// What has to happen to a resource, by what was worked out about it.
pub open spec fn resource_step(
    claim: resource::Claim,
    program: provider::Program,
    shape: provider::Shape,
    intent: resource::Intent,
    desired: Map<Seq<char>, Json>,
    current: Option<Json>,
) -> Step {
    let diff = differences(shape.properties, desired, current);
    Step {
        kind: claim.kind,
        name: claim.name,
        id: resource::id_of(claim),
        order: resource::order_for(shape, intent),
        action: state_action(current, diff),
        requires: intent.requires,
        error: None,
        skipped: None,
        target: Goal::Resource { resource: claim, provider: program, desired, current, diff },
    }
}

/// What has to happen to a resource, or why that cannot be worked out.
pub open spec fn resource_worked_out(
    providers: Map<Seq<char>, provider::Program>,
    outlook: Outlook,
    context: Json,
) -> Result<Step, Seq<char>> {
    let claim = outlook.resource;
    if !providers.dom().contains(claim.kind) {
        Err("There is no provider for "@ + claim.kind + ", use `detc list --type provider`"@)
    } else {
        let program = providers[claim.kind];
        match shape_said(program.kind, outlook.schema) {
            Err(e) => Err(e),
            Ok(shape) => match resource::declaration_of(claim, outlook.read, context) {
                Err(e) => Err(e),
                Ok(intent) => match resource::desired_of(
                    resource::id_of(claim),
                    shape.properties,
                    Ok(intent),
                ) {
                    Err(e) => Err(e),
                    Ok(desired) => match state_said(program.kind, outlook.inspected) {
                        Err(e) => Err(e),
                        Ok(current) => Ok(
                            resource_step(claim, program, shape, intent, desired, current),
                        ),
                    },
                },
            },
        }
    }
}

/// What has to happen to a resource, or that it could not be worked out.
pub open spec fn resource_planned(
    providers: Map<Seq<char>, provider::Program>,
    outlook: Outlook,
    context: Json,
) -> Step {
    match resource_worked_out(providers, outlook, context) {
        Ok(step) => step,
        Err(e) => broken_step(
            outlook.resource.kind,
            outlook.resource.name,
            resource::id_of(outlook.resource),
            e,
        ),
    }
}

/// What has to happen to the templates of a run.
pub open spec fn template_steps(root: Seq<char>, drawn: Seq<Sketch>, context: Json) -> Seq<Step> {
    Seq::new(
        drawn.len(),
        |i: int|
            template_step(
                root,
                drawn[i].template,
                drawn[i].found,
                template::instance(drawn[i].template, drawn[i].read, context),
            ),
    )
}

/// What has to happen to the resources of a run.
pub open spec fn resource_steps(
    providers: Map<Seq<char>, provider::Program>,
    seen: Seq<Outlook>,
    context: Json,
) -> Seq<Step> {
    Seq::new(seen.len(), |i: int| resource_planned(providers, seen[i], context))
}

/// The configuration files that a run is about to write, by their digests.  A
/// template that did not render is left out.
pub open spec fn files_of(root: Seq<char>, steps: Seq<Step>) -> Map<Seq<char>, Json>
    decreases steps.len(),
{
    if steps.len() == 0 {
        Map::empty()
    } else {
        let before = files_of(root, steps.drop_last());
        match steps.last().target {
            Goal::Template { path, content, .. } => before.insert(
                key_of(root, path),
                Json::Text(fingerprint(sha256_of(vstd::utf8::encode_utf8(content)))),
            ),
            _ => before,
        }
    }
}

/// Objects, where each that cannot have what it requires is broken.
pub open spec fn settled(all: Seq<Step>, complete: bool) -> Seq<Step> {
    Seq::new(
        all.len(),
        |i: int|
            match objection(needs_of(all), need_of(all[i]), complete) {
                Some(why) => broken_step(all[i].kind, all[i].name, all[i].id, why),
                None => all[i],
            },
    )
}

/// Whether an object is applied before another: by order, then by type, then by
/// name.
pub open spec fn step_before(a: Step, b: Step) -> bool {
    a.order < b.order || (a.order == b.order && (text::before(a.kind, b.kind) || (a.kind == b.kind
        && text::before(a.name, b.name))))
}

/// The order in which objects are applied.
pub open spec fn schedule() -> spec_fn(Step, Step) -> bool {
    |a: Step, b: Step| step_before(a, b)
}

/// The templates of a run against the namespace that they are rendered with.
pub open spec fn drawn_steps(root: Seq<char>, var: Json, drawn: Option<Seq<Sketch>>) -> Result<
    Seq<Step>,
    Seq<char>,
> {
    match drawn {
        None => Ok(Seq::empty()),
        Some(drawn) => match published_in(var, Map::empty()) {
            Err(e) => Err(e),
            Ok(context) => Ok(template_steps(root, drawn, context)),
        },
    }
}

/// Everything that a run looked at, templates first.
pub open spec fn looked_at(
    root: Seq<char>,
    var: Json,
    providers: Map<Seq<char>, provider::Program>,
    drawn: Option<Seq<Sketch>>,
    seen: Option<Seq<Outlook>>,
) -> Result<Seq<Step>, Seq<char>> {
    match drawn_steps(root, var, drawn) {
        Err(e) => Err(e),
        Ok(first) => match seen {
            None => Ok(first),
            Some(seen) => match published_in(var, files_of(root, first)) {
                Err(e) => Err(e),
                Ok(context) => Ok(first + resource_steps(providers, seen, context)),
            },
        },
    }
}

proof fn lemma_before_chained(a: Seq<char>, b: Seq<char>, c: Seq<char>)
    requires
        !text::before(b, a),
        !text::before(c, b),
    ensures
        !text::before(c, a),
        !text::before(a, c) ==> a == b && b == c,
{
    if a == b {
        if b != c {
            text::lemma_before_total(b, c);
        }
    } else {
        text::lemma_before_total(a, b);
        if b == c {
            text::lemma_before_asymmetric(a, c);
        } else {
            text::lemma_before_total(b, c);
            text::lemma_before_transitive(a, b, c);
            text::lemma_before_asymmetric(a, c);
        }
    }
}

impl Ranked for Change {
    open spec fn precedes(self, other: Self) -> bool {
        step_before(self@, other@)
    }

    proof fn asymmetric(a: Self, b: Self) {
        text::lemma_before_irreflexive(a@.kind);
        text::lemma_before_irreflexive(a@.name);
        if text::before(a@.kind, b@.kind) {
            text::lemma_before_asymmetric(a@.kind, b@.kind);
        }
        if text::before(a@.name, b@.name) {
            text::lemma_before_asymmetric(a@.name, b@.name);
        }
    }

    proof fn chained(a: Self, b: Self, c: Self) {
        if a@.order == b@.order && b@.order == c@.order {
            lemma_before_chained(a@.kind, b@.kind, c@.kind);
            if c@.kind == a@.kind {
                text::lemma_before_irreflexive(a@.kind);
                lemma_before_chained(a@.name, b@.name, c@.name);
            }
        }
    }

    fn before(&self, other: &Self) -> (r: bool) {
        self.order < other.order || (self.order == other.order && (text::less(
            self.kind.as_str(),
            other.kind.as_str(),
        ) || (text::equal(self.kind.as_str(), other.kind.as_str()) && text::less(
            self.name.as_str(),
            other.name.as_str(),
        ))))
    }
}

/// Everything that has to happen for the system to be the way it is declared,
/// in the order in which it has to happen.
pub struct Plan {
    changes: Vec<Change>,
}

impl View for Plan {
    type V = Seq<Step>;

    closed spec fn view(&self) -> Seq<Step> {
        steps(self.changes@)
    }
}

/// A plan that was worked out.
pub open spec fn plan_of(
    r: Result<Plan, String>,
    all: Result<Seq<Step>, Seq<char>>,
    complete: bool,
) -> bool {
    match all {
        Err(e) => r is Err && r->Err_0@ == e,
        Ok(all) => r is Ok && order::sorted_as(settled(all, complete), r->Ok_0@, schedule()),
    }
}

/// What has to happen to a template, by what it renders to.
pub fn template_change(
    root: &str,
    template: &Template,
    found: &Result<String, bool>,
    rendered: Result<String, String>,
) -> (r: Change)
    ensures
        r@ == template_step(
            root@,
            template@,
            match found {
                Ok(t) => Ok(t@),
                Err(there) => Err(*there),
            },
            said(rendered),
        ),
{
    let target = template.target();
    let id = template_id(root, target);
    let content = match rendered {
        Ok(content) => content,
        Err(e) => {
            return Change::broken("template", target, id.as_str(), e.as_str());
        },
    };
    let action = match found {
        Ok(current) => {
            if text::equal(current.as_str(), content.as_str()) {
                Action::InSync
            } else {
                Action::Update
            }
        },
        Err(there) => {
            if *there {
                Action::Update
            } else {
                Action::Create
            }
        },
    };
    let none: Vec<String> = Vec::new();
    assert(text::texts(none@) =~= Seq::empty());
    Change {
        kind: "template".to_owned(),
        name: target.to_owned(),
        id,
        order: provider::DEFAULT_ORDER,
        action,
        requires: none,
        error: None,
        skipped: None,
        target: Target::Template {
            template: Template::new(template.source(), target),
            path: target.to_owned(),
            found: match found {
                Ok(t) => Some(t.clone()),
                Err(_) => None,
            },
            content,
        },
    }
}

/// What has to happen to a resource, by what was worked out about it.
pub fn resource_change(
    resource: &Resource,
    provider: &Provider,
    schema: &Schema,
    declaration: Declaration,
    desired: Vec<(String, Datum)>,
    current: Option<Datum>,
) -> (r: Change)
    ensures
        r@ == resource_step(
            resource@,
            provider@,
            schema@,
            declaration@,
            value::members(desired@),
            provider::json_of(current),
        ),
{
    let diff = difference(schema, &desired, current.as_ref());
    let keys = value::names(&diff);
    let action = if current.is_none() {
        Action::Create
    } else if keys.len() == 0 {
        assert(text::texts(keys@).to_set() =~= Set::empty());
        Action::InSync
    } else {
        assert(text::texts(keys@).to_set().contains(text::texts(keys@)[0]));
        Action::Update
    };
    let order = match declaration.order {
        Some(order) => order,
        None => schema.order(),
    };
    Change {
        kind: resource.kind().to_owned(),
        name: resource.name().to_owned(),
        id: resource.id(),
        order,
        action,
        requires: declaration.requires,
        error: None,
        skipped: None,
        target: Target::Resource {
            resource: Resource::new(resource.kind(), resource.name(), resource.source()),
            provider: Provider::new(provider.kind(), provider.path(), provider.root()),
            desired,
            current,
            diff,
        },
    }
}

/// What has to happen to a resource, or why that cannot be worked out.
fn work_out(providers: &Providers, observed: &Observed, context: &Datum) -> (r: Result<Change, String>)
    ensures
        resource_worked_out(providers@, observed@, context@) == (match r {
            Ok(change) => Ok(change@),
            Err(e) => Err(e@),
        }),
{
    let resource = &observed.resource;
    let provider = match providers.find(resource.kind()) {
        Ok(provider) => provider,
        Err(e) => {
            return Err(e);
        },
    };
    let schema = match provider.schema(said_again(&observed.schema)) {
        Ok(schema) => schema,
        Err(e) => {
            return Err(e);
        },
    };
    let declaration = match resource.declaration(said_again(&observed.read), context) {
        Ok(declaration) => declaration,
        Err(e) => {
            return Err(e);
        },
    };
    let desired = match schema.validate(&declaration.state) {
        Ok(desired) => desired,
        Err(why) => {
            let mut e = "Resource ".to_owned();
            e.append(resource.id().as_str());
            e.append(" is invalid: ");
            e.append(why.as_str());
            return Err(e);
        },
    };
    let current = match provider.inspect(said_again(&observed.inspected)) {
        Ok(current) => current,
        Err(e) => {
            return Err(e);
        },
    };
    Ok(resource_change(resource, provider, &schema, declaration, desired, current))
}

/// The configuration files that a run is about to write, by their digests.
fn published_files(root: &str, changes: &Vec<Change>) -> (r: Vec<(String, Datum)>)
    ensures
        value::members(r@) == files_of(root@, steps(changes@)),
        all_texts(value::members(r@)),
{
    let ghost all = steps(changes@);
    let mut files: Vec<(String, Datum)> = Vec::new();
    let mut i: usize = 0;
    assert(value::members(files@) =~= files_of(root@, all.take(0)));
    while i < changes.len()
        invariant
            i <= changes@.len(),
            all == steps(changes@),
            value::members(files@) == files_of(root@, all.take(i as int)),
            all_texts(value::members(files@)),
        decreases changes@.len() - i,
    {
        proof {
            assert(all.take(i + 1).drop_last() =~= all.take(i as int));
            assert(all.take(i + 1).last() == changes@[i as int]@);
        }
        if let Some(file) = changes[i].instantiated() {
            let key = files_key(root, file.path);
            let mark = digest(file.content.as_bytes());
            value::put(&mut files, key, Datum::String(mark));
        }
        i += 1;
    }
    assert(all.take(i as int) =~= all);
    files
}

impl Plan {
    /// A plan for objects: those that cannot have what they require are
    /// broken, and all of them are put in the order in which they are applied.
    pub fn settle(changes: Vec<Change>, complete: bool) -> (r: Self)
        ensures
            order::sorted_as(settled(steps(changes@), complete), r@, schedule()),
    {
        let ghost all = steps(changes@);
        let mut objects: Vec<Requirement> = Vec::new();
        let n: usize = changes.len();
        let mut i: usize = 0;
        while i < n
            invariant
                i <= n == changes@.len(),
                objects@.len() == i,
                all == steps(changes@),
                forall|j: int| 0 <= j < i ==> (#[trigger] objects@[j])@ == need_of(all[j]),
            decreases n - i,
        {
            objects.push(changes[i].requirement());
            i += 1;
        }
        assert(needs(objects@) =~= needs_of(all));
        let mut marked: Vec<Change> = Vec::new();
        let mut why: Vec<Option<String>> = Vec::new();
        let mut k: usize = 0;
        while k < n
            invariant
                k <= n == objects@.len(),
                all.len() == n,
                needs(objects@) == needs_of(all),
                why@.len() == k,
                forall|j: int|
                    0 <= j < k ==> text::text_of(#[trigger] why@[j]) == objection(
                        needs_of(all),
                        need_of(all[j]),
                        complete,
                    ),
            decreases n - k,
        {
            assert(needs(objects@)[k as int] == objects@[k as int]@);
            assert(needs_of(all)[k as int] == need_of(all[k as int]));
            why.push(find_objection(objects.as_slice(), &objects[k], complete));
            k += 1;
        }
        let mut q: usize = 0;
        for change in it: changes
            invariant
                it.seq() == changes@,
                q == it.index(),
                n == changes@.len() == why@.len(),
                all == steps(changes@),
                steps(marked@) == settled(all, complete).take(q as int),
                forall|j: int|
                    0 <= j < n ==> text::text_of(#[trigger] why@[j]) == objection(
                        needs_of(all),
                        need_of(all[j]),
                        complete,
                    ),
        {
            let ghost had = marked@;
            assert(all[q as int] == change@);
            assert(text::text_of(why@[q as int]) == objection(
                needs_of(all),
                need_of(all[q as int]),
                complete,
            ));
            let kept = match &why[q] {
                Some(why) => Change::broken(
                    change.kind(),
                    change.name(),
                    change.id(),
                    why.as_str(),
                ),
                None => change,
            };
            let ghost one = kept@;
            marked.push(kept);
            proof {
                assert(steps(marked@) =~= steps(had).push(one));
                assert(settled(all, complete).take(q + 1) =~= settled(all, complete).take(
                    q as int,
                ).push(one));
            }
            q += 1;
        }
        assert(settled(all, complete).take(n as int) =~= settled(all, complete));
        let ghost given = marked@;
        let changes = order::arrange(marked);
        proof {
            let view = |c: Change| c@;
            order::lemma_arranged_views(given, changes@, view, schedule());
        }
        Plan { changes }
    }

    /// Work out what has to happen to the templates of a run.
    fn draw(root: &str, var: &Variables, templates: &Vec<Drawn>) -> (r: Result<Vec<Change>, String>)
        ensures
            drawn_steps(root@, var@, Some(sketches(templates@))) == (match r {
                Ok(changes) => Ok(steps(changes@)),
                Err(e) => Err(e@),
            }),
    {
        let context = match unplanned(var) {
            Ok(context) => context,
            Err(e) => {
                return Err(e);
            },
        };
        let ghost want = template_steps(root@, sketches(templates@), context@);
        let mut changes: Vec<Change> = Vec::new();
        let n: usize = templates.len();
        let mut i: usize = 0;
        assert(steps(changes@) =~= want.take(0));
        while i < n
            invariant
                i <= n == templates@.len(),
                want == template_steps(root@, sketches(templates@), context@),
                steps(changes@) == want.take(i as int),
            decreases n - i,
        {
            let drawn = &templates[i];
            assert(sketches(templates@)[i as int] == drawn@);
            let rendered = drawn.template.render(said_again(&drawn.read), context.value());
            let ghost had = changes@;
            let change = template_change(root, &drawn.template, &drawn.found, rendered);
            let ghost one = change@;
            changes.push(change);
            proof {
                assert(steps(changes@) =~= steps(had).push(one));
                assert(want.take(i + 1) =~= want.take(i as int).push(want[i as int]));
                assert(want[i as int] == one);
            }
            i += 1;
        }
        assert(want.take(n as int) =~= want);
        Ok(changes)
    }

    /// The namespace that the declarations of a run are expanded against: the
    /// one of the system, with the configuration files that the run is about to
    /// write.
    pub fn namespace(root: &str, var: &Variables, templates: Option<&Vec<Drawn>>) -> (r: Result<
        Variables,
        String,
    >)
        ensures
            namespace(r) == (match drawn_steps(
                root@,
                var@,
                match templates {
                    Some(t) => Some(sketches(t@)),
                    None => None,
                },
            ) {
                Err(e) => Err(e),
                Ok(first) => published_in(var@, files_of(root@, first)),
            }),
    {
        let changes = match templates {
            Some(templates) => match Plan::draw(root, var, templates) {
                Ok(changes) => changes,
                Err(e) => {
                    return Err(e);
                },
            },
            None => {
                let none: Vec<Change> = Vec::new();
                assert(steps(none@) =~= Seq::empty());
                none
            },
        };
        published(var, published_files(root, &changes))
    }

    /// Work out what the system needs.
    ///
    /// `templates` and `resources` are what was looked at, so that a single
    /// object can be applied without the rest of the system having to be
    /// consistent.  An object that cannot be worked out is part of the plan
    /// rather than the end of it, so that one template that does not render
    /// does not hide what the rest of the system needs.
    pub fn build(
        root: &str,
        var: &Variables,
        providers: &Providers,
        templates: Option<&Vec<Drawn>>,
        resources: Option<&Vec<Observed>>,
    ) -> (r: Result<Self, String>)
        ensures
            plan_of(
                r,
                looked_at(
                    root@,
                    var@,
                    providers@,
                    match templates {
                        Some(t) => Some(sketches(t@)),
                        None => None,
                    },
                    match resources {
                        Some(o) => Some(outlooks(o@)),
                        None => None,
                    },
                ),
                templates is Some && resources is Some,
            ),
    {
        let mut changes = match templates {
            Some(templates) => match Plan::draw(root, var, templates) {
                Ok(changes) => changes,
                Err(e) => {
                    return Err(e);
                },
            },
            None => {
                let none: Vec<Change> = Vec::new();
                assert(steps(none@) =~= Seq::empty());
                none
            },
        };
        let ghost first = steps(changes@);
        if let Some(resources) = resources {
            let context = match published(var, published_files(root, &changes)) {
                Ok(context) => context,
                Err(e) => {
                    return Err(e);
                },
            };
            let ghost want = resource_steps(providers@, outlooks(resources@), context@);
            let n: usize = resources.len();
            let mut i: usize = 0;
            assert(first + want.take(0) =~= first);
            while i < n
                invariant
                    i <= n == resources@.len(),
                    want == resource_steps(providers@, outlooks(resources@), context@),
                    steps(changes@) == first + want.take(i as int),
                decreases n - i,
            {
                let observed = &resources[i];
                assert(outlooks(resources@)[i as int] == observed@);
                let ghost had = changes@;
                let change = match work_out(providers, observed, context.value()) {
                    Ok(change) => change,
                    Err(e) => Change::broken(
                        observed.resource.kind(),
                        observed.resource.name(),
                        observed.resource.id().as_str(),
                        e.as_str(),
                    ),
                };
                let ghost one = change@;
                changes.push(change);
                proof {
                    assert(steps(changes@) =~= steps(had).push(one));
                    assert(want[i as int] == one);
                    assert(first + want.take(i + 1) =~= (first + want.take(i as int)).push(one));
                }
                i += 1;
            }
            assert(want.take(n as int) =~= want);
        }
        Ok(Plan::settle(changes, templates.is_some() && resources.is_some()))
    }

    /// The objects, in the order in which they are applied.
    pub fn changes(&self) -> (r: &Vec<Change>)
        ensures
            steps(r@) == self@,
    {
        &self.changes
    }

    /// Whether nothing has to change at all.
    pub fn is_in_sync(&self) -> (r: bool)
        ensures
            r == (forall|i: int| 0 <= i < self@.len() ==> (#[trigger] self@[i]).action == Action::InSync),
            r == unchanged(self@),
    {
        let mut i: usize = 0;
        while i < self.changes.len()
            invariant
                i <= self.changes@.len(),
                self@ == steps(self.changes@),
                forall|j: int| 0 <= j < i ==> (#[trigger] self@[j]).action == Action::InSync,
            decreases self.changes@.len() - i,
        {
            assert(self@[i as int] == self.changes@[i as int]@);
            if self.changes[i].action().changes() {
                return false;
            }
            i += 1;
        }
        true
    }

    /// Leave an object alone, because a requirement did not work.
    pub fn skip(&mut self, index: usize, requirement: &str)
        requires
            index < old(self)@.len(),
        ensures
            final(self)@ == old(self)@.update(
                index as int,
                Step { skipped: Some(requirement@), ..old(self)@[index as int] },
            ),
    {
        let ghost was = self.changes@;
        let mut change = self.changes.remove(index);
        change.skip(requirement);
        self.changes.insert(index, change);
        assert(self@ =~= steps(was).update(
            index as int,
            Step { skipped: Some(requirement@), ..steps(was)[index as int] },
        ));
    }

    /// Take down what came of the work that an object takes.
    pub fn apply(&mut self, index: usize, attempt: Attempt) -> (r: Result<(), String>)
        requires
            index < old(self)@.len(),
            suits(old(self)@[index as int], attempt@),
        ensures
            final(self)@ == old(self)@.update(
                index as int,
                attempted(old(self)@[index as int], attempt@).0,
            ),
            var::outcome(r) == attempted(old(self)@[index as int], attempt@).1,
    {
        let ghost was = self.changes@;
        let mut change = self.changes.remove(index);
        let r = change.apply(attempt);
        self.changes.insert(index, change);
        assert(self@ =~= steps(was).update(
            index as int,
            attempted(steps(was)[index as int], attempt@).0,
        ));
        r
    }
}

/// The value that a reported state holds under a key, read as the type of its
/// property where it has one that the value can be read as.
pub open spec fn read_value(
    properties: Map<Seq<char>, provider::Trait>,
    reported: Map<Seq<char>, Json>,
    k: Seq<char>,
) -> Json {
    if properties.dom().contains(k) && provider::coerced(properties[k].kind, reported[k]) is Ok {
        provider::coerced(properties[k].kind, reported[k])->Ok_0
    } else {
        reported[k]
    }
}

/// A key of the desired state is missing from the difference only if the
/// reported state holds, under that key, a value that reads as one equal to
/// the desired one; lists are equal when they have the same length and equal
/// elements at every place.
pub proof fn law_what_does_not_differ_is_equal(
    properties: Map<Seq<char>, provider::Trait>,
    desired: Map<Seq<char>, Json>,
    current: Option<Json>,
    k: Seq<char>,
)
    requires
        desired.dom().contains(k),
        !differences(properties, desired, current).dom().contains(k),
    ensures
        current is Some,
        current->0 is Object,
        (current->0)->Object_0.dom().contains(k),
        ({
            let v = read_value(properties, (current->0)->Object_0, k);
            &&& value::alike(v, desired[k])
            &&& value::without_fractions(v) ==> v == desired[k]
            &&& v is Array <==> desired[k] is Array
            &&& v is Array ==> v->Array_0.len() == desired[k]->Array_0.len()
            &&& v is Array ==> forall|i: int|
                0 <= i < v->Array_0.len() ==> value::alike(
                    #[trigger] v->Array_0[i],
                    desired[k]->Array_0[i],
                )
            &&& v is Object <==> desired[k] is Object
            &&& v is Object ==> v->Object_0.dom() == desired[k]->Object_0.dom()
        }),
{
    let v = read_value(properties, (current->0)->Object_0, k);
    value::law_equal_documents_are_equal_throughout(v, desired[k]);
    if value::without_fractions(v) {
        value::law_equal_documents_are_the_same(v, desired[k]);
    }
    if v is Object {
        assert(v->Object_0.dom() =~= desired[k]->Object_0.dom());
    }
}

/// A key of the desired state is in the difference when nothing was reported,
/// when what was reported does not hold it, and when it holds another value;
/// the difference then says both values. No other key is in it.
pub proof fn law_what_differs_is_said(
    properties: Map<Seq<char>, provider::Trait>,
    desired: Map<Seq<char>, Json>,
    current: Option<Json>,
    k: Seq<char>,
)
    ensures
        !desired.dom().contains(k) ==> !differences(properties, desired, current).dom().contains(k),
        desired.dom().contains(k) && (current is None || !(current->0 is Object) || !(
        current->0)->Object_0.dom().contains(k)) ==> {
            &&& differences(properties, desired, current).dom().contains(k)
            &&& differences(properties, desired, current)[k] matches Json::Object(d) && d["current"@]
                == Json::Null && d["desired"@] == desired[k]
        },
        desired.dom().contains(k) && current is Some && current->0 is Object && (
        current->0)->Object_0.dom().contains(k) && !value::alike(
            read_value(properties, (current->0)->Object_0, k),
            desired[k],
        ) ==> {
            &&& differences(properties, desired, current).dom().contains(k)
            &&& differences(properties, desired, current)[k] matches Json::Object(d) && d["current"@]
                == read_value(properties, (current->0)->Object_0, k) && d["desired"@] == desired[k]
        },
        desired.dom().contains(k) && current is Some && current->0 is Object && (
        current->0)->Object_0.dom().contains(k) && value::alike(
            read_value(properties, (current->0)->Object_0, k),
            desired[k],
        ) ==> !differences(properties, desired, current).dom().contains(k),
{
    reveal_strlit("current");
    reveal_strlit("desired");
    assert("current"@[0] != "desired"@[0]);
}

/// A template is in sync if and only if the file was read and holds the
/// rendering, character for character. A file that was read with another
/// content is updated, as is one that could not be read; one that is not
/// there is created.
pub proof fn law_a_template_is_in_sync_when_the_file_is_the_rendering(
    root: Seq<char>,
    sheet: template::Sheet,
    found: Result<Seq<char>, bool>,
    content: Seq<char>,
)
    ensures
        ({
            let step = template_step(root, sheet, found, Ok(content));
            &&& step.action == Action::InSync <==> found is Ok && found->Ok_0.len() == content.len() && (
            forall|i: int| 0 <= i < content.len() ==> #[trigger] found->Ok_0[i] == content[i])
            &&& found is Ok && found->Ok_0 != content ==> step.action == Action::Update
            &&& found == Err::<Seq<char>, bool>(true) ==> step.action == Action::Update
            &&& found == Err::<Seq<char>, bool>(false) ==> step.action == Action::Create
            &&& step.kind == "template"@
            &&& step.name == sheet.target
            &&& step.order == 50
            &&& step.requires.len() == 0
            &&& step.error is None && step.skipped is None
            &&& step.target matches Goal::Template { template, path, found: before, content: after }
                && template == sheet && path == sheet.target && after == content && (before is Some
                <==> found is Ok) && (before is Some ==> before->0 == found->Ok_0)
        }),
{
    if found is Ok && found->Ok_0.len() == content.len() && (forall|i: int|
        0 <= i < content.len() ==> #[trigger] found->Ok_0[i] == content[i]) {
        assert(found->Ok_0 =~= content);
    }
}

/// The same holds of a file alone, whatever it is for.
pub proof fn law_a_file_is_in_sync_when_it_holds_the_content(
    found: Result<Seq<char>, bool>,
    content: Seq<char>,
)
    ensures
        file_action(found, content) == Action::InSync <==> found is Ok && found->Ok_0.len()
            == content.len() && (forall|i: int|
            0 <= i < content.len() ==> #[trigger] found->Ok_0[i] == content[i]),
        found is Ok && file_action(found, content) != Action::InSync ==> file_action(found, content)
            == Action::Update,
        file_action(Err(true), content) == Action::Update,
        file_action(Err(false), content) == Action::Create,
{
    if found is Ok && found->Ok_0.len() == content.len() && (forall|i: int|
        0 <= i < content.len() ==> #[trigger] found->Ok_0[i] == content[i]) {
        assert(found->Ok_0 =~= content);
    }
}

/// A template that does not render is broken, and says why.
pub proof fn law_a_template_that_does_not_render_is_broken(
    root: Seq<char>,
    sheet: template::Sheet,
    found: Result<Seq<char>, bool>,
    e: Seq<char>,
)
    ensures
        ({
            let step = template_step(root, sheet, found, Err(e));
            &&& step.action == Action::Broken
            &&& step.target == Goal::Broken { error: e }
            &&& step.kind == "template"@ && step.name == sheet.target && step.order == 50
            &&& step.error is None && step.skipped is None
        }),
{
}

/// A resource is created when it is absent, is in sync when what is reported
/// of it is equal to everything that is desired, and is updated otherwise.
pub proof fn law_a_resource_is_in_sync_when_nothing_differs(
    claim: resource::Claim,
    program: provider::Program,
    shape: provider::Shape,
    intent: resource::Intent,
    desired: Map<Seq<char>, Json>,
    current: Option<Json>,
)
    ensures
        ({
            let step = resource_step(claim, program, shape, intent, desired, current);
            let same = |k: Seq<char>|
                current->0 is Object && (current->0)->Object_0.dom().contains(k) && value::alike(
                    read_value(shape.properties, (current->0)->Object_0, k),
                    desired[k],
                );
            &&& step.action == Action::Create <==> current is None
            &&& step.action == Action::InSync <==> current is Some && forall|k: Seq<char>| #[trigger]
                desired.dom().contains(k) ==> same(k)
            &&& current is Some && step.action != Action::InSync ==> step.action == Action::Update
            &&& step.kind == claim.kind && step.name == claim.name
            &&& step.requires == intent.requires
            &&& step.error is None && step.skipped is None
            &&& intent.order is Some ==> step.order == intent.order->0
            &&& intent.order is None && shape.order is Some ==> step.order == shape.order->0
            &&& intent.order is None && shape.order is None ==> step.order == 50
        }),
{
    let diff = differences(shape.properties, desired, current);
    let same = |k: Seq<char>|
        current->0 is Object && (current->0)->Object_0.dom().contains(k) && value::alike(
            read_value(shape.properties, (current->0)->Object_0, k),
            desired[k],
        );
    assert forall|k: Seq<char>| current is Some && #[trigger] desired.dom().contains(k) implies (
    diff.dom().contains(k) <==> !same(k)) by {
        law_what_differs_is_said(shape.properties, desired, current, k);
    }
    if current is Some && (forall|k: Seq<char>| #[trigger] desired.dom().contains(k) ==> same(k)) {
        assert(diff.dom() =~= Set::<Seq<char>>::empty()) by {
            assert forall|k: Seq<char>| !diff.dom().contains(k) by {
                if diff.dom().contains(k) {
                    assert(desired.dom().contains(k));
                }
            }
        }
    }
    if current is Some && diff.dom() == Set::<Seq<char>>::empty() {
        assert forall|k: Seq<char>| #[trigger] desired.dom().contains(k) implies same(k) by {
            assert(!diff.dom().contains(k));
        }
    }
}

/// What could not be worked out about a resource is a broken object under its
/// own address; what could be is the step itself.
pub proof fn law_a_resource_that_cannot_be_worked_out_is_broken(
    providers: Map<Seq<char>, provider::Program>,
    outlook: Outlook,
    context: Json,
)
    ensures
        ({
            let step = resource_planned(providers, outlook, context);
            &&& !providers.dom().contains(outlook.resource.kind) ==> step.action == Action::Broken
            &&& outlook.schema is Err ==> step.action == Action::Broken
            &&& outlook.inspected is Err ==> step.action == Action::Broken
            &&& outlook.read is Err ==> step.action == Action::Broken
            &&& step.kind == outlook.resource.kind
            &&& step.name == outlook.resource.name
            &&& step.id == outlook.resource.kind + "/"@ + outlook.resource.name
            &&& step.error is None && step.skipped is None
            &&& step.action == Action::Broken <==> step.target is Broken
        }),
{
}

/// A success is a state that was reached: the provider applied without an
/// error, and what it reported afterwards holds every value that is desired.
pub proof fn law_a_success_reached_the_desired_state(
    step: Step,
    applied: Result<Seq<char>, Seq<char>>,
    schema: Result<Seq<char>, Seq<char>>,
    inspected: Result<Seq<char>, Seq<char>>,
    k: Seq<char>,
)
    requires
        step.action != Action::InSync,
        step.target is Resource,
        step.error is None,
        step.target->desired.dom().finite(),
        attempted(step, Effort::Asked { applied, schema, inspected }).1 is Ok,
    ensures
        applied is Ok,
        schema is Ok,
        inspected is Ok,
        ({
            let after = attempted(step, Effort::Asked { applied, schema, inspected }).0;
            let shape = shape_said(step.target->provider.kind, schema);
            &&& after.error is None
            &&& shape is Ok
            &&& after.target is Resource
            &&& after.target->Resource_current is Some
            &&& step.target->desired.dom().contains(k) ==> {
                let reached = (after.target->Resource_current)->0;
                &&& reached is Object
                &&& reached->Object_0.dom().contains(k)
                &&& value::alike(
                    read_value(shape->Ok_0.properties, reached->Object_0, k),
                    step.target->desired[k],
                )
            }
        }),
{
    let desired = step.target->desired;
    let kind = step.target->provider.kind;
    let properties = shape_said(kind, schema)->Ok_0.properties;
    let reached = state_said(kind, inspected)->Ok_0;
    let remaining = differences(properties, desired, reached);
    assert(remaining.dom().subset_of(desired.dom()));
    vstd::set_lib::lemma_set_subset_finite(desired.dom(), remaining.dom());
    text::lemma_listing_stands(remaining.dom());
    if desired.dom().contains(k) {
        if remaining.dom().contains(k) {
            assert(text::listing(remaining.dom()).to_set().contains(k));
        }
        law_what_does_not_differ_is_equal(properties, desired, reached, k);
    }
}

/// An attempt is recorded as failed when it failed and only then; an object
/// that is in sync is left alone, and a broken one always fails.
pub proof fn law_a_failure_is_recorded(step: Step, effort: Effort)
    requires
        step.error is None,
        suits(step, effort),
    ensures
        attempted(step, effort).0.error is Some <==> attempted(step, effort).1 is Err,
        attempted(step, effort).1 matches Err(e) ==> attempted(step, effort).0.error == Some(e),
        step.action == Action::InSync ==> attempted(step, effort).1 is Ok && attempted(
            step,
            effort,
        ).0 == step,
        step.action != Action::InSync && step.target is Broken ==> attempted(step, effort).1 == Err::<
            (),
            Seq<char>,
        >(step.target->error),
        step.action != Action::InSync && step.target is Template ==> attempted(step, effort).1
            == effort->Written_0,
        step.action != Action::InSync && step.target is Resource && effort->applied is Err
            ==> attempted(step, effort).1 is Err && attempted(step, effort).0.target == step.target,
        attempted(step, effort).0.id == step.id,
        attempted(step, effort).0.kind == step.kind,
        attempted(step, effort).0.name == step.name,
        attempted(step, effort).0.order == step.order,
        attempted(step, effort).0.action == step.action,
        attempted(step, effort).0.skipped == step.skipped,
{
}

/// A resource that is still not there after it was applied has failed, and so
/// has one that still differs.
pub proof fn law_a_shortfall_is_a_failure(
    id: Seq<char>,
    properties: Map<Seq<char>, provider::Trait>,
    desired: Map<Seq<char>, Json>,
    reached: Option<Json>,
    k: Seq<char>,
)
    requires
        desired.dom().finite(),
    ensures
        reached is None ==> shortfall(id, properties, desired, reached) is Err,
        desired.dom().contains(k) && differences(properties, desired, reached).dom().contains(k)
            ==> shortfall(id, properties, desired, reached) is Err,
        reached is Some && differences(properties, desired, reached).dom()
            == Set::<Seq<char>>::empty() ==> shortfall(id, properties, desired, reached) is Ok,
{
    let remaining = differences(properties, desired, reached);
    assert(remaining.dom().subset_of(desired.dom()));
    vstd::set_lib::lemma_set_subset_finite(desired.dom(), remaining.dom());
    text::lemma_listing_stands(remaining.dom());
    let all = text::listing(remaining.dom());
    if remaining.dom().contains(k) {
        assert(all.to_set().contains(k));
    }
    if all.len() > 0 {
        assert(all.to_set().contains(all[0]));
    }
}

/// An object is found by its address: the first that has it.
proof fn lemma_named(objects: Seq<Need>, id: Seq<char>, n: nat)
    ensures
        match named_from(objects, id, n) {
            Some(i) => n <= i < objects.len() && objects[i].id == id && forall|j: int|
                n <= j < i ==> (#[trigger] objects[j]).id != id,
            None => forall|j: int| n <= j < objects.len() ==> (#[trigger] objects[j]).id != id,
        },
    decreases objects.len() - n,
{
    if n < objects.len() && objects[n as int].id != id {
        lemma_named(objects, id, n + 1);
    }
}

/// An object whose requirements are all declared once and come earlier, or are
/// broken themselves, is left as it is planned; one that requires what is not
/// declared, or what does not come earlier, is broken.
pub proof fn law_an_object_stands_when_its_requirements_do(
    objects: Seq<Need>,
    object: Need,
    complete: bool,
    k: int,
    j: int,
)
    requires
        !object.broken,
        0 <= k < object.requires.len(),
    ensures
        complete && (forall|i: int| 0 <= i < objects.len() ==> (#[trigger] objects[i]).id
            != object.requires[k]) ==> objection(objects, object, complete) is Some,
        0 <= j < objects.len() && objects[j].id == object.requires[k] && (forall|i: int|
            0 <= i < objects.len() && i != j ==> (#[trigger] objects[i]).id != objects[j].id)
            && !objects[j].broken && objects[j].order >= object.order ==> objection(
            objects,
            object,
            complete,
        ) is Some,
        (forall|q: int|
            0 <= q < object.requires.len() ==> exists|i: int|
                0 <= i < objects.len() && (#[trigger] objects[i]).id == #[trigger] object.requires[q])
            && (forall|i: int|
            0 <= i < objects.len() ==> (#[trigger] objects[i]).broken || objects[i].order
                < object.order || !object.requires.contains(objects[i].id)) ==> objection(
            objects,
            object,
            complete,
        ) is None,
{
    let why = reasons(objects, object, complete);
    let id = object.requires[k];
    text::law_the_first_complaint_is_given(object.requires, why);
    lemma_named(objects, id, 0);
    if objection(objects, object, complete) is None {
        assert(why(object.requires[k]) is None);
    }
    if (forall|q: int|
        0 <= q < object.requires.len() ==> exists|i: int|
            0 <= i < objects.len() && (#[trigger] objects[i]).id == #[trigger] object.requires[q]) && (
    forall|i: int|
        0 <= i < objects.len() ==> (#[trigger] objects[i]).broken || objects[i].order < object.order
            || !object.requires.contains(objects[i].id)) {
        assert forall|q: int| 0 <= q < object.requires.len() implies why(
            #[trigger] object.requires[q],
        ) is None by {
            let one = object.requires[q];
            lemma_named(objects, one, 0);
            let i = choose|i: int| 0 <= i < objects.len() && (#[trigger] objects[i]).id == one;
            assert(named(objects, one) is Some);
            let at = named(objects, one)->0;
            assert(objects[at].id == one);
            assert(object.requires.contains(one));
        }
    }
}

/// What is settled is what was planned, in the same places and under the same
/// addresses, but for the objects whose requirements do not stand, which are
/// broken.
pub proof fn law_settling_only_breaks(all: Seq<Step>, complete: bool, i: int)
    requires
        0 <= i < all.len(),
    ensures
        settled(all, complete).len() == all.len(),
        settled(all, complete)[i].id == all[i].id,
        settled(all, complete)[i].kind == all[i].kind,
        settled(all, complete)[i].name == all[i].name,
        objection(needs_of(all), need_of(all[i]), complete) is None ==> settled(all, complete)[i]
            == all[i],
        objection(needs_of(all), need_of(all[i]), complete) matches Some(why) ==> {
            &&& settled(all, complete)[i].action == Action::Broken
            &&& settled(all, complete)[i].target == Goal::Broken { error: why }
        },
        all[i].action == Action::Broken ==> settled(all, complete)[i] == all[i],
        need_of(all[i]).order == all[i].order,
        need_of(all[i]).id == all[i].id,
        need_of(all[i]).requires == all[i].requires,
        need_of(all[i]).broken <==> all[i].action == Action::Broken,
{
}

/// The steps of a plan come by their order, then by their type, and then by
/// their name.
pub proof fn law_a_plan_goes_by_order(
    r: Result<Plan, String>,
    all: Seq<Step>,
    complete: bool,
    p: int,
    q: int,
)
    requires
        plan_of(r, Ok(all), complete),
        0 <= p < q < all.len(),
    ensures
        r is Ok,
        r->Ok_0@.len() == all.len(),
        r->Ok_0@[p].order <= r->Ok_0@[q].order,
        r->Ok_0@[p].order == r->Ok_0@[q].order ==> r->Ok_0@[p].kind == r->Ok_0@[q].kind
            || text::before(r->Ok_0@[p].kind, r->Ok_0@[q].kind),
        r->Ok_0@[p].order == r->Ok_0@[q].order && r->Ok_0@[p].kind == r->Ok_0@[q].kind
            ==> r->Ok_0@[p].name == r->Ok_0@[q].name || text::before(
            r->Ok_0@[p].name,
            r->Ok_0@[q].name,
        ),
{
    let plan = r->Ok_0@;
    let (from, to) = choose|from: Seq<int>, to: Seq<int>|
        order::sorts(settled(all, complete), plan, schedule(), from, to);
    assert(order::sorts(settled(all, complete), plan, schedule(), from, to));
    assert(from[p] != from[q]);
    let a = plan[p];
    let b = plan[q];
    assert(!schedule()(b, a));
    if a.kind != b.kind {
        text::lemma_before_total(a.kind, b.kind);
    }
    if a.name != b.name {
        text::lemma_before_total(a.name, b.name);
    }
}

/// Every object is planned, and nothing else is.
pub proof fn law_a_plan_holds_every_object(
    r: Result<Plan, String>,
    all: Seq<Step>,
    complete: bool,
    i: int,
)
    requires
        plan_of(r, Ok(all), complete),
        0 <= i < all.len(),
    ensures
        r is Ok,
        r->Ok_0@.contains(settled(all, complete)[i]),
        settled(all, complete).contains(r->Ok_0@[i]),
{
    let plan = r->Ok_0@;
    let s = settled(all, complete);
    let (from, to) = choose|from: Seq<int>, to: Seq<int>|
        order::sorts(s, plan, schedule(), from, to);
    assert(order::sorts(s, plan, schedule(), from, to));
    assert(from[to[i]] == i);
    assert(plan[to[i]] == s[from[to[i]]]);
    assert(plan[i] == s[from[i]]);
}

/// The templates are worked out first, each in its place, and the resources
/// behind them; what the templates render to is published to the resources.
pub proof fn law_resources_see_what_templates_render_to(
    root: Seq<char>,
    var: Json,
    providers: Map<Seq<char>, provider::Program>,
    drawn: Seq<Sketch>,
    seen: Seq<Outlook>,
    i: int,
)
    requires
        looked_at(root, var, providers, Some(drawn), Some(seen)) is Ok,
    ensures
        ({
            let all = looked_at(root, var, providers, Some(drawn), Some(seen))->Ok_0;
            &&& all.len() == drawn.len() + seen.len()
            &&& 0 <= i < drawn.len() ==> all[i] == template_step(
                root,
                drawn[i].template,
                drawn[i].found,
                template::instance(
                    drawn[i].template,
                    drawn[i].read,
                    published_in(var, Map::empty())->Ok_0,
                ),
            )
            &&& 0 <= i < seen.len() ==> all[drawn.len() + i] == resource_planned(
                providers,
                seen[i],
                published_in(var, files_of(root, all.take(drawn.len() as int)))->Ok_0,
            )
        }),
        looked_at(root, var, providers, None, Some(seen)) is Ok,
        looked_at(root, var, providers, None, Some(seen))->Ok_0.len() == seen.len(),
        looked_at(root, var, providers, Some(drawn), None) is Ok,
        looked_at(root, var, providers, Some(drawn), None)->Ok_0 == looked_at(
            root,
            var,
            providers,
            Some(drawn),
            Some(seen),
        )->Ok_0.take(drawn.len() as int),
{
    let all = looked_at(root, var, providers, Some(drawn), Some(seen))->Ok_0;
    let first = drawn_steps(root, var, Some(drawn))->Ok_0;
    assert(all.take(drawn.len() as int) =~= first);
}

/// What is published stands in the namespace under `detc.files`, and nothing
/// else of the namespace is changed by it.
pub proof fn law_files_are_published_beside_the_rest(
    m: Map<Seq<char>, Json>,
    files: Map<Seq<char>, Json>,
    k: Seq<char>,
)
    ensures
        published_in(Json::Object(m), files) matches Ok(Json::Object(z)) && {
            &&& z.dom().contains("detc"@)
            &&& z["detc"@] is Object
            &&& z["detc"@]->Object_0.dom().contains("files"@)
            &&& z["detc"@]->Object_0["files"@] == Json::Object(files)
            &&& k != "detc"@ ==> (z.dom().contains(k) <==> m.dom().contains(k))
            &&& k != "detc"@ && m.dom().contains(k) ==> z[k] == m[k]
            &&& m.dom().contains("detc"@) && m["detc"@] is Object && k != "files"@ ==> {
                &&& z["detc"@]->Object_0.dom().contains(k) <==> m["detc"@]->Object_0.dom().contains(k)
                &&& m["detc"@]->Object_0.dom().contains(k) ==> z["detc"@]->Object_0[k]
                    == m["detc"@]->Object_0[k]
            }
        },
{
}

/// The digest of every template that renders is published under the path of
/// its file below the root, and the digest of the later one where two share a
/// path.
pub proof fn law_every_rendering_is_published(root: Seq<char>, steps: Seq<Step>, i: int)
    requires
        0 <= i < steps.len(),
        steps[i].target is Template,
        forall|j: int|
            i < j < steps.len() && (#[trigger] steps[j]).target is Template ==> key_of(
                root,
                steps[j].target->path,
            ) != key_of(root, steps[i].target->path),
    ensures
        files_of(root, steps).dom().contains(key_of(root, steps[i].target->path)),
        files_of(root, steps)[key_of(root, steps[i].target->path)] == Json::Text(
            "sha256:"@ + text::hex(
                sha256_of(vstd::utf8::encode_utf8(steps[i].target->Template_content)),
            ),
        ),
    decreases steps.len(),
{
    let less = steps.drop_last();
    if i < less.len() {
        assert(less[i] == steps[i]);
        assert forall|j: int|
            i < j < less.len() && (#[trigger] less[j]).target is Template implies key_of(
            root,
            less[j].target->path,
        ) != key_of(root, less[i].target->path) by {
            assert(less[j] == steps[j]);
        }
        law_every_rendering_is_published(root, less, i);
        let last = steps[steps.len() - 1];
        if last.target is Template {
            assert(key_of(root, last.target->path) != key_of(root, steps[i].target->path));
        }
    }
}

/// What a run found of a file is what it held before, what a run left is the
/// rendering where the step was carried out and what was found where it was
/// not.
pub proof fn law_a_moment_is_what_the_file_held(step: Step, written: Seq<char>)
    requires
        step.target is Template,
    ensures
        moment_of(step, Phase::Found, Ok(written)) matches Ok(Some(Moment::Template { target, template, content }))
            && target == step.target->template.target && template == written && content
            == step.target->Template_found,
        moment_of(step, Phase::Applied, Ok(written)) matches Ok(Some(Moment::Template { target, template, content }))
            && target == step.target->template.target && template == written && content == (
        if step.error is None && step.skipped is None {
            Some(step.target->Template_content)
        } else {
            step.target->Template_found
        }),
{
}

/// What is recorded of a resource is its declaration, the state that is
/// desired of it and the state that was last reported; nothing is recorded of
/// a broken object.
pub proof fn law_a_moment_is_what_was_reported(step: Step, phase: Phase, declared: Seq<char>)
    ensures
        step.target is Broken ==> moment_of(step, phase, Ok(declared)) == Ok::<
            Option<Moment>,
            Seq<char>,
        >(None),
        step.target is Resource ==> moment_of(step, phase, Ok(declared)) == Ok::<
            Option<Moment>,
            Seq<char>,
        >(
            Some(
                Moment::Resource {
                    kind: step.kind,
                    name: step.name,
                    order: step.order,
                    declared,
                    desired: step.target->desired,
                    state: step.target->Resource_current,
                },
            ),
        ),
{
}

/// What is going to happen and what has happened are said in these words.
pub proof fn law_actions_are_said_in_these_words()
    ensures
        planned_text(Action::InSync) == "ok"@,
        planned_text(Action::Create) == "create"@,
        planned_text(Action::Update) == "update"@,
        planned_text(Action::Broken) == "error"@,
        taken_text(Action::InSync) == "ok"@,
        taken_text(Action::Create) == "created"@,
        taken_text(Action::Update) == "updated"@,
        taken_text(Action::Broken) == "error"@,
{
}

/// A difference is told with the key, the value that is there and the value
/// that is desired, in this order.
pub proof fn law_a_difference_is_told(key: Seq<char>, m: Map<Seq<char>, Json>, desired: Json)
    ensures
        m.dom().contains(key) ==> told(key, difference_at(m, key, desired)) == key + ": "@ + json_text(
            m[key],
        ) + " -> "@ + json_text(desired),
        !m.dom().contains(key) ==> told(key, difference_at(m, key, desired)) == key + ": "@
            + json_text(Json::Null) + " -> "@ + json_text(desired),
{
    reveal_strlit("current");
    reveal_strlit("desired");
    assert("current"@[0] != "desired"@[0]);
}

/// What a provider says of its schema and of a resource is read as a document,
/// and a provider that fails says nothing of either.
pub proof fn law_what_a_provider_says_is_read(kind: Seq<char>, body: Seq<char>, e: Seq<char>)
    ensures
        shape_said(kind, Err(e)) is Err,
        state_said(kind, Err(e)) is Err,
        shape_said(kind, Ok(body)) is Ok <==> var::document_in(body) is Ok && provider::schema_in(
            var::document_in(body)->Ok_0,
        ) is Ok,
        shape_said(kind, Ok(body)) matches Ok(shape) ==> provider::schema_in(
            var::document_in(body)->Ok_0,
        ) == Ok::<provider::Shape, Seq<char>>(shape),
        text::trim(body).len() == 0 ==> state_said(kind, Ok(body)) == Ok::<Option<Json>, Seq<char>>(None),
        text::trim(body).len() > 0 && var::document_in(body) is Ok ==> state_said(kind, Ok(body)) == Ok::<
            Option<Json>,
            Seq<char>,
        >(
            if var::document_in(body)->Ok_0 is Null {
                None
            } else {
                Some(var::document_in(body)->Ok_0)
            },
        ),
{
}

/// A file is known by its path below the root.
pub proof fn law_a_file_is_known_below_the_root(root: Seq<char>, rest: Seq<char>)
    requires
        root.len() > 0,
        path::is_plain(rest),
    ensures
        key_of(root, path::joined(root, rest)) == rest,
        forall|path: Seq<char>|
            path::below(path, root) is None ==> #[trigger] key_of(root, path) == path,
{
    path::law_what_is_joined_is_found_below(root, rest);
}

/// A fingerprint is the digest in base sixteen behind the name of its kind.
pub proof fn law_a_fingerprint_names_its_kind(digest: Seq<u8>)
    ensures
        fingerprint(digest).len() == 7 + 2 * digest.len(),
        text::begins(fingerprint(digest), "sha256:"@),
        text::without_prefix(fingerprint(digest), "sha256:"@) == Some(text::hex(digest)),
{
    reveal_strlit("sha256:");
    text::law_a_prefix_is_taken_off("sha256:"@, text::hex(digest), fingerprint(digest));
    if digest.len() > 0 {
        text::law_hex_is_two_digits_a_byte(digest, 0);
    } else {
        assert(text::hex(digest).len() == 0);
    }
}

/// A step is said by what separates it from what is desired, a broken one by
/// its error, and a template by nothing.
pub proof fn law_a_step_is_summed_up(step: Step, k: Seq<char>, v: Json)
    ensures
        step.target is Template ==> summary_of(step).len() == 0,
        step.target is Broken ==> summary_of(step) == step.target->error,
        step.target is Resource && step.target->diff == Map::<Seq<char>, Json>::empty() ==> summary_of(
            step,
        ).len() == 0,
        step.target is Resource && step.target->diff == Map::<Seq<char>, Json>::empty().insert(k, v)
            ==> summary_of(step) == told(k, v),
{
    let none = Map::<Seq<char>, Json>::empty();
    let one = none.insert(k, v);
    text::lemma_listing_stands(none.dom());
    text::lemma_listing_stands(one.dom());
    let a = text::listing(none.dom());
    let b = text::listing(one.dom());
    if a.len() > 0 {
        assert(a.to_set().contains(a[0]));
    }
    assert(b.to_set().contains(k));
    assert forall|i: int| 0 <= i < b.len() implies b[i] == k by {
        assert(b.to_set().contains(b[i]));
    }
    if b.len() > 1 {
        assert(text::before(b[0], b[1]));
        text::lemma_before_irreflexive(k);
    }
    let all = Seq::new(b.len(), |i: int| told(b[i], one[b[i]]));
    assert(all =~= seq![told(k, v)]);
}

/// An object that cannot be worked out is broken, under its own address, and
/// keeps why.
pub proof fn law_a_broken_object_keeps_its_address(
    kind: Seq<char>,
    name: Seq<char>,
    id: Seq<char>,
    e: Seq<char>,
)
    ensures
        ({
            let step = broken_step(kind, name, id, e);
            &&& step.kind == kind && step.name == name && step.id == id
            &&& step.action == Action::Broken
            &&& step.target == (Goal::Broken { error: e })
            &&& step.order == 50
            &&& step.requires.len() == 0
            &&& step.error is None && step.skipped is None
            &&& need_of(step).broken
        }),
{
}

/// Whether a plan changes nothing.
pub open spec fn unchanged(plan: Seq<Step>) -> bool {
    forall|i: int| 0 <= i < plan.len() ==> !is_change((#[trigger] plan[i]).action)
}

/// A plan changes nothing when none of its steps does.
pub proof fn law_a_plan_is_in_sync_when_every_step_is(plan: Seq<Step>, step: Step)
    ensures
        unchanged(Seq::empty()),
        unchanged(plan.push(step)) <==> unchanged(plan) && step.action == Action::InSync,
{
    let more = plan.push(step);
    if unchanged(more) {
        assert forall|i: int| 0 <= i < plan.len() implies !is_change((#[trigger] plan[i]).action) by {
            assert(more[i] == plan[i]);
        }
        assert(!is_change(more[plan.len() as int].action));
    }
    if unchanged(plan) && step.action == Action::InSync {
        assert forall|i: int| 0 <= i < more.len() implies !is_change((#[trigger] more[i]).action) by {
            if i < plan.len() {
                assert(more[i] == plan[i]);
            }
        }
    }
}

/// A resource whose provider is installed and says its schema and the state,
/// and whose declaration is valid, is planned by the state that is desired and
/// the state that was reported.
pub proof fn law_a_resource_is_planned_by_its_two_states(
    providers: Map<Seq<char>, provider::Program>,
    outlook: Outlook,
    context: Json,
)
    ensures
        ({
            let claim = outlook.resource;
            let program = providers[claim.kind];
            let shape = shape_said(program.kind, outlook.schema);
            let intent = resource::declaration_of(claim, outlook.read, context);
            let state = state_said(program.kind, outlook.inspected);
            let sound = providers.dom().contains(claim.kind) && shape is Ok && intent is Ok
                && provider::validated(shape->Ok_0.properties, intent->Ok_0.state) is Ok && state is Ok;
            let step = resource_planned(providers, outlook, context);
            &&& sound ==> step == resource_step(
                claim,
                program,
                shape->Ok_0,
                intent->Ok_0,
                provider::validated(shape->Ok_0.properties, intent->Ok_0.state)->Ok_0,
                state->Ok_0,
            )
            &&& !sound ==> step.action == Action::Broken
        }),
{
}

/// What is asked of the provider of a resource is what is desired of it, what
/// was reported and what separates the two.
pub proof fn law_a_step_holds_its_two_states(
    claim: resource::Claim,
    program: provider::Program,
    shape: provider::Shape,
    intent: resource::Intent,
    desired: Map<Seq<char>, Json>,
    current: Option<Json>,
)
    ensures
        resource_step(claim, program, shape, intent, desired, current).target == (Goal::Resource {
            resource: claim,
            provider: program,
            desired,
            current,
            diff: differences(shape.properties, desired, current),
        }),
        resource_step(claim, program, shape, intent, desired, current).id == claim.kind + "/"@
            + claim.name,
{
}

} // verus!
