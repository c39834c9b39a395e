//! The variables of the system.
//!
//! The namespace is one document, put together from what the probes report
//! and from the documents that the distribution and the administrator wrote.
//! Its values are addressed with a dotted key, like `system.network.mtu`.

use vstd::prelude::*;

use crate::document;
use crate::path;
use crate::text;
use crate::value;
use crate::value::{Datum, Json};

verus! {

/// The variable documents that the administrator owns.
pub const USER_VARIABLES_NAME: &'static str = "detc/variables/user";

/// The variable documents that the distribution ships.
pub const SYSTEM_VARIABLES_NAME: &'static str = "detc/variables/system";

/// The member with which a document says how it is merged.
pub const MERGE_KEY: &'static str = "_merge";

/// Search prefixes for the probes, from the lowest to the highest priority: what
/// the distribution ships, what is injected during the first boot, and what the
/// administrator installs.
pub fn probe_prefixes() -> (r: Vec<&'static str>)
    ensures
        r@ == seq!["usr/libexec", "run/lib", "var/lib"],
{
    let mut r: Vec<&'static str> = Vec::new();
    r.push("usr/libexec");
    r.push("run/lib");
    r.push("var/lib");
    r
}

/// What answers for a key that no document sets.
pub const PROBED: &'static str = "a probe";

/// Where a variable that is set is kept: until the next boot, or for good.
#[derive(Clone, Copy, Debug, PartialEq, Eq, Structural)]
pub enum Store {
    Runtime,
    Persisted,
}

impl Store {
    /// The drop-in directory of the store, relative to the root.
    pub open spec fn dir_text(self) -> Seq<char> {
        match self {
            Store::Runtime => "run/detc/variables/user.d"@,
            Store::Persisted => "etc/detc/variables/user.d"@,
        }
    }

    /// The number that the drop-ins of the store are ordered by.
    pub open spec fn order_text(self) -> Seq<char> {
        match self {
            Store::Runtime => "95"@,
            Store::Persisted => "90"@,
        }
    }

    /// The store that a run writes to.
    pub fn of(persist: bool) -> (r: Self)
        ensures
            r == (if persist {
                Store::Persisted
            } else {
                Store::Runtime
            }),
    {
        if persist {
            Store::Persisted
        } else {
            Store::Runtime
        }
    }

    /// The drop-in directory of the store, relative to the root.
    pub fn dir(self) -> (r: &'static str)
        ensures
            r@ == self.dir_text(),
    {
        match self {
            Store::Runtime => "run/detc/variables/user.d",
            Store::Persisted => "etc/detc/variables/user.d",
        }
    }

    /// The number that the drop-ins of the store are ordered by.
    pub fn order(self) -> (r: &'static str)
        ensures
            r@ == self.order_text(),
    {
        match self {
            Store::Runtime => "95",
            Store::Persisted => "90",
        }
    }
}

/// How a document is merged into the namespace.
#[derive(Clone, Copy, Debug, PartialEq, Eq, Structural)]
pub enum Merge {
    /// Every top level member replaces the one of the namespace.
    Replace,
    /// Objects are merged, and anything else is replaced.
    Partial,
    /// Objects are merged, and arrays are put one after the other.
    Full,
}

/// The strategy of a document that does not declare one.
pub const DEFAULT_MERGE: Merge = Merge::Partial;

/// The name of a strategy.
pub open spec fn merge_name(strategy: Merge) -> Seq<char> {
    match strategy {
        Merge::Replace => "replace"@,
        Merge::Partial => "partial"@,
        Merge::Full => "full"@,
    }
}

/// The strategy that a name names.
pub open spec fn merge_named(name: Seq<char>) -> Result<Merge, Seq<char>> {
    if name == "replace"@ {
        Ok(Merge::Replace)
    } else if name == "partial"@ {
        Ok(Merge::Partial)
    } else if name == "full"@ {
        Ok(Merge::Full)
    } else {
        Err("Unknown merge strategy "@ + name + ", use replace, partial or full"@)
    }
}

/// A document merged into another with a strategy.
pub open spec fn merged(a: Json, b: Json, strategy: Merge) -> Json {
    match strategy {
        Merge::Replace => value::overlaid(a, b),
        Merge::Partial => value::patched(a, b),
        Merge::Full => value::combined(a, b),
    }
}

/// The outcome of a fallible function, with its message as text.
pub open spec fn outcome<T>(r: Result<T, String>) -> Result<T, Seq<char>> {
    match r {
        Ok(v) => Ok(v),
        Err(e) => Err(e@),
    }
}

impl Merge {
    /// The strategy that a name names.
    pub fn from_str(name: &str) -> (r: Result<Merge, String>)
        ensures
            outcome(r) == merge_named(name@),
    {
        if text::equal(name, "replace") {
            Ok(Merge::Replace)
        } else if text::equal(name, "partial") {
            Ok(Merge::Partial)
        } else if text::equal(name, "full") {
            Ok(Merge::Full)
        } else {
            let mut e = "Unknown merge strategy ".to_owned();
            e.append(name);
            e.append(", use replace, partial or full");
            Err(e)
        }
    }

    /// The name of the strategy.
    pub fn name(self) -> (r: &'static str)
        ensures
            r@ == merge_name(self),
    {
        match self {
            Merge::Replace => "replace",
            Merge::Partial => "partial",
            Merge::Full => "full",
        }
    }
}

/// Every strategy is named by its own name.
pub proof fn law_merge_name_is_read_back(strategy: Merge)
    ensures
        merge_named(merge_name(strategy)) == Ok::<Merge, Seq<char>>(strategy),
{
    reveal_strlit("replace");
    reveal_strlit("partial");
    reveal_strlit("full");
    assert("replace"@[0] != "partial"@[0]);
    assert("full"@[0] != "partial"@[0]);
    assert("full"@[0] != "replace"@[0]);
}

/// The name of the tree that the probes of a category are in.
pub fn probes_name(category: &str) -> (r: String)
    ensures
        r@ == "detc/probes/"@ + category@,
{
    let mut r = "detc/probes/".to_owned();
    r.append(category);
    r
}

/// A complaint of several lines, indented below the format it is about.
pub open spec fn indented(e: Seq<char>) -> Seq<char> {
    text::join(text::split(e, '\n'), "\n    "@)
}

/// The message for a text that is no document in any format.
pub open spec fn unrecognized(json: Seq<char>, yaml: Seq<char>, toml: Seq<char>) -> Seq<char> {
    "Format not recognized\n  as JSON: "@ + indented(json) + "\n  as YAML: "@ + indented(yaml)
        + "\n  as TOML: "@ + indented(toml)
}

/// The document that a text is, by what each of the formats reads in it: the
/// first that reads one answers, and all of them complain where none does.
pub open spec fn settled(
    json: Result<Json, Seq<char>>,
    yaml: Result<Json, Seq<char>>,
    toml: Result<Json, Seq<char>>,
) -> Result<Json, Seq<char>> {
    match (json, yaml, toml) {
        (Ok(j), _, _) => Ok(j),
        (Err(_), Ok(j), _) => Ok(j),
        (Err(_), Err(_), Ok(j)) => Ok(j),
        (Err(a), Err(b), Err(c)) => Err(unrecognized(a, b, c)),
    }
}

/// The document that a text is.
pub open spec fn document_in(body: Seq<char>) -> Result<Json, Seq<char>> {
    settled(
        document::json_reading(body),
        document::yaml_reading(body),
        document::toml_reading(body),
    )
}

/// A complaint of several lines, indented below the format it is about.
fn indent(e: &str) -> (r: String)
    ensures
        r@ == indented(e@),
{
    text::joined(&text::pieces(e, '\n'), "\n    ")
}

/// The document that a text is, by what each of the formats reads in it.
pub fn settle(
    json: Result<Datum, String>,
    yaml: Result<Datum, String>,
    toml: Result<Datum, String>,
) -> (r: Result<Datum, String>)
    ensures
        document::reading(r) == settled(
            document::reading(json),
            document::reading(yaml),
            document::reading(toml),
        ),
{
    match json {
        Ok(d) => Ok(d),
        Err(a) => match yaml {
            Ok(d) => Ok(d),
            Err(b) => match toml {
                Ok(d) => Ok(d),
                Err(c) => {
                    let mut e = "Format not recognized\n  as JSON: ".to_owned();
                    e.append(indent(a.as_str()).as_str());
                    e.append("\n  as YAML: ");
                    e.append(indent(b.as_str()).as_str());
                    e.append("\n  as TOML: ");
                    e.append(indent(c.as_str()).as_str());
                    Err(e)
                },
            },
        },
    }
}

/// Read a document, in any of the formats that are understood.
pub fn read_document(body: &str) -> (r: Result<Datum, String>)
    ensures
        document::reading(r) == document_in(body@),
{
    settle(document::read_json(body), document::read_yaml(body), document::read_toml(body))
}

/// The subtree of a document that a chain of names addresses, where a member
/// that is missing is an empty object.
pub open spec fn subtree(j: Json, keys: Seq<Seq<char>>) -> Result<Json, Seq<char>>
    decreases keys.len(),
{
    if keys.len() == 0 {
        Ok(j)
    } else {
        match j {
            Json::Object(m) => subtree(
                if m.dom().contains(keys[0]) {
                    m[keys[0]]
                } else {
                    Json::Object(Map::empty())
                },
                keys.drop_first(),
            ),
            _ => Err("Cannot navigate through "@ + keys[0] + " - not an object"@),
        }
    }
}

/// A document with another subtree where a chain of names addresses one.
pub open spec fn grafted(j: Json, keys: Seq<Seq<char>>, new: Json) -> Json
    decreases keys.len(),
{
    if keys.len() == 0 {
        new
    } else {
        match j {
            Json::Object(m) => Json::Object(
                m.insert(
                    keys[0],
                    grafted(
                        if m.dom().contains(keys[0]) {
                            m[keys[0]]
                        } else {
                            Json::Object(Map::empty())
                        },
                        keys.drop_first(),
                        new,
                    ),
                ),
            ),
            _ => j,
        }
    }
}

/// A value wrapped in the objects that a chain of names goes through.
pub open spec fn nested(keys: Seq<Seq<char>>, v: Json) -> Json
    decreases keys.len(),
{
    if keys.len() == 0 {
        v
    } else {
        Json::Object(Map::empty().insert(keys[0], nested(keys.drop_first(), v)))
    }
}

/// One step down a document: an element of an array by its number, or a
/// member of an object by its name.
pub open spec fn step(j: Json, component: Seq<char>) -> Option<Json> {
    match j {
        Json::Array(list) => match text::natural(component) {
            Some(n) => if n < list.len() {
                Some(list[n as int])
            } else {
                None
            },
            None => None,
        },
        Json::Object(m) => value::member(m, component),
        _ => None,
    }
}

/// The value that a chain of components addresses.
pub open spec fn walk(j: Json, components: Seq<Seq<char>>) -> Option<Json>
    decreases components.len(),
{
    if components.len() == 0 {
        Some(j)
    } else {
        match step(j, components[0]) {
            Some(below) => walk(below, components.drop_first()),
            None => None,
        }
    }
}

/// The components of a dotted key.
pub open spec fn components(key: Seq<char>) -> Seq<Seq<char>> {
    text::split(key, '.')
}

/// The value that a dotted key addresses.
pub open spec fn value_at(j: Json, key: Seq<char>) -> Result<Json, Seq<char>> {
    match walk(j, components(key)) {
        Some(v) => Ok(v),
        None => Err("Value "@ + key + " not present in the system"@),
    }
}

/// Whether a component reads as the number of an element.
pub open spec fn is_index(component: Seq<char>) -> bool {
    text::natural(component) matches Some(n) && n <= usize::MAX
}

/// The first component that reads as a number.
pub open spec fn first_index(components: Seq<Seq<char>>) -> Option<Seq<char>>
    decreases components.len(),
{
    if components.len() == 0 {
        None
    } else if is_index(components[0]) {
        Some(components[0])
    } else {
        first_index(components.drop_first())
    }
}

/// A document with the value that a dotted key addresses set, or why it cannot
/// be.
pub open spec fn set_at(j: Json, key: Seq<char>, v: Json) -> Result<Json, Seq<char>> {
    let all = components(key);
    if all.contains(Seq::empty()) {
        Err("Cannot set "@ + key + " - the key has an empty component"@)
    } else if first_index(all) is Some {
        Err(
            "Cannot set "@ + key + " - "@ + first_index(all)->0
                + " addresses an element of a list, and only a whole list can be set.  Set the list, or merge a document with `detc var <file>`"@,
        )
    } else {
        match subtree(j, all.drop_last()) {
            Err(e) => Err(e),
            Ok(Json::Object(m)) => Ok(
                grafted(j, all.drop_last(), Json::Object(m.insert(all.last(), v))),
            ),
            Ok(Json::Array(_)) => Err("Cannot set "@ + key + " - only a whole list can be set"@),
            Ok(_) => Err("Cannot set "@ + key + " - the parent is not an object"@),
        }
    }
}

/// What a document says of how it is merged, and what is left of it without
/// saying so.
pub open spec fn declared_merge(j: Json) -> (Json, Result<Option<Merge>, Seq<char>>) {
    match j {
        Json::Object(m) => {
            let left = Json::Object(m.remove(MERGE_KEY@));
            match value::member(m, MERGE_KEY@) {
                None => (left, Ok(None)),
                Some(Json::Text(name)) => (
                    left,
                    match merge_named(name) {
                        Ok(strategy) => Ok(Some(strategy)),
                        Err(e) => Err(e),
                    },
                ),
                Some(other) => (
                    left,
                    Err(
                        "Expected a merge strategy name in _merge, but got "@
                            + document::json_text(other),
                    ),
                ),
            }
        },
        _ => (j, Ok(None)),
    }
}

/// A namespace with a document merged into the subtree that `keys` address.
pub open spec fn merged_at(
    j: Json,
    keys: Seq<Seq<char>>,
    document: Json,
    default: Merge,
) -> Result<Json, Seq<char>> {
    match declared_merge(document) {
        (_, Err(e)) => Err(e),
        (left, Ok(strategy)) => match subtree(j, keys) {
            Err(e) => Err(e),
            Ok(target) => Ok(
                grafted(
                    j,
                    keys,
                    merged(
                        target,
                        left,
                        match strategy {
                            Some(strategy) => strategy,
                            None => default,
                        },
                    ),
                ),
            ),
        },
    }
}

/// The subtree of a document that the names from `from` on address.
fn look(d: &Datum, keys: &Vec<String>, from: usize) -> (r: Result<Datum, String>)
    requires
        from <= keys@.len(),
    ensures
        document::reading(r) == subtree(d@, text::texts(keys@).skip(from as int)),
    decreases keys@.len() - from,
{
    let ghost left = text::texts(keys@).skip(from as int);
    if from == keys.len() {
        return Ok(d.copy());
    }
    assert(left[0] == keys@[from as int]@);
    assert(left.drop_first() =~= text::texts(keys@).skip(from + 1));
    match d {
        Datum::Object(entries) => {
            match value::get(entries, keys[from].as_str()) {
                Some(below) => look(below, keys, from + 1),
                None => {
                    let empty = Datum::Object(Vec::new());
                    assert(empty@ == Json::Object(Map::empty()));
                    look(&empty, keys, from + 1)
                },
            }
        },
        _ => {
            let mut e = "Cannot navigate through ".to_owned();
            e.append(keys[from].as_str());
            e.append(" - not an object");
            Err(e)
        },
    }
}

/// A document with another subtree where the names from `from` on address one.
fn graft(d: Datum, keys: &Vec<String>, from: usize, new: Datum) -> (r: Datum)
    requires
        from <= keys@.len(),
    ensures
        r@ == grafted(d@, text::texts(keys@).skip(from as int), new@),
    decreases keys@.len() - from,
{
    let ghost left = text::texts(keys@).skip(from as int);
    if from == keys.len() {
        return new;
    }
    assert(left[0] == keys@[from as int]@);
    assert(left.drop_first() =~= text::texts(keys@).skip(from + 1));
    match d {
        Datum::Object(mut entries) => {
            let ghost m = value::members(entries@);
            let below = match value::drop_member(&mut entries, keys[from].as_str()) {
                Some(below) => below,
                None => Datum::Object(Vec::new()),
            };
            let grown = graft(below, keys, from + 1, new);
            value::put(&mut entries, keys[from].clone(), grown);
            assert(m.remove(left[0]).insert(left[0], grown@) =~= m.insert(left[0], grown@));
            Datum::Object(entries)
        },
        d => d,
    }
}

/// A value wrapped in the objects that the names from `from` on go through.
fn nest_from(keys: &Vec<String>, from: usize, v: Datum) -> (r: Datum)
    requires
        from <= keys@.len(),
    ensures
        r@ == nested(text::texts(keys@).skip(from as int), v@),
    decreases keys@.len() - from,
{
    let ghost left = text::texts(keys@).skip(from as int);
    if from == keys.len() {
        return v;
    }
    assert(left[0] == keys@[from as int]@);
    assert(left.drop_first() =~= text::texts(keys@).skip(from + 1));
    let below = nest_from(keys, from + 1, v);
    let mut entries: Vec<(String, Datum)> = Vec::new();
    value::put(&mut entries, keys[from].clone(), below);
    Datum::Object(entries)
}

/// A document merged into another with a strategy.
pub fn merge_value(a: Datum, b: &Datum, strategy: Merge) -> (r: Datum)
    ensures
        r@ == merged(a@, b@, strategy),
{
    match strategy {
        Merge::Replace => value::overlay(a, b),
        Merge::Partial => value::patch(a, b),
        Merge::Full => value::combine(a, b),
    }
}

/// The value that the components from `from` on address.
fn walk_from<'a>(d: &'a Datum, components: &Vec<String>, from: usize) -> (r: Option<&'a Datum>)
    requires
        from <= components@.len(),
    ensures
        match r {
            Some(v) => walk(d@, text::texts(components@).skip(from as int)) == Some(v@),
            None => walk(d@, text::texts(components@).skip(from as int)) is None,
        },
    decreases components@.len() - from,
{
    let ghost left = text::texts(components@).skip(from as int);
    if from == components.len() {
        return Some(d);
    }
    assert(left[0] == components@[from as int]@);
    assert(left.drop_first() =~= text::texts(components@).skip(from + 1));
    match d {
        Datum::Array(list) => {
            proof {
                value::lemma_items(list@);
            }
            match text::read_natural(components[from].as_str()) {
                Some(n) => {
                    if n < list.len() as u64 {
                        let i: usize = n as usize;
                        assert(i == n);
                        assert(value::items(list@)[i as int] == list@[i as int]@);
                        assert(step(d@, left[0]) == Some(list@[i as int]@));
                        walk_from(&list[i], components, from + 1)
                    } else {
                        assert(step(d@, left[0]) is None);
                        None
                    }
                },
                None => {
                    assert(list.len() <= u64::MAX);
                    assert(step(d@, left[0]) is None);
                    None
                },
            }
        },
        Datum::Object(entries) => {
            match value::get(entries, components[from].as_str()) {
                Some(below) => walk_from(below, components, from + 1),
                None => None,
            }
        },
        _ => None,
    }
}

/// The first component that reads as a number.
fn find_index(components: &Vec<String>) -> (r: Option<String>)
    ensures
        text::text_of(r) == first_index(text::texts(components@)),
{
    let ghost all = text::texts(components@);
    let mut i: usize = 0;
    assert(all.skip(0) =~= all);
    while i < components.len()
        invariant
            i <= components@.len(),
            all == text::texts(components@),
            first_index(all.skip(i as int)) == first_index(all),
        decreases components@.len() - i,
    {
        assert(all.skip(i as int)[0] == components@[i as int]@);
        assert(all.skip(i as int).drop_first() =~= all.skip(i + 1));
        match text::read_natural(components[i].as_str()) {
            Some(n) => {
                if n <= usize::MAX as u64 {
                    return Some(components[i].clone());
                }
            },
            None => {},
        }
        i += 1;
    }
    None
}

/// The variables namespace.
pub struct Variables {
    value: Datum,
}

impl View for Variables {
    type V = Json;

    closed spec fn view(&self) -> Json {
        self.value@
    }
}

/// What a fallible constructor gives.
pub open spec fn namespace(r: Result<Variables, String>) -> Result<Json, Seq<char>> {
    match r {
        Ok(v) => Ok(v@),
        Err(e) => Err(e@),
    }
}

/// What a fallible change leaves: what it made, or what there was.
pub open spec fn changed(
    before: Json,
    after: Json,
    r: Result<(), Seq<char>>,
    spec: Result<Json, Seq<char>>,
) -> bool {
    match spec {
        Ok(j) => r is Ok && after == j,
        Err(e) => r == Err::<(), Seq<char>>(e) && after == before,
    }
}

impl Variables {
    /// An empty namespace.
    pub fn new() -> (r: Self)
        ensures
            r@ == Json::Object(Map::empty()),
    {
        Variables { value: Datum::Object(Vec::new()) }
    }

    /// A namespace from a document.
    pub fn from_value(value: Datum) -> (r: Self)
        ensures
            r@ == value@,
    {
        Variables { value }
    }

    /// Read a document, in any of the formats that are understood.
    pub fn from_str(body: &str) -> (r: Result<Self, String>)
        ensures
            namespace(r) == document_in(body@),
    {
        match read_document(body) {
            Ok(value) => Ok(Variables { value }),
            Err(e) => Err(e),
        }
    }

    /// The namespace as a document.
    pub fn value(&self) -> (r: &Datum)
        ensures
            r@ == self@,
    {
        &self.value
    }

    /// The namespace as YAML.
    pub fn to_yaml(&self) -> (r: Result<String, String>)
        ensures
            document::writing(r) == document::yaml_text(self@),
    {
        document::to_yaml(&self.value)
    }

    /// Take what the document says of how it is merged out of it.
    pub fn take_merge(&mut self) -> (r: Result<Option<Merge>, String>)
        ensures
            (final(self)@, outcome(r)) == declared_merge(old(self)@),
    {
        let taken = value::take(&mut self.value);
        match taken {
            Datum::Object(mut entries) => {
                let strategy = value::drop_member(&mut entries, MERGE_KEY);
                self.value = Datum::Object(entries);
                match strategy {
                    None => Ok(None),
                    Some(Datum::String(name)) => match Merge::from_str(name.as_str()) {
                        Ok(strategy) => Ok(Some(strategy)),
                        Err(e) => Err(e),
                    },
                    Some(other) => {
                        let mut e =
                            "Expected a merge strategy name in _merge, but got ".to_owned();
                        e.append(document::to_json(&other).as_str());
                        Err(e)
                    },
                }
            },
            other => {
                self.value = other;
                Ok(None)
            },
        }
    }

    /// Merge a document into the subtree that `keys` address, the way it says
    /// it is merged, or with `default` where it does not say.
    pub fn merge_document(&mut self, keys: &Vec<String>, var: Variables, default: Merge) -> (r: Result<
        (),
        String,
    >)
        ensures
            changed(
                old(self)@,
                final(self)@,
                outcome(r),
                merged_at(old(self)@, text::texts(keys@), var@, default),
            ),
    {
        let mut var = var;
        let strategy = match var.take_merge() {
            Err(e) => {
                return Err(e);
            },
            Ok(Some(strategy)) => strategy,
            Ok(None) => default,
        };
        assert(text::texts(keys@).skip(0) =~= text::texts(keys@));
        let target = match look(&self.value, keys, 0) {
            Err(e) => {
                return Err(e);
            },
            Ok(target) => target,
        };
        let new = merge_value(target, &var.value, strategy);
        let whole = value::take(&mut self.value);
        self.value = graft(whole, keys, 0, new);
        Ok(())
    }

    /// Merge a document with a strategy.
    pub fn merge_with(&mut self, var: Variables, strategy: Merge)
        ensures
            final(self)@ == merged(old(self)@, var@, strategy),
    {
        let whole = value::take(&mut self.value);
        self.value = merge_value(whole, &var.value, strategy);
    }

    /// Merge a document all the way down.
    pub fn full_merge(&mut self, var: Variables)
        ensures
            final(self)@ == value::combined(old(self)@, var@),
    {
        self.merge_with(var, Merge::Full)
    }

    /// Merge a document, replacing everything but objects.
    pub fn merge(&mut self, var: Variables)
        ensures
            final(self)@ == value::patched(old(self)@, var@),
    {
        self.merge_with(var, Merge::Partial)
    }

    /// Replace the top level members by those of a document.
    pub fn extend(&mut self, var: Variables)
        ensures
            final(self)@ == value::overlaid(old(self)@, var@),
    {
        self.merge_with(var, Merge::Replace)
    }

    /// Merge a document into the subtree that `keys` address, replacing
    /// everything but objects.
    pub fn merge_at(&mut self, keys: &Vec<String>, var: Variables) -> (r: Result<(), String>)
        ensures
            changed(
                old(self)@,
                final(self)@,
                outcome(r),
                match subtree(old(self)@, text::texts(keys@)) {
                    Err(e) => Err(e),
                    Ok(target) => Ok(
                        grafted(
                            old(self)@,
                            text::texts(keys@),
                            value::patched(target, var@),
                        ),
                    ),
                },
            ),
    {
        assert(text::texts(keys@).skip(0) =~= text::texts(keys@));
        let target = match look(&self.value, keys, 0) {
            Err(e) => {
                return Err(e);
            },
            Ok(target) => target,
        };
        let new = value::patch(target, &var.value);
        let whole = value::take(&mut self.value);
        self.value = graft(whole, keys, 0, new);
        Ok(())
    }

    /// The value that a dotted key addresses.
    pub fn get_value(&self, key: &str) -> (r: Result<&Datum, String>)
        ensures
            value_at(self@, key@) == (match r {
                Ok(v) => Ok(v@),
                Err(e) => Err(e@),
            }),
    {
        let all = text::pieces(key, '.');
        assert(text::texts(all@).skip(0) =~= text::texts(all@));
        match walk_from(&self.value, &all, 0) {
            Some(v) => Ok(v),
            None => {
                let mut e = "Value ".to_owned();
                e.append(key);
                e.append(" not present in the system");
                Err(e)
            },
        }
    }

    /// The value that a dotted key addresses, as YAML.
    pub fn get_yaml(&self, key: &str) -> (r: Result<String, String>)
        ensures
            document::writing(r) == (match value_at(self@, key@) {
                Ok(v) => document::yaml_text(v),
                Err(e) => Err(e),
            }),
    {
        match self.get_value(key) {
            Ok(v) => document::to_yaml(v),
            Err(e) => Err(e),
        }
    }

    /// Set the value that a dotted key addresses.
    pub fn set_value(&mut self, key: &str, value: &Datum) -> (r: Result<(), String>)
        ensures
            changed(old(self)@, final(self)@, outcome(r), set_at(old(self)@, key@, value@)),
    {
        let mut all = text::pieces(key, '.');
        let ghost chain = components(key@);
        let mut refused = "Cannot set ".to_owned();
        refused.append(key);
        proof {
            reveal_strlit("");
            assert(""@ =~= Seq::<char>::empty());
        }
        if text::listed(&all, "") {
            refused.append(" - the key has an empty component");
            return Err(refused);
        }
        match find_index(&all) {
            Some(index) => {
                refused.append(" - ");
                refused.append(index.as_str());
                refused.append(
                    " addresses an element of a list, and only a whole list can be set.  Set the list, or merge a document with `detc var <file>`",
                );
                return Err(refused);
            },
            None => {},
        }
        let name = all.pop().unwrap();
        assert(name@ == chain.last());
        assert(text::texts(all@) =~= chain.drop_last());
        assert(text::texts(all@).skip(0) =~= text::texts(all@));
        match look(&self.value, &all, 0) {
            Err(e) => Err(e),
            Ok(Datum::Object(mut entries)) => {
                value::put(&mut entries, name, value.copy());
                let whole = value::take(&mut self.value);
                self.value = graft(whole, &all, 0, Datum::Object(entries));
                Ok(())
            },
            Ok(Datum::Array(_)) => {
                refused.append(" - only a whole list can be set");
                Err(refused)
            },
            Ok(_) => {
                refused.append(" - the parent is not an object");
                Err(refused)
            },
        }
    }
}

/// What is written in a command line as a value: a document in JSON, or the
/// text itself.
pub open spec fn typed(value: Seq<char>) -> Json {
    match document::json_reading(value) {
        Ok(j) => j,
        Err(_) => Json::Text(value),
    }
}

/// The dotted keys and the values that a text maps them to.
pub open spec fn mapping_in(kv: Seq<char>) -> Result<Map<Seq<char>, Json>, Seq<char>> {
    match document_in(kv) {
        Ok(Json::Object(m)) => Ok(m),
        Ok(_) => Err("Expected a key and value mapping, but got "@ + kv),
        Err(e) => Err(e),
    }
}

/// A namespace with the values of several dotted keys set one after the other,
/// up to the first that cannot be.
pub open spec fn set_all(j: Json, m: Map<Seq<char>, Json>, keys: Seq<Seq<char>>) -> (Json, Result<
    (),
    Seq<char>,
>)
    decreases keys.len(),
{
    if keys.len() == 0 {
        (j, Ok(()))
    } else {
        match set_at(j, keys[0], m[keys[0]]) {
            Ok(next) => set_all(next, m, keys.drop_first()),
            Err(e) => (j, Err(e)),
        }
    }
}

/// A value as it was typed: a document in JSON, or the text itself.
pub fn json_or_string(value: &str) -> (r: Datum)
    ensures
        r@ == typed(value@),
{
    match document::read_json(value) {
        Ok(d) => d,
        Err(_) => Datum::String(value.to_owned()),
    }
}

/// The dotted keys and the values that a text maps them to.
pub fn kv_entries(kv: &str) -> (r: Result<Vec<(String, Datum)>, String>)
    ensures
        mapping_in(kv@) == (match r {
            Ok(entries) => Ok(value::members(entries@)),
            Err(e) => Err(e@),
        }),
{
    match read_document(kv) {
        Ok(Datum::Object(entries)) => Ok(entries),
        Ok(_) => {
            let mut e = "Expected a key and value mapping, but got ".to_owned();
            e.append(kv);
            Err(e)
        },
        Err(e) => Err(e),
    }
}

impl Variables {
    /// Set the value that a dotted key addresses to what was typed.
    pub fn set_json(&mut self, key: &str, value: &str) -> (r: Result<(), String>)
        ensures
            changed(old(self)@, final(self)@, outcome(r), set_at(old(self)@, key@, typed(value@))),
    {
        self.set_value(key, &json_or_string(value))
    }

    /// Set the values that a mapping of dotted keys gives, in the order of the
    /// keys, up to the first that cannot be set.
    pub fn set_kv(&mut self, kv: &str) -> (r: Result<(), String>)
        ensures
            match mapping_in(kv@) {
                Err(e) => outcome(r) == Err::<(), Seq<char>>(e) && final(self)@ == old(self)@,
                Ok(m) => (final(self)@, outcome(r)) == set_all(
                    old(self)@,
                    m,
                    text::listing(m.dom()),
                ),
            },
    {
        let entries = match kv_entries(kv) {
            Ok(entries) => entries,
            Err(e) => {
                return Err(e);
            },
        };
        let ghost m = value::members(entries@);
        let ghost start = self@;
        let keys = value::names(&entries);
        let ghost all = text::texts(keys@);
        let mut i: usize = 0;
        assert(all.skip(0) =~= all);
        while i < keys.len()
            invariant
                i <= keys@.len(),
                all == text::texts(keys@),
                all.to_set() == m.dom(),
                all == text::listing(m.dom()),
                m == value::members(entries@),
                mapping_in(kv@) == Ok::<Map<Seq<char>, Json>, Seq<char>>(m),
                start == old(self)@,
                set_all(start, m, all) == set_all(self@, m, all.skip(i as int)),
            decreases keys@.len() - i,
        {
            assert(all.skip(i as int)[0] == keys@[i as int]@);
            assert(all.skip(i as int).drop_first() =~= all.skip(i + 1));
            assert(all[i as int] == keys@[i as int]@);
            assert(m.dom().contains(all[i as int]));
            match value::get(&entries, keys[i].as_str()) {
                Some(v) => {
                    match self.set_value(keys[i].as_str(), v) {
                        Ok(_) => {},
                        Err(e) => {
                            return Err(e);
                        },
                    }
                },
                None => {},
            }
            i += 1;
        }
        Ok(())
    }

    /// The dotted keys that a mapping sets, in their order.
    pub fn kv_keys(kv: &str) -> (r: Result<Vec<String>, String>)
        ensures
            match mapping_in(kv@) {
                Ok(m) => r matches Ok(keys) && text::texts(keys@) == text::listing(m.dom()),
                Err(e) => r matches Err(message) && message@ == e,
            },
    {
        match kv_entries(kv) {
            Ok(entries) => Ok(value::names(&entries)),
            Err(e) => Err(e),
        }
    }

    /// The document that keeps the value of one dotted key: the value, in the
    /// objects that address it, and nothing else.
    pub fn user_override(key: &str, value: &Datum) -> (r: String)
        ensures
            r@ == document::json_pretty(nested(components(key@), value@)),
    {
        let keys = text::pieces(key, '.');
        assert(text::texts(keys@).skip(0) =~= text::texts(keys@));
        document::to_pretty(&nest_from(&keys, 0, value.copy()))
    }
}

proof fn lemma_graft_extends(j: Json, all: Seq<Seq<char>>, v: Json)
    requires
        all.len() > 0,
        subtree(j, all.drop_last()) matches Ok(Json::Object(_)),
    ensures
        grafted(j, all, v) == grafted(
            j,
            all.drop_last(),
            Json::Object(subtree(j, all.drop_last())->Ok_0->Object_0.insert(all.last(), v)),
        ),
    decreases all.len(),
{
    if all.len() == 1 {
        assert(all.drop_first() =~= Seq::empty());
        assert(all.drop_last() =~= Seq::empty());
        assert(grafted(
            if j->Object_0.dom().contains(all[0]) {
                j->Object_0[all[0]]
            } else {
                Json::Object(Map::empty())
            },
            all.drop_first(),
            v,
        ) == v);
    } else {
        let m = j->Object_0;
        let below = if m.dom().contains(all[0]) {
            m[all[0]]
        } else {
            Json::Object(Map::empty())
        };
        assert(all.drop_last()[0] == all[0]);
        assert(all.drop_last().drop_first() =~= all.drop_first().drop_last());
        lemma_graft_extends(below, all.drop_first(), v);
    }
}

proof fn lemma_walk_graft(j: Json, all: Seq<Seq<char>>, v: Json)
    requires
        all.len() > 0,
        subtree(j, all.drop_last()) matches Ok(Json::Object(_)),
    ensures
        walk(grafted(j, all, v), all) == Some(v),
    decreases all.len(),
{
    let m = j->Object_0;
    let below = if m.dom().contains(all[0]) {
        m[all[0]]
    } else {
        Json::Object(Map::empty())
    };
    if all.len() == 1 {
        assert(all.drop_last() =~= Seq::empty());
        assert(all.drop_first() =~= Seq::empty());
        assert(grafted(below, all.drop_first(), v) == v);
        assert(walk(v, all.drop_first()) == Some(v));
    } else {
        assert(all.drop_last()[0] == all[0]);
        assert(all.drop_last().drop_first() =~= all.drop_first().drop_last());
        lemma_walk_graft(below, all.drop_first(), v);
    }
    assert(step(grafted(j, all, v), all[0]) == Some(grafted(below, all.drop_first(), v)));
}

/// Whether two chains of names differ before either of them ends.
pub open spec fn parts_ways(a: Seq<Seq<char>>, b: Seq<Seq<char>>) -> bool
    decreases a.len(),
{
    &&& a.len() > 0
    &&& b.len() > 0
    &&& a[0] != b[0] || parts_ways(a.drop_first(), b.drop_first())
}

proof fn lemma_graft_keeps(j: Json, all: Seq<Seq<char>>, v: Json, other: Seq<Seq<char>>)
    requires
        all.len() > 0,
        subtree(j, all.drop_last()) matches Ok(Json::Object(_)),
        parts_ways(all, other),
    ensures
        walk(grafted(j, all, v), other) == walk(j, other),
    decreases all.len(),
{
    let below = if j->Object_0.dom().contains(all[0]) {
        j->Object_0[all[0]]
    } else {
        Json::Object(Map::empty())
    };
    if all.len() == 1 {
        assert(all.drop_last() =~= Seq::empty());
        assert(all.drop_first() =~= Seq::empty());
    } else {
        assert(all.drop_last()[0] == all[0]);
        assert(all.drop_last().drop_first() =~= all.drop_first().drop_last());
    }
    let m = j->Object_0;
    assert(grafted(j, all, v) == Json::Object(
        m.insert(all[0], grafted(below, all.drop_first(), v)),
    ));
    if all[0] == other[0] {
        assert(parts_ways(all.drop_first(), other.drop_first()));
        lemma_graft_keeps(below, all.drop_first(), v, other.drop_first());
        if !m.dom().contains(all[0]) {
            assert(step(below, other.drop_first()[0]) is None);
            assert(walk(below, other.drop_first()) is None);
        }
    } else {
        assert(step(grafted(j, all, v), other[0]) == step(j, other[0]));
    }
}

/// What is set under a dotted key is what is read under it.
pub proof fn law_set_is_read_back(j: Json, key: Seq<char>, v: Json)
    requires
        set_at(j, key, v) is Ok,
    ensures
        value_at(set_at(j, key, v)->Ok_0, key) == Ok::<Json, Seq<char>>(v),
{
    let all = components(key);
    text::lemma_split_some(key, '.');
    lemma_graft_extends(j, all, v);
    lemma_walk_graft(j, all, v);
}

/// Setting a dotted key leaves every value alone whose key parts ways with it.
pub proof fn law_set_keeps_the_rest(j: Json, key: Seq<char>, v: Json, other: Seq<char>)
    requires
        set_at(j, key, v) is Ok,
        parts_ways(components(key), components(other)),
    ensures
        value_at(set_at(j, key, v)->Ok_0, other) == value_at(j, other),
{
    let all = components(key);
    text::lemma_split_some(key, '.');
    lemma_graft_extends(j, all, v);
    lemma_graft_keeps(j, all, v, components(other));
}

/// A document that keeps the value of one dotted key gives the value back when
/// it is merged into any namespace, as long as it is neither null, which takes
/// the key away, nor an object, which is merged with what there is.
pub proof fn law_override_is_read_back(j: Json, all: Seq<Seq<char>>, v: Json)
    requires
        all.len() > 0,
        !(v is Null),
        !(v is Object),
    ensures
        walk(value::patched(j, nested(all, v)), all) == Some(v),
    decreases all.len(),
{
    let below = nested(all.drop_first(), v);
    let t = match j {
        Json::Object(t) => t,
        _ => Map::empty(),
    };
    let old = if t.dom().contains(all[0]) {
        t[all[0]]
    } else {
        Json::Null
    };
    if all.len() == 1 {
        assert(below == v);
        assert(value::patched(old, v) == v);
        assert(all.drop_first() =~= Seq::empty());
    } else {
        law_override_is_read_back(old, all.drop_first(), v);
    }
    assert(step(value::patched(j, nested(all, v)), all[0]) == Some(value::patched(old, below)));
}

/// A member that a document gives as null is gone once it is merged.
pub proof fn law_null_takes_away(t: Json, p: Map<Seq<char>, Json>, k: Seq<char>)
    requires
        value::member(p, k) == Some(Json::Null),
    ensures
        value::patched(t, Json::Object(p)) matches Json::Object(m) && !m.dom().contains(k),
{
}

/// Merging a document a second time changes nothing.
pub proof fn law_merging_twice_is_merging_once(t: Json, p: Json)
    ensures
        value::patched(value::patched(t, p), p) == value::patched(t, p),
    decreases p,
{
    if p is Object {
        let m = p->Object_0;
        let once = value::patched(t, p)->Object_0;
        let twice = value::patched(value::patched(t, p), p)->Object_0;
        let base = match t {
            Json::Object(base) => base,
            _ => Map::empty(),
        };
        assert forall|k: Seq<char>| #[trigger] once.dom().contains(k) implies twice[k] == once[k] by {
            if m.dom().contains(k) {
                let old = if base.dom().contains(k) {
                    base[k]
                } else {
                    Json::Null
                };
                law_merging_twice_is_merging_once(old, m[k]);
            }
        }
        assert(twice =~= once);
    }
}

/// A dotted key as part of a file name.
pub open spec fn dashed(key: Seq<char>) -> Seq<char> {
    text::join(components(key), "-"@)
}

/// The name of the drop-in that a store keeps the value of a key in.
pub open spec fn dropin_of(key: Seq<char>, store: Store) -> Seq<char> {
    store.order_text() + "-"@ + dashed(key) + ".json"@
}

/// Whether a file name begins with two digits and a dash.
pub open spec fn is_ordered(name: Seq<char>) -> bool {
    &&& name.len() >= 3
    &&& text::is_digit(name[0])
    &&& text::is_digit(name[1])
    &&& name[2] == '-'
}

/// The name of the drop-in that a store keeps a document in.
pub open spec fn dropin_of_file(path: Seq<char>, store: Store) -> Result<Seq<char>, Seq<char>> {
    match path::last_name(path) {
        None => Err("Cannot use "@ + path + " as a variable document"@),
        Some(name) => if is_ordered(name) {
            Ok(name)
        } else {
            Ok(store.order_text() + "-"@ + name)
        },
    }
}

/// The path of a drop-in of a store.
pub open spec fn in_store(root: Seq<char>, store: Store, name: Seq<char>) -> Seq<char> {
    path::joined(path::joined(root, store.dir_text()), name)
}

impl Variables {
    /// The name of the drop-in that `store` keeps the value of a key in.
    pub fn dropin_name(key: &str, store: Store) -> (r: String)
        ensures
            r@ == dropin_of(key@, store),
    {
        let mut r = store.order().to_owned();
        r.append("-");
        r.append(text::joined(&text::pieces(key, '.'), "-").as_str());
        r.append(".json");
        r
    }

    /// The name of the drop-in that `store` keeps a document in.  A name that
    /// is already ordered keeps its order.
    pub fn dropin_file_name(path: &str, store: Store) -> (r: Result<String, String>)
        ensures
            document::writing(r) == dropin_of_file(path@, store),
    {
        match path::file_name(path) {
            None => {
                let mut e = "Cannot use ".to_owned();
                e.append(path);
                e.append(" as a variable document");
                Err(e)
            },
            Some(name) => {
                let cs = text::chars_of(name.as_str());
                if cs.len() >= 3 && text::digit_value(cs[0]).is_some() && text::digit_value(cs[1]).is_some()
                    && cs[2] == '-' {
                    Ok(name)
                } else {
                    let mut r = store.order().to_owned();
                    r.append("-");
                    r.append(name.as_str());
                    Ok(r)
                }
            },
        }
    }

    /// Where `store` keeps the value of a key.
    pub fn dropin_path(key: &str, store: Store, root: &str) -> (r: String)
        ensures
            r@ == in_store(root@, store, dropin_of(key@, store)),
    {
        let name = Self::dropin_name(key, store);
        path::join(path::join(root, store.dir()).as_str(), name.as_str())
    }

    /// Where `store` keeps a document.
    pub fn dropin_document_path(path: &str, store: Store, root: &str) -> (r: Result<String, String>)
        ensures
            document::writing(r) == (match dropin_of_file(path@, store) {
                Ok(name) => Ok(in_store(root@, store, name)),
                Err(e) => Err(e),
            }),
    {
        match Self::dropin_file_name(path, store) {
            Ok(name) => Ok(path::join(path::join(root, store.dir()).as_str(), name.as_str())),
            Err(e) => Err(e),
        }
    }

    /// Where a persisted drop-in would stand that is read instead of the one
    /// that `store` keeps under `name`; a persisted one has none above it.
    pub fn masking_path(store: Store, name: &str, root: &str) -> (r: Option<String>)
        ensures
            text::text_of(r) == (match store {
                Store::Persisted => None,
                Store::Runtime => Some(in_store(root@, Store::Persisted, name@)),
            }),
    {
        match store {
            Store::Persisted => None,
            Store::Runtime => Some(
                path::join(path::join(root, Store::Persisted.dir()).as_str(), name),
            ),
        }
    }

    /// Why a drop-in is not written that the persisted one at `path` masks.
    pub fn masked(path: &str) -> (r: String)
        ensures
            r@ == path@
                + " is read instead of the drop-in this would write, as the two share a name: persist this one, or take that one away"@,
    {
        let mut r = path.to_owned();
        r.append(
            " is read instead of the drop-in this would write, as the two share a name: persist this one, or take that one away",
        );
        r
    }

    /// Where the runtime drop-in is that one persisted under `name` replaces.
    pub fn replaced_path(store: Store, name: &str, root: &str) -> (r: Option<String>)
        ensures
            text::text_of(r) == (match store {
                Store::Runtime => None,
                Store::Persisted => Some(in_store(root@, Store::Runtime, name@)),
            }),
    {
        match store {
            Store::Runtime => None,
            Store::Persisted => Some(
                path::join(path::join(root, Store::Runtime.dir()).as_str(), name),
            ),
        }
    }
}

/// What is set until the next boot is read after what is persisted, whatever
/// the keys are: its drop-in comes later in the order.
pub proof fn law_runtime_is_read_later(persisted: Seq<char>, runtime: Seq<char>)
    ensures
        text::before(dropin_of(persisted, Store::Persisted), dropin_of(runtime, Store::Runtime)),
{
    reveal_strlit("90");
    reveal_strlit("95");
    let a = dropin_of(persisted, Store::Persisted);
    let b = dropin_of(runtime, Store::Runtime);
    assert(a[0] == '9' && b[0] == '9');
    assert(a[1] == '0' && b[1] == '5');
    assert(a.drop_first()[0] == '0' && b.drop_first()[0] == '5');
    assert(text::before(a.drop_first(), b.drop_first()));
}

/// Whether an ending is one that a document is written under.
pub open spec fn is_extension(ending: Seq<char>) -> bool {
    ||| ending == "yaml"@
    ||| ending == "yml"@
    ||| ending == "json"@
    ||| ending == "toml"@
}

/// A name without the ending that says how a document is written.
pub open spec fn stem(name: Seq<char>) -> Seq<char> {
    let pieces = text::split(name, '.');
    if pieces.len() > 1 && is_extension(pieces.last()) {
        text::join(pieces.drop_last(), "."@)
    } else {
        name
    }
}

/// A name without the ending that says how a document is written, so that
/// `nginx.yaml` is addressed as `nginx`.
pub fn strip_extension(name: &str) -> (r: String)
    ensures
        r@ == stem(name@),
{
    let mut pieces = text::pieces(name, '.');
    let ghost all = text::split(name@, '.');
    assert(all.len() == pieces@.len());
    if pieces.len() > 1 {
        let ending = pieces.pop().unwrap();
        assert(ending@ == all.last());
        assert(text::texts(pieces@) =~= all.drop_last());
        let e = ending.as_str();
        if text::equal(e, "yaml") || text::equal(e, "yml") || text::equal(e, "json") || text::equal(
            e,
            "toml",
        ) {
            return text::joined(&pieces, ".");
        }
    }
    name.to_owned()
}

/// Where a probe mounts what it reports: the category, and the directories
/// that the probe is in.
pub open spec fn mount(category: Seq<char>, key: Seq<char>) -> Seq<Seq<char>> {
    let all = path::names(key);
    if all.len() == 0 {
        seq![category]
    } else {
        seq![category] + all.drop_last()
    }
}

/// Where a probe mounts what it reports.
pub fn mount_point(category: &str, key: &str) -> (r: Vec<String>)
    ensures
        text::texts(r@) == mount(category@, key@),
{
    let all = path::parts(key);
    let mut r: Vec<String> = Vec::new();
    r.push(category.to_owned());
    assert(path::names(key@).len() == all@.len());
    let mut i: usize = 0;
    while i + 1 < all.len()
        invariant
            i <= all.len(),
            i > 0 ==> i < all.len(),
            text::texts(all@) == path::names(key@),
            r@.len() == i + 1,
            r@[0]@ == category@,
            forall|j: int| 0 < j <= i ==> (#[trigger] r@[j])@ == all@[j - 1]@,
        decreases all.len() - i,
    {
        r.push(all[i].clone());
        i += 1;
    }
    proof {
        if all@.len() == 0 {
            assert(text::texts(r@) =~= seq![category@]);
        } else {
            assert(text::texts(r@) =~= seq![category@] + path::names(key@).drop_last());
        }
    }
    r
}

/// A document of variables, as text.
pub struct Writing {
    pub group: Seq<char>,
    pub name: Seq<char>,
    pub source: Seq<char>,
}

/// How a document is addressed: by its group and its name, or by the group
/// alone when it is the file that the drop-ins extend.
pub open spec fn address(w: Writing) -> Seq<char> {
    if w.name.len() == 0 {
        w.group
    } else {
        w.group + "/"@ + w.name
    }
}

/// One document of variables, and where it was written.
pub struct Document {
    group: String,
    name: String,
    source: String,
}

impl View for Document {
    type V = Writing;

    closed spec fn view(&self) -> Writing {
        Writing { group: self.group@, name: self.name@, source: self.source@ }
    }
}

/// Documents as text.
pub open spec fn writings(s: Seq<Document>) -> Seq<Writing> {
    Seq::new(s.len(), |i: int| s[i]@)
}

/// The documents that a set of files makes.
pub open spec fn written(group: Seq<char>, entries: Seq<(String, String)>) -> Seq<Writing> {
    Seq::new(
        entries.len(),
        |i: int| Writing { group, name: stem(entries[i].0@), source: entries[i].1@ },
    )
}

/// Whether `i` and `j` are the first two documents with the same address.
pub open spec fn first_twice(all: Seq<Writing>, i: int, j: int) -> bool {
    &&& 0 <= i < j < all.len()
    &&& address(all[i]) == address(all[j])
    &&& forall|a: int, b: int|
        0 <= a < b < all.len() && address(#[trigger] all[a]) == address(#[trigger] all[b]) ==> i < a
            || (i == a && j <= b)
}

/// Whether no two documents have the same address.
pub open spec fn told_apart(all: Seq<Writing>) -> bool {
    forall|i: int, j: int|
        0 <= i < j < all.len() ==> address(#[trigger] all[i]) != address(#[trigger] all[j])
}

/// The first document with an address.
pub open spec fn first_addressed(all: Seq<Writing>, id: Seq<char>) -> Option<Writing>
    decreases all.len(),
{
    if all.len() == 0 {
        None
    } else if address(all[0]) == id {
        Some(all[0])
    } else {
        first_addressed(all.drop_first(), id)
    }
}

/// The document that an address finds: the one that has it, and otherwise the one
/// that has it without the ending of a file.
pub open spec fn addressed(all: Seq<Writing>, id: Seq<char>) -> Option<Writing> {
    match first_addressed(all, id) {
        Some(w) => Some(w),
        None => first_addressed(all, stem(id)),
    }
}

/// A document is found by the address that it has.
pub proof fn law_a_document_is_found_by_its_address(all: Seq<Writing>, i: int)
    requires
        told_apart(all),
        0 <= i < all.len(),
    ensures
        addressed(all, address(all[i])) == Some(all[i]),
{
    lemma_first_addressed(all, i);
}

proof fn lemma_first_addressed(all: Seq<Writing>, i: int)
    requires
        told_apart(all),
        0 <= i < all.len(),
    ensures
        first_addressed(all, address(all[i])) == Some(all[i]),
    decreases i,
{
    if i > 0 {
        let rest = all.drop_first();
        assert(address(all[0]) != address(all[i]));
        assert forall|a: int, b: int| 0 <= a < b < rest.len() implies address(#[trigger] rest[a])
            != address(#[trigger] rest[b]) by {
            assert(rest[a] == all[a + 1] && rest[b] == all[b + 1]);
        }
        assert(rest[i - 1] == all[i]);
        lemma_first_addressed(rest, i - 1);
    }
}

/// The message for two documents with the same address.
pub open spec fn written_twice(a: Writing, b: Writing) -> Seq<char> {
    "Variable document "@ + address(a) + " is written twice, as "@ + a.source + " and "@ + b.source
}

impl Document {
    /// The set of variables that the document belongs to.
    pub fn group(&self) -> (r: &str)
        ensures
            r@ == self@.group,
    {
        self.group.as_str()
    }

    /// The name of the document inside its group.
    pub fn name(&self) -> (r: &str)
        ensures
            r@ == self@.name,
    {
        self.name.as_str()
    }

    /// How the document is addressed.
    pub fn id(&self) -> (r: String)
        ensures
            r@ == address(self@),
    {
        if text::chars_of(self.name.as_str()).len() == 0 {
            self.group.clone()
        } else {
            let mut r = self.group.clone();
            r.append("/");
            r.append(self.name.as_str());
            r
        }
    }

    /// Where the document was written.
    pub fn source(&self) -> (r: &str)
        ensures
            r@ == self@.source,
    {
        self.source.as_str()
    }

    /// Check that what the document holds can take part in the namespace: that
    /// it is a document, and that it asks for a strategy that exists.
    pub fn check(&self, content: &str) -> (r: Result<(), String>)
        ensures
            outcome(r) == (match document_in(content@) {
                Err(e) => Err(e),
                Ok(j) => match declared_merge(j).1 {
                    Ok(_) => Ok(()),
                    Err(e) => Err(e),
                },
            }),
    {
        match Variables::from_str(content) {
            Err(e) => Err(e),
            Ok(mut var) => match var.take_merge() {
                Ok(_) => Ok(()),
                Err(e) => Err(e),
            },
        }
    }
}

/// The documents of variables that the system has, in the order in which they
/// are merged.
pub struct Documents {
    documents: Vec<Document>,
}

impl View for Documents {
    type V = Seq<Writing>;

    closed spec fn view(&self) -> Seq<Writing> {
        writings(self.documents@)
    }
}

/// Add the documents of a group.
fn add_group(documents: &mut Vec<Document>, group: &str, entries: &Vec<(String, String)>)
    ensures
        writings(final(documents)@) == writings(old(documents)@) + written(group@, entries@),
{
    let ghost was = writings(documents@);
    let mut i: usize = 0;
    assert(was + written(group@, entries@).take(0) =~= was);
    while i < entries.len()
        invariant
            i <= entries@.len(),
            writings(documents@) == was + written(group@, entries@).take(i as int),
        decreases entries@.len() - i,
    {
        let ghost before = documents@;
        let document = Document {
            group: group.to_owned(),
            name: strip_extension(entries[i].0.as_str()),
            source: entries[i].1.clone(),
        };
        let ghost w = document@;
        documents.push(document);
        assert(writings(documents@) =~= writings(before).push(w));
        assert(was + written(group@, entries@).take(i + 1) =~= (was + written(
            group@,
            entries@,
        ).take(i as int)).push(written(group@, entries@)[i as int]));
        i += 1;
    }
    assert(written(group@, entries@).take(i as int) =~= written(group@, entries@));
}

impl Documents {
    /// The documents that the files of the two groups make, in merge order, or
    /// a complaint about two of them that nothing tells apart.
    pub fn from_system(system: &Vec<(String, String)>, user: &Vec<(String, String)>) -> (r: Result<
        Self,
        String,
    >)
        ensures
            ({
                let all = written("system"@, system@) + written("user"@, user@);
                match r {
                    Ok(documents) => {
                        &&& documents@ == all
                        &&& told_apart(all)
                    },
                    Err(e) => exists|i: int, j: int|
                        first_twice(all, i, j) && e@ == written_twice(all[i], all[j]),
                }
            }),
    {
        let mut documents: Vec<Document> = Vec::new();
        let ghost all = written("system"@, system@) + written("user"@, user@);
        add_group(&mut documents, "system", system);
        add_group(&mut documents, "user", user);
        assert(writings(Seq::<Document>::empty()) + written("system"@, system@) =~= written(
            "system"@,
            system@,
        ));
        assert(writings(documents@) == all);
        let mut i: usize = 0;
        while i < documents.len()
            invariant
                i <= documents@.len(),
                all == written("system"@, system@) + written("user"@, user@),
                writings(documents@) == all,
                forall|a: int, b: int|
                    0 <= a < i && a < b < all.len() ==> address(#[trigger] all[a]) != address(
                        #[trigger] all[b],
                    ),
            decreases documents@.len() - i,
        {
            let id = documents[i].id();
            assert(all[i as int] == documents@[i as int]@);
            let mut j: usize = i + 1;
            while j < documents.len()
                invariant
                    i < j <= documents@.len(),
                    all == written("system"@, system@) + written("user"@, user@),
                    writings(documents@) == all,
                    id@ == address(all[i as int]),
                    all[i as int] == documents@[i as int]@,
                    forall|a: int, b: int|
                        0 <= a < i && a < b < all.len() ==> address(#[trigger] all[a]) != address(
                            #[trigger] all[b],
                        ),
                    forall|b: int| i < b < j ==> address(#[trigger] all[b]) != id@,
                decreases documents@.len() - j,
            {
                assert(all[j as int] == documents@[j as int]@);
                if text::equal(documents[j].id().as_str(), id.as_str()) {
                    let mut e = "Variable document ".to_owned();
                    e.append(id.as_str());
                    e.append(" is written twice, as ");
                    e.append(documents[i].source());
                    e.append(" and ");
                    e.append(documents[j].source());
                    assert(first_twice(all, i as int, j as int));
                    return Err(e);
                }
                j += 1;
            }
            i += 1;
        }
        Ok(Documents { documents })
    }

    /// The documents, in the order in which they are merged.
    pub fn documents(&self) -> (r: &Vec<Document>)
        ensures
            writings(r@) == self@,
    {
        &self.documents
    }

    /// The first document whose address is `id`.
    fn first(&self, id: &str) -> (r: Option<&Document>)
        ensures
            first_addressed(self@, id@) == (match r {
                Some(document) => Some(document@),
                None => None,
            }),
    {
        let mut i: usize = 0;
        assert(self@.skip(0) =~= self@);
        while i < self.documents.len()
            invariant
                i <= self.documents@.len(),
                self@ == writings(self.documents@),
                first_addressed(self@, id@) == first_addressed(self@.skip(i as int), id@),
            decreases self.documents@.len() - i,
        {
            proof {
                assert(self@.skip(i as int)[0] == self.documents@[i as int]@);
                assert(self@.skip(i as int).drop_first() =~= self@.skip(i + 1));
            }
            if text::equal(self.documents[i].id().as_str(), id) {
                return Some(&self.documents[i]);
            }
            i += 1;
        }
        None
    }

    /// The document that `id` addresses, if there is one; the ending of the
    /// file is optional.
    pub fn get(&self, id: &str) -> (r: Option<&Document>)
        ensures
            addressed(self@, id@) == (match r {
                Some(document) => Some(document@),
                None => None,
            }),
    {
        match self.first(id) {
            Some(document) => Some(document),
            None => self.first(strip_extension(id).as_str()),
        }
    }

    /// The document that `id` addresses, or a complaint that there is none.
    pub fn find(&self, id: &str) -> (r: Result<&Document, String>)
        ensures
            match r {
                Ok(document) => addressed(self@, id@) == Some(document@),
                Err(e) => {
                    &&& addressed(self@, id@) is None
                    &&& e@ == "There is no variable document "@ + stem(id@)
                        + ", use `detc list --type variable`"@
                },
            },
    {
        match self.get(id) {
            Some(document) => Ok(document),
            None => {
                let mut e = "There is no variable document ".to_owned();
                e.append(strip_extension(id).as_str());
                e.append(", use `detc list --type variable`");
                Err(e)
            },
        }
    }
}

/// What a program wrote, or what a file holds, as text.
pub type Read = Result<String, String>;

/// A namespace with one more document merged into it.
pub open spec fn with_document(j: Json, keys: Seq<Seq<char>>, body: Read, default: Merge) -> Result<
    Json,
    Seq<char>,
> {
    match body {
        Err(e) => Err(e@),
        Ok(body) => match document_in(body@) {
            Err(e) => Err(e),
            Ok(document) => merged_at(j, keys, document, default),
        },
    }
}

/// A namespace with documents merged one after the other, up to the first that
/// cannot be.
pub open spec fn with_documents(j: Json, bodies: Seq<Read>, default: Merge) -> (Json, Result<
    (),
    Seq<char>,
>)
    decreases bodies.len(),
{
    if bodies.len() == 0 {
        (j, Ok(()))
    } else {
        let (before, r) = with_documents(j, bodies.drop_last(), default);
        match r {
            Err(e) => (before, Err(e)),
            Ok(_) => match with_document(before, Seq::empty(), bodies.last(), default) {
                Ok(after) => (after, Ok(())),
                Err(e) => (before, Err(e)),
            },
        }
    }
}

/// A report of a probe, and where it is mounted.
pub struct Report {
    pub mount: Vec<String>,
    pub body: Read,
}

/// A namespace with the reports of the probes merged one after the other; one
/// that cannot be is left out.
pub open spec fn with_reports(j: Json, reports: Seq<Report>, default: Merge) -> Json
    decreases reports.len(),
{
    if reports.len() == 0 {
        j
    } else {
        let before = with_reports(j, reports.drop_last(), default);
        let last = reports.last();
        match with_document(before, text::texts(last.mount@), last.body, default) {
            Ok(after) => after,
            Err(_) => before,
        }
    }
}

/// The namespace of a system: what the probes report, and the documents over it.
pub open spec fn system_namespace(
    reports: Seq<Report>,
    bodies: Seq<Read>,
    default: Merge,
) -> Result<Json, Seq<char>> {
    let probed = with_reports(Json::Object(Map::empty()), reports, default);
    match with_documents(probed, bodies, default) {
        (j, Ok(_)) => Ok(j),
        (_, Err(e)) => Err(e),
    }
}

/// A file of a tree of probes: the category of the tree, the name it has there, its
/// path, and whether it can be run.
pub struct Candidate {
    pub category: String,
    pub key: String,
    pub path: String,
    pub executable: bool,
}

/// The probes that files are: where each mounts what it reports, and the program.
pub open spec fn probes_in(files: Seq<Candidate>) -> Seq<(Seq<Seq<char>>, Seq<char>)>
    decreases files.len(),
{
    if files.len() == 0 {
        Seq::empty()
    } else {
        let before = probes_in(files.drop_last());
        let file = files.last();
        if file.executable {
            before.push((mount(file.category@, file.key@), file.path@))
        } else {
            before
        }
    }
}

/// Probes, as plain values.
pub open spec fn mounted(s: Seq<(Vec<String>, String)>) -> Seq<(Seq<Seq<char>>, Seq<char>)> {
    Seq::new(s.len(), |i: int| (text::texts(s[i].0@), s[i].1@))
}

/// Whether a document gives a value other than null under a key.
pub open spec fn sets(body: Read, key: Seq<char>) -> bool {
    match body {
        Err(_) => false,
        Ok(body) => match document_in(body@) {
            Err(_) => false,
            Ok(j) => match value_at(j, key) {
                Err(_) => false,
                Ok(v) => !(v is Null),
            },
        },
    }
}

impl Variables {
    /// Merge one document into the subtree that `keys` address.
    fn merge_body(&mut self, keys: &Vec<String>, body: &Read, default: Merge) -> (r: Result<(), String>)
        ensures
            changed(
                old(self)@,
                final(self)@,
                outcome(r),
                with_document(old(self)@, text::texts(keys@), *body, default),
            ),
    {
        match body {
            Err(e) => Err(e.clone()),
            Ok(body) => match Variables::from_str(body.as_str()) {
                Err(e) => Err(e),
                Ok(var) => self.merge_document(keys, var, default),
            },
        }
    }

    /// Merge what the probes report, and leave out what cannot be merged.
    pub fn merge_probes(&mut self, reports: &Vec<Report>, default: Merge)
        ensures
            final(self)@ == with_reports(old(self)@, reports@, default),
    {
        let mut i: usize = 0;
        while i < reports.len()
            invariant
                i <= reports@.len(),
                self@ == with_reports(old(self)@, reports@.take(i as int), default),
            decreases reports@.len() - i,
        {
            assert(reports@.take(i + 1).drop_last() =~= reports@.take(i as int));
            match self.merge_body(&reports[i].mount, &reports[i].body, default) {
                Ok(_) => {},
                Err(_) => {},
            }
            i += 1;
        }
        assert(reports@.take(i as int) =~= reports@);
    }

    /// Merge documents one after the other, up to the first that cannot be.
    pub fn merge_documents(&mut self, bodies: &Vec<Read>, default: Merge) -> (r: Result<(), String>)
        ensures
            (final(self)@, outcome(r)) == with_documents(old(self)@, bodies@, default),
    {
        let none: Vec<String> = Vec::new();
        assert(text::texts(none@) =~= Seq::empty());
        let mut i: usize = 0;
        while i < bodies.len()
            invariant
                i <= bodies@.len(),
                text::texts(none@) == Seq::<Seq<char>>::empty(),
                (self@, Ok::<(), Seq<char>>(())) == with_documents(
                    old(self)@,
                    bodies@.take(i as int),
                    default,
                ),
            decreases bodies@.len() - i,
        {
            assert(bodies@.take(i + 1).drop_last() =~= bodies@.take(i as int));
            match self.merge_body(&none, &bodies[i], default) {
                Ok(_) => {},
                Err(e) => {
                    proof {
                        lemma_documents_stop(old(self)@, bodies@, default, i + 1);
                    }
                    return Err(e);
                },
            }
            i += 1;
        }
        assert(bodies@.take(i as int) =~= bodies@);
        Ok(())
    }

    /// The namespace of the system: what the probes report, and the documents
    /// over it, each merged in the way that it declares, or else by `default`.
    pub fn from_system_with(reports: &Vec<Report>, bodies: &Vec<Read>, default: Merge) -> (r: Result<
        Self,
        String,
    >)
        ensures
            namespace(r) == system_namespace(reports@, bodies@, default),
    {
        let mut var = Variables::new();
        var.merge_probes(reports, default);
        match var.merge_documents(bodies, default) {
            Ok(_) => Ok(var),
            Err(e) => Err(e),
        }
    }

    /// The namespace of the system, with the merge that is the usual one.
    pub fn from_system(reports: &Vec<Report>, bodies: &Vec<Read>) -> (r: Result<Self, String>)
        ensures
            namespace(r) == system_namespace(reports@, bodies@, DEFAULT_MERGE),
    {
        Self::from_system_with(reports, bodies, DEFAULT_MERGE)
    }

    /// The namespace that the documents of the system declare, without what the probes
    /// report.
    pub fn from_documents(bodies: &Vec<Read>) -> (r: Result<Self, String>)
        ensures
            namespace(r) == system_namespace(Seq::empty(), bodies@, DEFAULT_MERGE),
    {
        let none: Vec<Report> = Vec::new();
        assert(none@ =~= Seq::<Report>::empty());
        Self::from_system_with(&none, bodies, DEFAULT_MERGE)
    }

    /// The variables that a probe reports, by what it wrote.
    pub fn from_probe(ran: &Read) -> (r: Result<Self, String>)
        ensures
            namespace(r) == (match *ran {
                Err(e) => Err(e@),
                Ok(t) => document_in(t@),
            }),
    {
        match ran {
            Err(e) => Err(e.clone()),
            Ok(t) => Variables::from_str(t.as_str()),
        }
    }

    /// The probes that files are: where each mounts what it reports, and the program.
    /// A file that cannot be run is documentation, and not a probe.
    pub fn probe_entries(files: &Vec<Candidate>) -> (r: Vec<(Vec<String>, String)>)
        ensures
            mounted(r@) == probes_in(files@),
    {
        let ghost all = files@;
        let mut r: Vec<(Vec<String>, String)> = Vec::new();
        let n: usize = files.len();
        let mut i: usize = 0;
        assert(mounted(r@) =~= probes_in(all.take(0)));
        while i < n
            invariant
                i <= n == files@.len(),
                all == files@,
                mounted(r@) == probes_in(all.take(i as int)),
            decreases n - i,
        {
            let ghost had = mounted(r@);
            assert(all.take(i + 1).drop_last() =~= all.take(i as int));
            let file = &files[i];
            if file.executable {
                let one = (mount_point(file.category.as_str(), file.key.as_str()), file.path.clone());
                r.push(one);
                assert(mounted(r@) =~= had.push((text::texts(one.0@), one.1@)));
            }
            i += 1;
        }
        assert(all.take(i as int) =~= all);
        r
    }

    /// The probes that files are, as the dotted key of the subtree that each feeds, and
    /// the program.
    pub fn probes(files: &Vec<Candidate>) -> (r: Vec<(String, String)>)
        ensures
            r@.len() == probes_in(files@).len(),
            forall|i: int|
                0 <= i < r@.len() ==> (#[trigger] r@[i]).0@ == text::join(
                    probes_in(files@)[i].0,
                    "."@,
                ) && r@[i].1@ == probes_in(files@)[i].1,
    {
        let ghost want = probes_in(files@);
        let entries = Self::probe_entries(files);
        let mut r: Vec<(String, String)> = Vec::new();
        let n: usize = entries.len();
        let mut i: usize = 0;
        assert(mounted(entries@).len() == entries@.len());
        while i < n
            invariant
                i <= n == entries@.len(),
                mounted(entries@) == want,
                r@.len() == i,
                forall|j: int|
                    0 <= j < i ==> (#[trigger] r@[j]).0@ == text::join(want[j].0, "."@) && r@[j].1@
                        == want[j].1,
            decreases n - i,
        {
            assert(want[i as int] == (text::texts(entries@[i as int].0@), entries@[i as int].1@));
            r.push((text::joined(&entries[i].0, "."), entries[i].1.clone()));
            i += 1;
        }
        r
    }

    /// What answers for a key, when anything does: the last document that sets
    /// it, or a probe.
    pub fn source_of(&self, key: &str, documents: &Vec<(String, Read)>) -> (r: Option<String>)
        ensures
            match r {
                None => value_at(self@, key@) is Err,
                Some(source) => {
                    &&& value_at(self@, key@) is Ok
                    &&& (exists|i: int|
                        {
                            &&& 0 <= i < documents@.len()
                            &&& sets((#[trigger] documents@[i]).1, key@)
                            &&& source@ == documents@[i].0@
                            &&& forall|j: int|
                                i < j < documents@.len() ==> !sets((#[trigger] documents@[j]).1, key@)
                        }) || (source@ == PROBED@ && forall|j: int|
                        0 <= j < documents@.len() ==> !sets((#[trigger] documents@[j]).1, key@))
                },
            },
    {
        if self.get_value(key).is_err() {
            return None;
        }
        let mut i: usize = documents.len();
        while i > 0
            invariant
                i <= documents@.len(),
                value_at(self@, key@) is Ok,
                forall|j: int|
                    i <= j < documents@.len() ==> !sets((#[trigger] documents@[j]).1, key@),
            decreases i,
        {
            i -= 1;
            if Self::body_sets(&documents[i].1, key) {
                return Some(documents[i].0.clone());
            }
        }
        Some(PROBED.to_owned())
    }

    /// Whether a document gives a value other than null under a key.
    fn body_sets(body: &Read, key: &str) -> (r: bool)
        ensures
            r == sets(*body, key@),
    {
        match body {
            Err(_) => false,
            Ok(body) => match Variables::from_str(body.as_str()) {
                Err(_) => false,
                Ok(var) => match var.get_value(key) {
                    Err(_) => false,
                    Ok(Datum::Null) => false,
                    Ok(_) => true,
                },
            },
        }
    }
}

proof fn lemma_documents_stop(j: Json, bodies: Seq<Read>, default: Merge, i: int)
    requires
        0 <= i <= bodies.len(),
        with_documents(j, bodies.take(i), default).1 is Err,
    ensures
        with_documents(j, bodies, default) == with_documents(j, bodies.take(i), default),
    decreases bodies.len() - i,
{
    if i == bodies.len() {
        assert(bodies.take(i) =~= bodies);
    } else {
        assert(bodies.take(i + 1).drop_last() =~= bodies.take(i));
        lemma_documents_stop(j, bodies, default, i + 1);
    }
}

/// There are three ways to merge, and each is asked for by its own name.
pub proof fn law_merge_strategies_have_three_names(name: Seq<char>)
    ensures
        merge_named("replace"@) == Ok::<Merge, Seq<char>>(Merge::Replace),
        merge_named("partial"@) == Ok::<Merge, Seq<char>>(Merge::Partial),
        merge_named("full"@) == Ok::<Merge, Seq<char>>(Merge::Full),
        name != "replace"@ && name != "partial"@ && name != "full"@ ==> merge_named(name) is Err,
{
    reveal_strlit("replace");
    reveal_strlit("partial");
    reveal_strlit("full");
    assert("replace"@[0] == 'r' && "partial"@[0] == 'p' && "full"@[0] == 'f');
}

/// Lists are put one after the other by a full merge, and the new list takes
/// the place of the old one in the other two.
pub proof fn law_lists_merge_by_strategy(x: Seq<Json>, y: Seq<Json>)
    ensures
        merged(Json::Array(x), Json::Array(y), Merge::Full) matches Json::Array(z) && z.len()
            == x.len() + y.len() && (forall|i: int| 0 <= i < x.len() ==> #[trigger] z[i] == x[i]) && (
        forall|i: int| 0 <= i < y.len() ==> z[x.len() + i] == #[trigger] y[i]),
        merged(Json::Array(x), Json::Array(y), Merge::Partial) == Json::Array(y),
        merged(Json::Array(x), Json::Array(y), Merge::Replace) == Json::Array(y),
{
}

/// Whatever the strategy, a member that the new object does not have is kept,
/// and a member that it has with a plain value is given that value. A full
/// merge keeps what is below both, a partial one does too but takes away what
/// is null, and a replacing one takes the new member whole.
pub proof fn law_objects_merge_by_strategy(
    x: Map<Seq<char>, Json>,
    y: Map<Seq<char>, Json>,
    strategy: Merge,
    k: Seq<char>,
)
    requires
        y.dom().finite(),
    ensures
        merged(Json::Object(x), Json::Object(y), strategy) matches Json::Object(z) && {
            &&& !y.dom().contains(k) ==> (z.dom().contains(k) <==> x.dom().contains(k))
            &&& !y.dom().contains(k) && x.dom().contains(k) ==> z[k] == x[k]
            &&& y.dom().contains(k) && (y[k] is Bool || y[k] is Number || y[k] is Text)
                ==> z.dom().contains(k) && z[k] == y[k]
            &&& y.dom().contains(k) && y[k] is Null ==> (z.dom().contains(k) <==> strategy
                != Merge::Partial)
            &&& y.dom().contains(k) && strategy == Merge::Replace ==> z.dom().contains(k) && z[k]
                == y[k]
            &&& y.dom().contains(k) && x.dom().contains(k) && y[k] is Object && x[k] is Object
                && strategy != Merge::Replace ==> z.dom().contains(k) && z[k] == merged(
                x[k],
                y[k],
                strategy,
            )
            &&& y.dom().contains(k) && x.dom().contains(k) && y[k] is Array && x[k] is Array && strategy
                == Merge::Full ==> z.dom().contains(k) && z[k] == Json::Array(
                x[k]->Array_0 + y[k]->Array_0,
            )
            &&& y.dom().contains(k) && y[k] is Array && strategy == Merge::Partial ==> z.dom().contains(
                k,
            ) && z[k] == y[k]
        },
{
    match strategy {
        Merge::Replace => {
            value::law_a_replacement_is_whole(Json::Object(x), Json::Object(y), k);
        },
        Merge::Partial => {
            value::law_a_patch_changes_what_it_names(x, y, k);
        },
        Merge::Full => {
            value::law_objects_are_combined_member_by_member(x, y, k);
            if y.dom().contains(k) {
                let old = if x.dom().contains(k) {
                    x[k]
                } else {
                    Json::Null
                };
                if !(old is Array && y[k] is Array) && !(old is Object && y[k] is Object) {
                    value::law_what_cannot_be_combined_is_replaced(old, y[k]);
                }
            }
        },
    }
}

/// A document is merged by the strategy that it names under `_merge`, which is
/// not kept, and by the default where it names none; a name that is none of a
/// strategy is refused.
pub proof fn law_a_document_names_its_strategy(
    j: Json,
    m: Map<Seq<char>, Json>,
    strategy: Merge,
    default: Merge,
)
    ensures
        !m.dom().contains("_merge"@) ==> merged_at(j, Seq::empty(), Json::Object(m), default) == Ok::<
            Json,
            Seq<char>,
        >(merged(j, Json::Object(m), default)),
        m.dom().contains("_merge"@) && m["_merge"@] == Json::Text(merge_name(strategy)) ==> merged_at(
            j,
            Seq::empty(),
            Json::Object(m),
            default,
        ) == Ok::<Json, Seq<char>>(merged(j, Json::Object(m.remove("_merge"@)), strategy)),
        m.dom().contains("_merge"@) && !(m["_merge"@] is Text) ==> merged_at(
            j,
            Seq::empty(),
            Json::Object(m),
            default,
        ) is Err,
        m.dom().contains("_merge"@) && m["_merge"@] is Text && merge_named(
            m["_merge"@]->Text_0,
        ) is Err ==> merged_at(j, Seq::empty(), Json::Object(m), default) is Err,
{
    law_merge_name_is_read_back(strategy);
    if !m.dom().contains("_merge"@) {
        assert(m.remove("_merge"@) =~= m);
    }
}

/// A document that is mounted below a chain of names is merged into what is
/// there, and what is not below the chain stays as it is.
pub proof fn law_a_document_is_merged_where_it_is_mounted(
    j: Json,
    keys: Seq<Seq<char>>,
    document: Json,
    default: Merge,
    other: Seq<Seq<char>>,
)
    requires
        keys.len() > 0,
        merged_at(j, keys, document, default) is Ok,
    ensures
        walk(merged_at(j, keys, document, default)->Ok_0, keys) is Some,
        walk(j, keys) matches Some(there) ==> merged_at(there, Seq::empty(), document, default)
            == Ok::<Json, Seq<char>>(
            walk(merged_at(j, keys, document, default)->Ok_0, keys)->0,
        ),
        walk(j, keys) is None ==> merged_at(
            Json::Object(Map::empty()),
            Seq::empty(),
            document,
            default,
        ) == Ok::<Json, Seq<char>>(walk(merged_at(j, keys, document, default)->Ok_0, keys)->0),
        parts_ways(keys, other) ==> walk(merged_at(j, keys, document, default)->Ok_0, other) == walk(
            j,
            other,
        ),
{
    let left = declared_merge(document).0;
    let strategy = match declared_merge(document).1->Ok_0 {
        Some(strategy) => strategy,
        None => default,
    };
    let new = merged(subtree(j, keys)->Ok_0, left, strategy);
    lemma_subtree_parent(j, keys);
    lemma_walk_graft(j, keys, new);
    lemma_subtree_walks(j, keys);
    if parts_ways(keys, other) {
        lemma_graft_keeps(j, keys, new, other);
    }
}

proof fn lemma_subtree_parent(j: Json, keys: Seq<Seq<char>>)
    requires
        keys.len() > 0,
        subtree(j, keys) is Ok,
    ensures
        subtree(j, keys.drop_last()) matches Ok(Json::Object(_)),
    decreases keys.len(),
{
    let below = if j->Object_0.dom().contains(keys[0]) {
        j->Object_0[keys[0]]
    } else {
        Json::Object(Map::empty())
    };
    if keys.len() == 1 {
        assert(keys.drop_last() =~= Seq::empty());
    } else {
        lemma_subtree_parent(below, keys.drop_first());
        assert(keys.drop_last()[0] == keys[0]);
        assert(keys.drop_last().drop_first() =~= keys.drop_first().drop_last());
    }
}

proof fn lemma_subtree_walks(j: Json, keys: Seq<Seq<char>>)
    requires
        subtree(j, keys) is Ok,
    ensures
        subtree(j, keys)->Ok_0 == (match walk(j, keys) {
            Some(v) => v,
            None => Json::Object(Map::empty()),
        }),
    decreases keys.len(),
{
    if keys.len() > 0 {
        let m = j->Object_0;
        let below = if m.dom().contains(keys[0]) {
            m[keys[0]]
        } else {
            Json::Object(Map::empty())
        };
        lemma_subtree_walks(below, keys.drop_first());
        if !m.dom().contains(keys[0]) {
            lemma_walk_nothing(keys.drop_first());
        }
    }
}

proof fn lemma_walk_nothing(keys: Seq<Seq<char>>)
    ensures
        keys.len() > 0 ==> walk(Json::Object(Map::empty()), keys) is None,
{
    if keys.len() > 0 {
        assert(step(Json::Object(Map::empty()), keys[0]) is None);
    }
}

/// A chain of names is followed one after the other, through the members of
/// objects and the elements of lists, and ends where there is nothing.
pub proof fn law_a_chain_is_followed_name_by_name(j: Json, a: Seq<Seq<char>>, b: Seq<Seq<char>>)
    ensures
        walk(j, Seq::empty()) == Some(j),
        walk(j, a + b) == (match walk(j, a) {
            Some(v) => walk(v, b),
            None => None,
        }),
    decreases a.len(),
{
    if a.len() == 0 {
        assert(a + b =~= b);
    } else {
        assert((a + b)[0] == a[0]);
        assert((a + b).drop_first() =~= a.drop_first() + b);
        match step(j, a[0]) {
            Some(v) => {
                law_a_chain_is_followed_name_by_name(v, a.drop_first(), b);
            },
            None => {},
        }
    }
}

/// A name leads to the member of that name in an object, to the element of
/// that number in a list, counted from zero, and nowhere from anything else.
pub proof fn law_a_name_leads_to_a_member_or_an_element(
    m: Map<Seq<char>, Json>,
    list: Seq<Json>,
    name: Seq<char>,
    n: nat,
)
    ensures
        m.dom().contains(name) ==> walk(Json::Object(m), seq![name]) == Some(m[name]),
        !m.dom().contains(name) ==> walk(Json::Object(m), seq![name]) is None,
        n < list.len() ==> walk(Json::Array(list), seq![text::decimal(n)]) == Some(list[n as int]),
        n >= list.len() ==> walk(Json::Array(list), seq![text::decimal(n)]) is None,
        text::natural(name) is None ==> walk(Json::Array(list), seq![name]) is None,
        walk(Json::Null, seq![name]) is None,
        forall|j: Json|
            j is Bool || j is Number || j is Text ==> (#[trigger] walk(j, seq![name])) is None,
{
    text::lemma_decimal_is_read(n);
    let one = seq![name];
    let digits = seq![text::decimal(n)];
    assert(one[0] == name);
    assert(one.drop_first() =~= Seq::empty());
    assert(digits[0] == text::decimal(n));
    assert(digits.drop_first() =~= Seq::empty());
    if m.dom().contains(name) {
        assert(walk(m[name], Seq::empty()) == Some(m[name]));
    }
    if n < list.len() {
        assert(walk(list[n as int], Seq::empty()) == Some(list[n as int]));
    }
}

/// A dotted key is the names between its dots, so a value below another is
/// read by the key of the one, a dot and the key of the other.
pub proof fn law_a_dotted_key_is_read_in_two(j: Json, a: Seq<char>, b: Seq<char>)
    ensures
        value_at(j, a) matches Ok(v) ==> (value_at(j, a + seq!['.'] + b) is Ok <==> value_at(v, b) is Ok)
            && (value_at(v, b) matches Ok(w) ==> value_at(j, a + seq!['.'] + b) == Ok::<
            Json,
            Seq<char>,
        >(w)),
        value_at(j, a) is Err ==> value_at(j, a + seq!['.'] + b) is Err,
{
    text::lemma_split_joins(a, b, '.');
    law_a_chain_is_followed_name_by_name(j, components(a), components(b));
}

/// A key without a dot is set in an object beside what is there, in the place
/// of what it held.
pub proof fn law_a_plain_key_is_set(m: Map<Seq<char>, Json>, key: Seq<char>, v: Json)
    requires
        key.len() > 0,
        forall|i: int| 0 <= i < key.len() ==> key[i] != '.',
        text::natural(key) is None,
    ensures
        set_at(Json::Object(m), key, v) == Ok::<Json, Seq<char>>(Json::Object(m.insert(key, v))),
{
    text::lemma_split_whole(key, '.');
    let all = components(key);
    assert(all =~= seq![key]);
    assert(!all.contains(Seq::empty())) by {
        if all.contains(Seq::empty()) {
            let i = choose|i: int| 0 <= i < all.len() && all[i] == Seq::<char>::empty();
            assert(all[i] == key);
        }
    }
    assert(first_index(all) is None) by {
        reveal_with_fuel(first_index, 2);
        assert(all.drop_first() =~= Seq::empty());
    }
    assert(all.drop_last() =~= Seq::empty());
    assert(all.last() == key);
}

/// A key with nothing between two dots is not set, nor one that names an
/// element of a list.
pub proof fn law_a_key_that_cannot_be_set_is_refused(j: Json, key: Seq<char>, v: Json, i: int)
    requires
        0 <= i < components(key).len(),
        components(key)[i].len() == 0 || (text::natural(components(key)[i]) is Some && text::natural(
            components(key)[i],
        )->0 <= usize::MAX),
    ensures
        set_at(j, key, v) is Err,
{
    let all = components(key);
    if all[i].len() == 0 {
        assert(all[i] =~= Seq::empty());
        assert(all.contains(Seq::empty()));
    } else {
        lemma_first_index(all, i);
    }
}

proof fn lemma_first_index(all: Seq<Seq<char>>, i: int)
    requires
        0 <= i < all.len(),
        is_index(all[i]),
    ensures
        first_index(all) is Some,
    decreases all.len(),
{
    if !is_index(all[0]) {
        assert(all.drop_first()[i - 1] == all[i]);
        lemma_first_index(all.drop_first(), i - 1);
    }
}

/// Keys that part ways are set one after the other without one touching the
/// other, so each of them holds what it was given.
pub proof fn law_every_key_of_a_mapping_is_set(
    j: Json,
    m: Map<Seq<char>, Json>,
    keys: Seq<Seq<char>>,
    i: int,
)
    requires
        set_all(j, m, keys).1 is Ok,
        0 <= i < keys.len(),
        forall|a: int, b: int|
            0 <= a < keys.len() && 0 <= b < keys.len() && a != b ==> parts_ways(
                components(#[trigger] keys[a]),
                components(#[trigger] keys[b]),
            ),
    ensures
        value_at(set_all(j, m, keys).0, keys[i]) == Ok::<Json, Seq<char>>(m[keys[i]]),
    decreases keys.len(),
{
    let rest = keys.drop_first();
    let next = set_at(j, keys[0], m[keys[0]])->Ok_0;
    assert forall|a: int, b: int|
        0 <= a < rest.len() && 0 <= b < rest.len() && a != b implies parts_ways(
        components(#[trigger] rest[a]),
        components(#[trigger] rest[b]),
    ) by {
        assert(rest[a] == keys[a + 1] && rest[b] == keys[b + 1]);
    }
    if i > 0 {
        assert(rest[i - 1] == keys[i]);
        law_every_key_of_a_mapping_is_set(next, m, rest, i - 1);
    } else {
        law_set_is_read_back(j, keys[0], m[keys[0]]);
        assert forall|a: int| 0 <= a < rest.len() implies parts_ways(
            components(#[trigger] rest[a]),
            components(keys[0]),
        ) by {
            assert(rest[a] == keys[a + 1]);
        }
        lemma_set_all_keeps(next, m, rest, keys[0]);
    }
}

proof fn lemma_set_all_keeps(
    j: Json,
    m: Map<Seq<char>, Json>,
    keys: Seq<Seq<char>>,
    other: Seq<char>,
)
    requires
        forall|a: int|
            0 <= a < keys.len() ==> parts_ways(components(#[trigger] keys[a]), components(other)),
    ensures
        value_at(set_all(j, m, keys).0, other) == value_at(j, other),
    decreases keys.len(),
{
    if keys.len() > 0 && set_at(j, keys[0], m[keys[0]]) is Ok {
        let rest = keys.drop_first();
        let next = set_at(j, keys[0], m[keys[0]])->Ok_0;
        assert forall|a: int| 0 <= a < rest.len() implies parts_ways(
            components(#[trigger] rest[a]),
            components(other),
        ) by {
            assert(rest[a] == keys[a + 1]);
        }
        assert(parts_ways(components(keys[0]), components(other)));
        law_set_keeps_the_rest(j, keys[0], m[keys[0]], other);
        lemma_set_all_keeps(next, m, rest, other);
    }
}

/// A value that is given on a command line is the JSON that it writes, and is
/// a text when it writes none.
pub proof fn law_a_value_is_json_or_a_text(t: Seq<char>)
    ensures
        document::json_reading(t) matches Ok(j) ==> typed(t) == j,
        document::json_reading(t) is Err ==> typed(t) == Json::Text(t),
{
}

/// A document is JSON if it can be read as JSON, else YAML if it can be read
/// as YAML, else TOML, and is refused when it is none of them.
pub proof fn law_a_document_is_read_as_the_first_format_that_fits(body: Seq<char>)
    ensures
        document::json_reading(body) matches Ok(j) ==> document_in(body) == Ok::<Json, Seq<char>>(j),
        document::json_reading(body) is Err ==> (document::yaml_reading(body) matches Ok(j)
            ==> document_in(body) == Ok::<Json, Seq<char>>(j)),
        document::json_reading(body) is Err && document::yaml_reading(body) is Err ==> (
        document::toml_reading(body) matches Ok(j) ==> document_in(body) == Ok::<Json, Seq<char>>(
            j,
        )),
        document_in(body) is Err <==> document::json_reading(body) is Err && document::yaml_reading(
            body,
        ) is Err && document::toml_reading(body) is Err,
        document_in(body) matches Ok(Json::Object(m)) ==> mapping_in(body) == Ok::<
            Map<Seq<char>, Json>,
            Seq<char>,
        >(m),
        mapping_in(body) is Ok <==> (document_in(body) is Ok && document_in(body)->Ok_0 is Object),
{
}

/// The last document decides every key that it gives a plain value, and leaves
/// those that it does not name; a document that cannot be read is an error.
pub proof fn law_the_last_document_decides(
    j: Json,
    bodies: Seq<Read>,
    last: Read,
    p: Map<Seq<char>, Json>,
    default: Merge,
    k: Seq<char>,
)
    requires
        with_documents(j, bodies, default).1 is Ok,
        with_documents(j, bodies, default).0 is Object,
        p.dom().finite(),
        !p.dom().contains("_merge"@),
    ensures
        last is Err ==> with_documents(j, bodies.push(last), default).1 is Err,
        last is Ok && document_in(last->Ok_0@) is Err ==> with_documents(
            j,
            bodies.push(last),
            default,
        ).1 is Err,
        last is Ok && document_in(last->Ok_0@) == Ok::<Json, Seq<char>>(Json::Object(p)) ==> {
            let (after, r) = with_documents(j, bodies.push(last), default);
            let before = with_documents(j, bodies, default).0;
            &&& r is Ok
            &&& after is Object
            &&& p.dom().contains(k) && (p[k] is Bool || p[k] is Number || p[k] is Text)
                ==> after->Object_0.dom().contains(k) && after->Object_0[k] == p[k]
            &&& !p.dom().contains(k) ==> (after->Object_0.dom().contains(k)
                <==> before->Object_0.dom().contains(k))
            &&& !p.dom().contains(k) && before->Object_0.dom().contains(k) ==> after->Object_0[k]
                == before->Object_0[k]
        },
{
    assert(bodies.push(last).drop_last() =~= bodies);
    assert(bodies.push(last).last() == last);
    if last is Ok && document_in(last->Ok_0@) == Ok::<Json, Seq<char>>(Json::Object(p)) {
        let before = with_documents(j, bodies, default).0;
        law_a_document_names_its_strategy(before, p, Merge::Full, default);
        law_objects_merge_by_strategy(before->Object_0, p, default, k);
    }
}

/// The namespace is what the probes report with the documents over it. A probe
/// that fails, or that reports what cannot be read, is left out, and fails
/// nothing.
pub proof fn law_documents_come_over_what_probes_report(
    reports: Seq<Report>,
    last: Report,
    bodies: Seq<Read>,
    default: Merge,
)
    ensures
        last.body is Err || document_in(last.body->Ok_0@) is Err ==> system_namespace(
            reports.push(last),
            bodies,
            default,
        ) == system_namespace(reports, bodies, default),
        bodies.len() == 0 ==> system_namespace(reports, bodies, default) == Ok::<Json, Seq<char>>(
            with_reports(Json::Object(Map::empty()), reports, default),
        ),
        reports.len() == 0 && bodies.len() == 0 ==> system_namespace(reports, bodies, default) == Ok::<
            Json,
            Seq<char>,
        >(Json::Object(Map::empty())),
{
    assert(reports.push(last).drop_last() =~= reports);
}

/// What a probe reports stands in the namespace below where it is mounted.
pub proof fn law_a_report_stands_where_it_is_mounted(
    j: Json,
    reports: Seq<Report>,
    last: Report,
    default: Merge,
)
    requires
        last.mount@.len() > 0,
        last.body is Ok,
        document_in(last.body->Ok_0@) is Ok,
        merged_at(
            with_reports(j, reports, default),
            text::texts(last.mount@),
            document_in(last.body->Ok_0@)->Ok_0,
            default,
        ) is Ok,
    ensures
        with_reports(j, reports.push(last), default) == merged_at(
            with_reports(j, reports, default),
            text::texts(last.mount@),
            document_in(last.body->Ok_0@)->Ok_0,
            default,
        )->Ok_0,
        walk(with_reports(j, reports.push(last), default), text::texts(last.mount@)) is Some,
{
    assert(reports.push(last).drop_last() =~= reports);
    law_a_document_is_merged_where_it_is_mounted(
        with_reports(j, reports, default),
        text::texts(last.mount@),
        document_in(last.body->Ok_0@)->Ok_0,
        default,
        Seq::empty(),
    );
}

/// The drop-in of a key is named after its store's order and the key, with a
/// dash for every dot.
pub proof fn law_a_dropin_is_named_after_its_key(key: Seq<char>)
    ensures
        dropin_of(key, Store::Runtime) == "95-"@ + dashed(key) + ".json"@,
        dropin_of(key, Store::Persisted) == "90-"@ + dashed(key) + ".json"@,
        dashed(key).len() == key.len(),
        forall|i: int|
            0 <= i < key.len() ==> #[trigger] dashed(key)[i] == (if key[i] == '.' {
                '-'
            } else {
                key[i]
            }),
    decreases key.len(),
{
    reveal_strlit("95-");
    reveal_strlit("90-");
    reveal_strlit("95");
    reveal_strlit("90");
    reveal_strlit("-");
    assert("95-"@ =~= "95"@ + "-"@);
    assert("90-"@ =~= "90"@ + "-"@);
    lemma_dashed(key);
}

proof fn lemma_dashed(key: Seq<char>)
    ensures
        text::join(text::split(key, '.'), "-"@).len() == key.len(),
        forall|i: int|
            0 <= i < key.len() ==> #[trigger] text::join(text::split(key, '.'), "-"@)[i] == (
            if key[i] == '.' {
                '-'
            } else {
                key[i]
            }),
    decreases key.len(),
{
    reveal_strlit("-");
    assert("-"@ =~= seq!['-']);
    let all = text::split(key, '.');
    if key.len() == 0 {
        assert(all =~= seq![Seq::<char>::empty()]);
    } else {
        let less = key.drop_last();
        let before = text::split(less, '.');
        text::lemma_split_some(less, '.');
        lemma_dashed(less);
        let short = text::join(before, "-"@);
        if key.last() == '.' {
            text::law_join_puts_one_between(before, Seq::empty(), "-"@);
            assert(text::join(all, "-"@) =~= short.push('-'));
        } else {
            let c = key.last();
            let front = before.drop_last();
            if front.len() == 0 {
                assert(all =~= seq![before.last().push(c)]);
                assert(before =~= seq![before.last()]);
            } else {
                text::law_join_puts_one_between(front, before.last().push(c), "-"@);
                text::law_join_puts_one_between(front, before.last(), "-"@);
                assert(before =~= front.push(before.last()));
            }
            assert(text::join(all, "-"@) =~= short.push(c));
        }
        assert forall|i: int| 0 <= i < key.len() implies #[trigger] text::join(all, "-"@)[i] == (
        if key[i] == '.' {
            '-'
        } else {
            key[i]
        }) by {
            if i < less.len() {
                assert(short[i] == text::join(all, "-"@)[i]);
                assert(less[i] == key[i]);
            }
        }
    }
}

/// What lasts until the next boot is kept below `run`, and what outlasts it
/// below `etc`.
pub proof fn law_stores_have_their_directories()
    ensures
        Store::Runtime.dir_text() == "run/detc/variables/user.d"@,
        Store::Persisted.dir_text() == "etc/detc/variables/user.d"@,
{
}

/// A file that says its order keeps its name as a drop-in, and any other is
/// given the order of the store before its name.
pub proof fn law_a_file_keeps_the_order_that_it_says(path: Seq<char>, store: Store)
    requires
        path::last_name(path) is Some,
    ensures
        ({
            let name = path::last_name(path)->0;
            let says = name.len() >= 3 && '0' <= name[0] && name[0] <= '9' && '0' <= name[1] && name[1]
                <= '9' && name[2] == '-';
            &&& says ==> dropin_of_file(path, store) == Ok::<Seq<char>, Seq<char>>(name)
            &&& !says && store == Store::Runtime ==> dropin_of_file(path, store) == Ok::<
                Seq<char>,
                Seq<char>,
            >("95-"@ + name)
            &&& !says && store == Store::Persisted ==> dropin_of_file(path, store) == Ok::<
                Seq<char>,
                Seq<char>,
            >("90-"@ + name)
        }),
{
    reveal_strlit("95-");
    reveal_strlit("90-");
    reveal_strlit("95");
    reveal_strlit("90");
    reveal_strlit("-");
    assert("95-"@ =~= "95"@ + "-"@);
    assert("90-"@ =~= "90"@ + "-"@);
}

/// The ending that says the format of a document is not part of its name; any
/// other ending is.
pub proof fn law_the_format_is_not_part_of_the_name(name: Seq<char>, ending: Seq<char>)
    requires
        forall|i: int| 0 <= i < ending.len() ==> ending[i] != '.',
    ensures
        ending == "yaml"@ || ending == "yml"@ || ending == "json"@ || ending == "toml"@ ==> stem(
            name + seq!['.'] + ending,
        ) == name,
        ending != "yaml"@ && ending != "yml"@ && ending != "json"@ && ending != "toml"@ ==> stem(
            name + seq!['.'] + ending,
        ) == name + seq!['.'] + ending,
        stem(ending) == ending,
{
    reveal_strlit(".");
    assert("."@ =~= seq!['.']);
    text::lemma_split_joins(name, ending, '.');
    text::lemma_split_whole(ending, '.');
    text::lemma_split_some(name, '.');
    text::lemma_split_join(name, '.');
    let pieces = text::split(name, '.') + seq![ending];
    assert(pieces.drop_last() =~= text::split(name, '.'));
    assert(pieces.last() == ending);
}

/// A probe is mounted below its category and the directories that it lies in,
/// in their order; its own name is no part of it.
pub proof fn law_a_probe_is_mounted_by_its_directories(category: Seq<char>, key: Seq<char>)
    ensures
        mount(category, key).len() > 0,
        mount(category, key)[0] == category,
        path::names(key).len() > 0 ==> mount(category, key).len() == path::names(key).len(),
        path::names(key).len() == 0 ==> mount(category, key).len() == 1,
        forall|i: int|
            0 <= i < path::names(key).len() - 1 ==> mount(category, key)[i + 1]
                == #[trigger] path::names(key)[i],
{
}

/// The probes are the executable files, in their order, each at its mount.
pub proof fn law_probes_are_the_executable_files(
    files: Seq<Candidate>,
    more: Candidate,
)
    ensures
        probes_in(Seq::empty()).len() == 0,
        !more.executable ==> probes_in(files.push(more)) == probes_in(files),
        more.executable ==> probes_in(files.push(more)).len() == probes_in(files).len() + 1
            && probes_in(files.push(more)).last().1 == more.path@ && probes_in(
            files.push(more),
        ).last().0 == mount(more.category@, more.key@) && probes_in(files.push(more)).drop_last()
            == probes_in(files),
{
    assert(files.push(more).drop_last() =~= files);
    if more.executable {
        assert(probes_in(files.push(more)).drop_last() =~= probes_in(files));
    }
}

/// A document is addressed by its group, and by its name behind a slash where
/// it has one; its name is that of its file without the format.
pub proof fn law_a_document_is_addressed_by_group_and_name(
    group: Seq<char>,
    entries: Seq<(String, String)>,
    i: int,
)
    requires
        0 <= i < entries.len(),
    ensures
        written(group, entries).len() == entries.len(),
        written(group, entries)[i].source == entries[i].1@,
        stem(entries[i].0@).len() > 0 ==> address(written(group, entries)[i]) == group + "/"@ + stem(
            entries[i].0@,
        ),
        stem(entries[i].0@).len() == 0 ==> address(written(group, entries)[i]) == group,
{
}

/// A document that is asked for by an address is the first that has it, and
/// one that is asked for with its format is the one that is asked for without.
pub proof fn law_an_address_finds_a_document_that_has_it(all: Seq<Writing>, id: Seq<char>)
    ensures
        addressed(all, id) matches Some(w) ==> all.contains(w) && (address(w) == id || address(w)
            == stem(id)),
        addressed(all, id) is None ==> forall|i: int|
            0 <= i < all.len() ==> address(#[trigger] all[i]) != id && address(all[i]) != stem(id),
{
    lemma_first_has_address(all, id);
    lemma_first_has_address(all, stem(id));
}

proof fn lemma_first_has_address(all: Seq<Writing>, id: Seq<char>)
    ensures
        first_addressed(all, id) matches Some(w) ==> all.contains(w) && address(w) == id,
        first_addressed(all, id) is None ==> forall|i: int|
            0 <= i < all.len() ==> address(#[trigger] all[i]) != id,
    decreases all.len(),
{
    if all.len() > 0 {
        let rest = all.drop_first();
        lemma_first_has_address(rest, id);
        match first_addressed(rest, id) {
            Some(w) => {
                let i = choose|i: int| 0 <= i < rest.len() && rest[i] == w;
                if rest.contains(w) {
                    assert(all[i + 1] == w);
                }
            },
            None => {
                assert forall|i: int|
                    1 <= i < all.len() implies address(#[trigger] all[i]) != id by {
                    assert(rest[i - 1] == all[i]);
                }
            },
        }
        assert(all[0] == all[0]);
        assert(all.contains(all[0]));
    }
}

/// A document says something of a key when it holds a value there that is not
/// null.
pub proof fn law_a_document_sets_what_it_holds(body: String, key: Seq<char>, v: Json)
    ensures
        document_in(body@) is Ok && value_at(document_in(body@)->Ok_0, key) == Ok::<
            Json,
            Seq<char>,
        >(v) ==> (sets(Ok(body), key) <==> !(v is Null)),
        document_in(body@) is Ok && value_at(document_in(body@)->Ok_0, key) is Err ==> !sets(
            Ok(body),
            key,
        ),
        document_in(body@) is Err ==> !sets(Ok(body), key),
{
}

/// A document keeps what it does not name unless it says otherwise.
pub proof fn law_the_default_keeps_what_is_not_named()
    ensures
        DEFAULT_MERGE == Merge::Partial,
        merge_name(Merge::Replace) == "replace"@,
        merge_name(Merge::Partial) == "partial"@,
        merge_name(Merge::Full) == "full"@,
        USER_VARIABLES_NAME@ == "detc/variables/user"@,
        SYSTEM_VARIABLES_NAME@ == "detc/variables/system"@,
{
}

/// A drop-in of a store is in the directory of the store, below the root.
pub proof fn law_a_dropin_is_in_its_store(root: Seq<char>, name: Seq<char>)
    requires
        root.len() > 0,
        root.last() != '/',
        name.len() > 0,
        name[0] != '/',
    ensures
        in_store(root, Store::Runtime, name) == root + seq!['/'] + "run/detc/variables/user.d"@ + seq![
            '/',
        ] + name,
        in_store(root, Store::Persisted, name) == root + seq!['/'] + "etc/detc/variables/user.d"@
            + seq!['/'] + name,
{
    reveal_strlit("run/detc/variables/user.d");
    reveal_strlit("etc/detc/variables/user.d");
    let a = root + seq!['/'] + "run/detc/variables/user.d"@;
    let b = root + seq!['/'] + "etc/detc/variables/user.d"@;
    assert(a.last() == 'd' && b.last() == 'd');
}

/// A document that is in none of the formats is refused with what each of them
/// says of it, every line of it set off.
pub proof fn law_a_refusal_says_what_each_format_says(a: Seq<char>, b: Seq<char>, c: Seq<char>)
    requires
        !a.contains('\n'),
        !b.contains('\n'),
        !c.contains('\n'),
    ensures
        unrecognized(a, b, c) == "Format not recognized\n  as JSON: "@ + a + "\n  as YAML: "@ + b
            + "\n  as TOML: "@ + c,
        indented(a + seq!['\n'] + b) == a + "\n    "@ + b,
{
    text::lemma_split_whole(a, '\n');
    text::lemma_split_whole(b, '\n');
    text::lemma_split_whole(c, '\n');
    text::lemma_split_joins(a, b, '\n');
    assert(seq![a] + seq![b] =~= seq![a].push(b));
    text::law_join_puts_one_between(seq![a], b, "\n    "@);
}

/// Whether a chain of names leads through objects alone, as far as it leads
/// anywhere.
pub open spec fn leads_through_objects(j: Json, keys: Seq<Seq<char>>) -> bool {
    forall|i: int|
        0 <= i <= keys.len() ==> (walk(j, #[trigger] keys.take(i)) is None || walk(
            j,
            keys.take(i),
        )->0 is Object)
}

proof fn lemma_subtree_stands(j: Json, keys: Seq<Seq<char>>)
    requires
        leads_through_objects(j, keys),
    ensures
        subtree(j, keys) is Ok,
        subtree(j, keys)->Ok_0 is Object,
    decreases keys.len(),
{
    assert(keys.take(0) =~= Seq::empty());
    assert(walk(j, keys.take(0)) == Some(j));
    if keys.len() > 0 {
        let m = j->Object_0;
        let rest = keys.drop_first();
        let below = if m.dom().contains(keys[0]) {
            m[keys[0]]
        } else {
            Json::Object(Map::empty())
        };
        assert forall|i: int| 0 <= i <= rest.len() implies (walk(below, #[trigger] rest.take(i)) is None
            || walk(below, rest.take(i))->0 is Object) by {
            if m.dom().contains(keys[0]) {
                let more = keys.take(i + 1);
                assert(more[0] == keys[0]);
                assert(more.drop_first() =~= rest.take(i));
                assert(walk(j, more) == walk(below, rest.take(i)));
            } else if i > 0 {
                lemma_walk_nothing(rest.take(i));
            } else {
                assert(rest.take(0) =~= Seq::empty());
            }
        }
        lemma_subtree_stands(below, rest);
    }
}

/// A key can be set wherever its names lead through objects, which are made
/// where there are none yet.
pub proof fn law_a_key_is_set_through_objects(j: Json, key: Seq<char>, v: Json)
    requires
        forall|i: int|
            0 <= i < components(key).len() ==> (#[trigger] components(key)[i]).len() > 0 && text::natural(
                components(key)[i],
            ) is None,
        leads_through_objects(j, components(key).drop_last()),
    ensures
        set_at(j, key, v) is Ok,
{
    let all = components(key);
    text::lemma_split_some(key, '.');
    assert(!all.contains(Seq::empty())) by {
        if all.contains(Seq::empty()) {
            let i = choose|i: int| 0 <= i < all.len() && all[i] == Seq::<char>::empty();
            assert(all[i].len() > 0);
        }
    }
    lemma_no_index(all);
    lemma_subtree_stands(j, all.drop_last());
}

proof fn lemma_no_index(all: Seq<Seq<char>>)
    requires
        forall|i: int| 0 <= i < all.len() ==> text::natural(#[trigger] all[i]) is None,
    ensures
        first_index(all) is None,
    decreases all.len(),
{
    if all.len() > 0 {
        let rest = all.drop_first();
        assert(text::natural(all[0]) is None);
        assert forall|i: int| 0 <= i < rest.len() implies text::natural(#[trigger] rest[i]) is None by {
            assert(rest[i] == all[i + 1]);
        }
        lemma_no_index(rest);
    }
}

/// A document can be mounted wherever the names lead through objects, unless it
/// names a strategy that there is none of.
pub proof fn law_a_document_is_mounted_through_objects(
    j: Json,
    keys: Seq<Seq<char>>,
    document: Json,
    default: Merge,
)
    requires
        leads_through_objects(j, keys),
    ensures
        merged_at(j, keys, document, default) is Ok <==> declared_merge(document).1 is Ok,
        !(document is Object) ==> declared_merge(document).1 is Ok,
        document is Object && !document->Object_0.dom().contains("_merge"@) ==> declared_merge(
            document,
        ).1 is Ok,
{
    lemma_subtree_stands(j, keys);
}

} // verus!
