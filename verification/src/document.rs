//! Documents as text: the formats that the system reads, and the ones that it
//! writes.
//!
//! Reading and writing JSON, YAML and TOML is the work of the crates that do
//! it.  What passes between them and the rest of the library is a
//! `serde_json::Value`, which is taken apart and put together here one level
//! at a time.

use vstd::prelude::*;

use crate::text;
use crate::value::{figure, items, lemma_items, member, members, names, Json, Datum};
use crate::value::{get, lemma_item_smaller, lemma_member_smaller, lemma_members_from};

verus! {

/// `serde_json::Value` is what the parsers produce and the writers take.
#[verifier::external_type_specification]
#[verifier::external_body]
pub struct ExValue(serde_json::Value);

/// The document that a `serde_json::Value` holds.
pub uninterp spec fn contents(v: serde_json::Value) -> Json;

/// What `serde_json` reads in a text: a document, or its complaint.
pub uninterp spec fn json_reading(body: Seq<char>) -> Result<Json, Seq<char>>;

/// What `serde_yaml_ng` reads in a text: a document, or its complaint.
pub uninterp spec fn yaml_reading(body: Seq<char>) -> Result<Json, Seq<char>>;

/// What `toml` reads in a text: a document, or its complaint.
pub uninterp spec fn toml_reading(body: Seq<char>) -> Result<Json, Seq<char>>;

/// How `serde_json` writes a document on one line.
pub uninterp spec fn json_text(j: Json) -> Seq<char>;

/// How `serde_json` writes a document over several lines.
pub uninterp spec fn json_pretty(j: Json) -> Seq<char>;

/// How `serde_yaml_ng` writes a document, or its complaint.
pub uninterp spec fn yaml_text(j: Json) -> Result<Seq<char>, Seq<char>>;

/// One level of a document.
enum Level {
    Null,
    Bool(bool),
    Number(serde_json::Number),
    String(String),
    Array(Vec<serde_json::Value>),
    Object(Vec<(String, serde_json::Value)>),
}

/// The documents in a list.
spec fn held_items(s: Seq<serde_json::Value>) -> Seq<Json> {
    Seq::new(s.len(), |i: int| contents(s[i]))
}

/// The members of an object.
spec fn held_members(s: Seq<(String, serde_json::Value)>) -> Map<Seq<char>, Json>
    decreases s.len(),
{
    if s.len() == 0 {
        Map::empty()
    } else {
        held_members(s.drop_last()).insert(s.last().0@, contents(s.last().1))
    }
}

/// Whether no name stands twice.
spec fn distinct(s: Seq<(String, serde_json::Value)>) -> bool {
    forall|i: int, j: int|
        0 <= i < j < s.len() ==> (#[trigger] s[i]).0@ != (#[trigger] s[j]).0@
}

/// The document that one level and what is below it make.
spec fn level_json(level: Level) -> Json {
    match level {
        Level::Null => Json::Null,
        Level::Bool(b) => Json::Bool(b),
        Level::Number(n) => Json::Number(figure(n)),
        Level::String(s) => Json::Text(s@),
        Level::Array(v) => Json::Array(held_items(v@)),
        Level::Object(v) => Json::Object(held_members(v@)),
    }
}

/// Take the first level of a `serde_json::Value` apart: its variant, with the
/// entries of an object as a list in which no name stands twice.
#[verifier::external_body]
fn open(v: serde_json::Value) -> (r: Level)
    ensures
        level_json(r) == contents(v),
        r matches Level::Object(entries) ==> distinct(entries@),
{
    match v {
        serde_json::Value::Null => Level::Null,
        serde_json::Value::Bool(b) => Level::Bool(b),
        serde_json::Value::Number(n) => Level::Number(n),
        serde_json::Value::String(s) => Level::String(s),
        serde_json::Value::Array(v) => Level::Array(v),
        serde_json::Value::Object(m) => Level::Object(m.into_iter().collect()),
    }
}

/// Put the first level of a `serde_json::Value` together: the variant that it
/// is, with the entries of an object collected from a list in which no name
/// stands twice.
#[verifier::external_body]
fn close(level: Level) -> (r: serde_json::Value)
    requires
        level matches Level::Object(entries) ==> distinct(entries@),
    ensures
        contents(r) == level_json(level),
{
    match level {
        Level::Null => serde_json::Value::Null,
        Level::Bool(b) => serde_json::Value::Bool(b),
        Level::Number(n) => serde_json::Value::Number(n),
        Level::String(s) => serde_json::Value::String(s),
        Level::Array(v) => serde_json::Value::Array(v),
        Level::Object(m) => serde_json::Value::Object(m.into_iter().collect()),
    }
}

/// `serde_json::from_str` reads a document, or says why it cannot.
#[verifier::external_body]
fn parse_json(body: &str) -> (r: Result<serde_json::Value, String>)
    ensures
        json_reading(body@) == (match r {
            Ok(v) => Ok(contents(v)),
            Err(e) => Err(e@),
        }),
{
    serde_json::from_str(body).map_err(|e: serde_json::Error| e.to_string())
}

/// `serde_yaml_ng::from_str` reads a document, or says why it cannot.
#[verifier::external_body]
fn parse_yaml(body: &str) -> (r: Result<serde_json::Value, String>)
    ensures
        yaml_reading(body@) == (match r {
            Ok(v) => Ok(contents(v)),
            Err(e) => Err(e@),
        }),
{
    serde_yaml_ng::from_str(body).map_err(|e: serde_yaml_ng::Error| e.to_string())
}

/// `toml::from_str` reads a document, or says why it cannot.
#[verifier::external_body]
fn parse_toml(body: &str) -> (r: Result<serde_json::Value, String>)
    ensures
        toml_reading(body@) == (match r {
            Ok(v) => Ok(contents(v)),
            Err(e) => Err(e@),
        }),
{
    toml::from_str(body).map_err(|e: toml::de::Error| e.to_string())
}

/// `serde_json::Value` writes itself as one line of JSON.
#[verifier::external_body]
fn print_json(v: &serde_json::Value) -> (r: String)
    ensures
        r@ == json_text(contents(*v)),
{
    v.to_string()
}

/// `serde_json::Value` writes itself as several lines of JSON in the alternate
/// form of its `Display`.
#[verifier::external_body]
fn print_pretty(v: &serde_json::Value) -> (r: String)
    ensures
        r@ == json_pretty(contents(*v)),
{
    format!("{v:#}")
}

/// `serde_yaml_ng::to_string` writes a document, or says why it cannot.
#[verifier::external_body]
fn print_yaml(v: &serde_json::Value) -> (r: Result<String, String>)
    ensures
        yaml_text(contents(*v)) == (match r {
            Ok(s) => Ok(s@),
            Err(e) => Err(e@),
        }),
{
    serde_yaml_ng::to_string(v).map_err(|e| e.to_string())
}

proof fn lemma_held_from(s: Seq<(String, serde_json::Value)>, name: Seq<char>)
    ensures
        held_members(s).dom().contains(name) <==> exists|i: int|
            0 <= i < s.len() && (#[trigger] s[i]).0@ == name,
        held_members(s).dom().finite(),
    decreases s.len(),
{
    if s.len() > 0 {
        lemma_held_from(s.drop_last(), name);
        if exists|i: int| 0 <= i < s.len() && (#[trigger] s[i]).0@ == name {
            let i = choose|i: int| 0 <= i < s.len() && (#[trigger] s[i]).0@ == name;
            if i < s.len() - 1 {
                assert(s.drop_last()[i].0@ == name);
            }
        }
        if exists|i: int| 0 <= i < s.drop_last().len() && (#[trigger] s.drop_last()[i]).0@ == name {
            let i = choose|i: int|
                0 <= i < s.drop_last().len() && (#[trigger] s.drop_last()[i]).0@ == name;
            assert(s[i].0@ == name);
        }
        if s.last().0@ == name {
            assert(s[s.len() - 1].0@ == name);
        }
    }
}

proof fn lemma_held_at(s: Seq<(String, serde_json::Value)>, i: int)
    requires
        distinct(s),
        0 <= i < s.len(),
    ensures
        held_members(s).dom().contains(s[i].0@),
        held_members(s)[s[i].0@] == contents(s[i].1),
    decreases s.len(),
{
    if i < s.len() - 1 {
        assert(s[i].0@ != s[s.len() - 1].0@);
        assert forall|a: int, b: int| 0 <= a < b < s.drop_last().len() implies (
        #[trigger] s.drop_last()[a]).0@ != (#[trigger] s.drop_last()[b]).0@ by {
            assert(s.drop_last()[a] == s[a] && s.drop_last()[b] == s[b]);
        }
        lemma_held_at(s.drop_last(), i);
        assert(s.drop_last()[i] == s[i]);
    }
}

/// The document that a parser produced.
fn read_value(v: serde_json::Value) -> (r: Datum)
    ensures
        r@ == contents(v),
    decreases contents(v),
{
    match open(v) {
        Level::Null => Datum::Null,
        Level::Bool(b) => Datum::Bool(b),
        Level::Number(n) => Datum::Number(n),
        Level::String(s) => Datum::String(s),
        Level::Array(list) => {
            let ghost all = list@;
            let mut r: Vec<Datum> = Vec::new();
            assert(items(r@) =~= held_items(all).take(0));
            for item in it: list
                invariant
                    it.seq() == all,
                    contents(v) == Json::Array(held_items(all)),
                    items(r@) == held_items(all).take(it.index()),
            {
                let ghost was = r@;
                let ghost i = it.index();
                proof {
                    assert(held_items(all)[i] == contents(item));
                    lemma_item_smaller(contents(v), i);
                }
                r.push(read_value(item));
                assert(r@.drop_last() =~= was);
                assert(held_items(all).take(i + 1) =~= held_items(all).take(i).push(
                    held_items(all)[i],
                ));
            }
            assert(held_items(all).take(all.len() as int) =~= held_items(all));
            Datum::Array(r)
        },
        Level::Object(list) => {
            let ghost all = list@;
            let mut r: Vec<(String, Datum)> = Vec::new();
            assert(members(r@) =~= held_members(all.take(0)));
            for entry in it: list
                invariant
                    it.seq() == all,
                    distinct(all),
                    contents(v) == Json::Object(held_members(all)),
                    members(r@) == held_members(all.take(it.index())),
            {
                let ghost was = r@;
                let ghost i = it.index();
                proof {
                    lemma_held_from(all, entry.0@);
                    lemma_held_at(all, i);
                    lemma_member_smaller(contents(v), entry.0@);
                }
                assert(all.take(i + 1).drop_last() =~= all.take(i));
                r.push((entry.0, read_value(entry.1)));
                assert(r@.drop_last() =~= was);
            }
            assert(all.take(all.len() as int) =~= all);
            Datum::Object(r)
        },
    }
}

/// A document as the writers take it.
pub(crate) fn write_value(d: &Datum) -> (r: serde_json::Value)
    ensures
        contents(r) == d@,
    decreases d@,
{
    match d {
        Datum::Null => close(Level::Null),
        Datum::Bool(b) => close(Level::Bool(*b)),
        Datum::Number(n) => close(Level::Number(n.clone())),
        Datum::String(s) => close(Level::String(s.clone())),
        Datum::Array(list) => {
            let mut r: Vec<serde_json::Value> = Vec::new();
            let mut i: usize = 0;
            proof {
                lemma_items(list@);
            }
            while i < list.len()
                invariant
                    i <= list@.len(),
                    d@ == Json::Array(items(list@)),
                    items(list@).len() == list@.len(),
                    forall|j: int| 0 <= j < list@.len() ==> #[trigger] items(list@)[j] == list@[j].json(),
                    r@.len() == i,
                    forall|j: int| 0 <= j < i ==> contents(#[trigger] r@[j]) == items(list@)[j],
                decreases list@.len() - i,
            {
                proof {
                    lemma_item_smaller(d@, i as int);
                    assert(items(list@)[i as int] == list@[i as int]@);
                }
                r.push(write_value(&list[i]));
                i += 1;
            }
            assert(held_items(r@) =~= items(list@));
            close(Level::Array(r))
        },
        Datum::Object(list) => {
            let all = names(list);
            let ghost m = members(list@);
            let mut r: Vec<(String, serde_json::Value)> = Vec::new();
            let mut i: usize = 0;
            assert(held_members(r@) =~= m.restrict(text::texts(all@).take(0).to_set()));
            while i < all.len()
                invariant
                    i <= all@.len(),
                    m == members(list@),
                    d@ == Json::Object(m),
                    text::texts(all@).to_set() == m.dom(),
                    text::ascending(text::texts(all@)),
                    r@.len() == i,
                    forall|j: int| 0 <= j < i ==> (#[trigger] r@[j]).0@ == text::texts(all@)[j],
                    held_members(r@) == m.restrict(text::texts(all@).take(i as int).to_set()),
                decreases all@.len() - i,
            {
                let ghost k = all@[i as int]@;
                let ghost done = text::texts(all@).take(i as int).to_set();
                assert(text::texts(all@)[i as int] == k);
                assert(m.dom().contains(k));
                proof {
                    text::lemma_take_set(text::texts(all@), i as int);
                    lemma_members_from(list@, k);
                    lemma_member_smaller(d@, k);
                }
                match get(list, all[i].as_str()) {
                    Some(value) => {
                        let ghost was = r@;
                        r.push((all[i].clone(), write_value(value)));
                        assert(r@.drop_last() =~= was);
                        assert(held_members(r@) =~= m.restrict(done.insert(k)));
                    },
                    None => {
                        assert(member(m, k) is Some);
                    },
                }
                i += 1;
            }
            assert(text::texts(all@).take(i as int) =~= text::texts(all@));
            assert(held_members(r@) =~= m);
            assert forall|a: int, b: int| 0 <= a < b < r@.len() implies (#[trigger] r@[a]).0@ != (
            #[trigger] r@[b]).0@ by {
                assert(text::before(text::texts(all@)[a], text::texts(all@)[b]));
                text::lemma_before_irreflexive(text::texts(all@)[a]);
            }
            close(Level::Object(r))
        },
    }
}

/// What a reading gives: a document, or a complaint.
pub open spec fn reading(r: Result<Datum, String>) -> Result<Json, Seq<char>> {
    match r {
        Ok(d) => Ok(d@),
        Err(e) => Err(e@),
    }
}

/// What a writing gives: a text, or a complaint.
pub open spec fn writing(r: Result<String, String>) -> Result<Seq<char>, Seq<char>> {
    match r {
        Ok(s) => Ok(s@),
        Err(e) => Err(e@),
    }
}

/// Read a document written as JSON.
pub fn read_json(body: &str) -> (r: Result<Datum, String>)
    ensures
        reading(r) == json_reading(body@),
{
    match parse_json(body) {
        Ok(v) => Ok(read_value(v)),
        Err(e) => Err(e),
    }
}

/// Read a document written as YAML.
pub fn read_yaml(body: &str) -> (r: Result<Datum, String>)
    ensures
        reading(r) == yaml_reading(body@),
{
    match parse_yaml(body) {
        Ok(v) => Ok(read_value(v)),
        Err(e) => Err(e),
    }
}

/// Read a document written as TOML.
pub fn read_toml(body: &str) -> (r: Result<Datum, String>)
    ensures
        reading(r) == toml_reading(body@),
{
    match parse_toml(body) {
        Ok(v) => Ok(read_value(v)),
        Err(e) => Err(e),
    }
}

/// Write a document as one line of JSON.
pub fn to_json(d: &Datum) -> (r: String)
    ensures
        r@ == json_text(d@),
{
    print_json(&write_value(d))
}

/// Write a document as several lines of JSON.
pub fn to_pretty(d: &Datum) -> (r: String)
    ensures
        r@ == json_pretty(d@),
{
    print_pretty(&write_value(d))
}

/// Write a document as YAML.
pub fn to_yaml(d: &Datum) -> (r: Result<String, String>)
    ensures
        writing(r) == yaml_text(d@),
{
    print_yaml(&write_value(d))
}

/// Whether a document is a list of texts.
pub open spec fn is_texts(j: Json) -> bool {
    j matches Json::Array(list) && forall|i: int| 0 <= i < list.len() ==> #[trigger] list[i] is Text
}

/// The texts of a list of them.
pub open spec fn texts_in(j: Json) -> Seq<Seq<char>> {
    let list = j->Array_0;
    Seq::new(list.len(), |i: int| list[i]->Text_0)
}

/// Whether a document maps names to lists of texts.
pub open spec fn is_lists(j: Json) -> bool {
    j matches Json::Object(m) && forall|k: Seq<char>| #[trigger] m.dom().contains(k) ==> is_texts(m[k])
}

/// The lists of texts that a document maps names to.
pub open spec fn lists_in(j: Json) -> Map<Seq<char>, Seq<Seq<char>>> {
    let m = j->Object_0;
    Map::new(|k: Seq<char>| m.dom().contains(k), |k: Seq<char>| texts_in(m[k]))
}

/// The lists that a vector of them holds, by their names.
pub open spec fn lists_of(s: Seq<(String, Vec<String>)>) -> Map<Seq<char>, Seq<Seq<char>>>
    decreases s.len(),
{
    if s.len() == 0 {
        Map::empty()
    } else {
        lists_of(s.drop_last()).insert(s.last().0@, text::texts(s.last().1@))
    }
}

/// What `serde_json` has to say of a document that does not map names to
/// lists of texts.
pub uninterp spec fn lists_complaint(j: Json) -> Seq<char>;

/// `serde_json::from_value` reads a map of lists of strings where every member
/// is a list and every element of it a string, and complains otherwise.
#[verifier::external_body]
fn parse_lists(v: serde_json::Value) -> (r: Result<Vec<(String, Vec<String>)>, String>)
    ensures
        match r {
            Ok(lists) => is_lists(contents(v)) && lists_of(lists@) == lists_in(contents(v)),
            Err(e) => !is_lists(contents(v)) && e@ == lists_complaint(contents(v)),
        },
{
    serde_json::from_value::<std::collections::BTreeMap<String, Vec<String>>>(v)
        .map(|lists| lists.into_iter().collect())
        .map_err(|e| e.to_string())
}

/// Read the lists of texts that a document maps names to.
pub fn read_lists(d: &Datum) -> (r: Result<Vec<(String, Vec<String>)>, String>)
    ensures
        match r {
            Ok(lists) => is_lists(d@) && lists_of(lists@) == lists_in(d@),
            Err(e) => !is_lists(d@) && e@ == lists_complaint(d@),
        },
{
    parse_lists(write_value(d))
}

/// A document of lists is an object under each of whose names there is a list
/// of texts, and the lists are those, with every text in its place.
pub proof fn law_a_document_of_lists_holds_its_texts(
    m: Map<Seq<char>, Json>,
    k: Seq<char>,
    list: Seq<Json>,
    i: int,
)
    requires
        m.dom().contains(k),
        m[k] == Json::Array(list),
    ensures
        is_lists(Json::Object(m)) && 0 <= i < list.len() ==> list[i] is Text,
        is_lists(Json::Object(m)) ==> lists_in(Json::Object(m)).dom() == m.dom()
            && lists_in(Json::Object(m))[k].len() == list.len(),
        0 <= i < list.len() && list[i] is Text ==> Json::Text(lists_in(Json::Object(m))[k][i]) == list[i],
        0 <= i < list.len() && !(list[i] is Text) ==> !is_lists(Json::Object(m)),
        !is_lists(Json::Null) && !is_lists(Json::Array(list)),
{
    if is_lists(Json::Object(m)) {
        assert(is_texts(m[k]));
        assert(lists_in(Json::Object(m)).dom() =~= m.dom());
    }
}

} // verus!
