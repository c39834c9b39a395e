//! Providers, the programs that implement a type of resource.
//!
//! A resource declares a desired state as data.  A provider is the executable
//! that knows how to read that state from the system and how to reach it, and
//! there is exactly one provider per resource type.
//!
//! A provider written in shell reports its state by echoing text, so a boolean
//! comes back as `"true"` while the resource declares `true`.  The schema of
//! the provider declares the type of every property, and both sides are read
//! through it before they are compared, which is what makes convergence
//! possible at all.

use vstd::prelude::*;

use crate::document;
use crate::document::json_text;
use crate::table::{row_names, stands, Table};
use crate::text;
use crate::value;
use crate::value::{Datum, Figure, Json};
use crate::var;

verus! {

/// Name of the providers tree, searched in the prefixes of the executables.
pub const PROVIDERS_NAME: &'static str = "detc/providers";

/// Order of a provider that does not declare one, and the order at which the
/// templates are written.
pub const DEFAULT_ORDER: i64 = 50;

/// Search prefixes for the providers, from the lowest to the highest priority.
pub fn provider_prefixes() -> (r: Vec<&'static str>)
    ensures
        r@ == seq!["usr/libexec", "run/lib", "var/lib"],
{
    let mut r: Vec<&'static str> = Vec::new();
    r.push("usr/libexec");
    r.push("run/lib");
    r.push("var/lib");
    r
}

/// Type of a property of a resource.
#[derive(Clone, Copy, Debug, PartialEq, Eq, Structural)]
pub enum Type {
    String,
    Boolean,
    Integer,
    Number,
    Array,
    Object,
}

/// The name of a type.
pub open spec fn name_of_type(kind: Type) -> Seq<char> {
    match kind {
        Type::String => "string"@,
        Type::Boolean => "boolean"@,
        Type::Integer => "integer"@,
        Type::Number => "number"@,
        Type::Array => "array"@,
        Type::Object => "object"@,
    }
}

/// The type that a name names.
pub open spec fn type_named(name: Seq<char>) -> Result<Type, Seq<char>> {
    if name == "string"@ {
        Ok(Type::String)
    } else if name == "boolean"@ {
        Ok(Type::Boolean)
    } else if name == "integer"@ {
        Ok(Type::Integer)
    } else if name == "number"@ {
        Ok(Type::Number)
    } else if name == "array"@ {
        Ok(Type::Array)
    } else if name == "object"@ {
        Ok(Type::Object)
    } else {
        Err(
            "Unknown type "@ + name
                + ", expected one of string, boolean, integer, number, array or object"@,
        )
    }
}

/// The name of a type behind the article that reads well.
pub open spec fn with_article(kind: Type) -> Seq<char> {
    match kind {
        Type::Integer | Type::Array | Type::Object => "an "@ + name_of_type(kind),
        _ => "a "@ + name_of_type(kind),
    }
}

/// The boolean that a text reads as.
pub open spec fn flag(t: Seq<char>) -> Option<bool> {
    if t == "true"@ || t == "yes"@ || t == "on"@ || t == "1"@ {
        Some(true)
    } else if t == "false"@ || t == "no"@ || t == "off"@ || t == "0"@ {
        Some(false)
    } else {
        None
    }
}

/// A whole number, as a number of a document.
pub open spec fn whole_figure(n: int) -> Figure {
    if n < 0 {
        Figure::Negative(n as i64)
    } else {
        Figure::Natural(n as u64)
    }
}

/// What the standard library reads in a text as a number that need not be
/// whole, and `serde_json` takes for one: nothing, a number that is not finite,
/// or a number.
pub uninterp spec fn number_reading(t: Seq<char>) -> Option<Option<Figure>>;

/// `str::parse` reads a floating point number, and `serde_json::Number::from_f64`
/// takes it when it is finite.
#[verifier::external_body]
fn parse_number(t: &str) -> (r: Option<Option<serde_json::Number>>)
    ensures
        number_reading(t@) == (match r {
            None => None,
            Some(None) => Some(None),
            Some(Some(n)) => Some(Some(value::figure(n))),
        }),
{
    t.parse().ok().map(serde_json::Number::from_f64)
}

/// `serde_json::Number::from` takes a whole number as it is.
#[verifier::external_body]
pub(crate) fn whole_number(n: i64) -> (r: serde_json::Number)
    ensures
        value::figure(r) == whole_figure(n as int),
{
    serde_json::Number::from(n)
}

/// `serde_json::Number::from` takes a natural number as it is.
#[verifier::external_body]
fn natural_number(n: u64) -> (r: serde_json::Number)
    ensures
        value::figure(r) == Figure::Natural(n),
{
    serde_json::Number::from(n)
}

/// The whole number that a text reads as, the white space around it set aside.
pub open spec fn whole_in(t: Seq<char>) -> Option<int> {
    match text::whole(text::trim(t)) {
        Some(n) => if i64::MIN <= n <= i64::MAX {
            Some(n)
        } else {
            None
        },
        None => None,
    }
}

/// The whole number that a text writes, as a document that says the number
/// itself holds it.
pub open spec fn whole_written(t: Seq<char>) -> Option<Figure> {
    match text::whole(text::trim(t)) {
        Some(n) => if i64::MIN <= n <= u64::MAX {
            Some(whole_figure(n))
        } else {
            None
        },
        None => None,
    }
}

/// A number that was read in a text, or why there is none.
pub open spec fn numbered(v: Json, found: Option<Option<Figure>>) -> Result<Json, Seq<char>> {
    match found {
        Some(Some(n)) => Ok(Json::Number(n)),
        Some(None) => Err(json_text(v) + " is not a finite number"@),
        None => Err(json_text(v) + " is not a number"@),
    }
}

/// A value read as a type.  A scalar written as a string is converted, and a
/// value that is already of the type is kept as it is.
pub open spec fn coerced(kind: Type, v: Json) -> Result<Json, Seq<char>> {
    match kind {
        Type::String => match v {
            Json::Text(_) => Ok(v),
            Json::Bool(_) | Json::Number(_) => Ok(Json::Text(json_text(v))),
            _ => Err(json_text(v) + " is not "@ + with_article(kind)),
        },
        Type::Boolean => match v {
            Json::Bool(_) => Ok(v),
            Json::Text(t) => match flag(t) {
                Some(b) => Ok(Json::Bool(b)),
                None => Err(json_text(v) + " is not a boolean"@),
            },
            _ => Err(json_text(v) + " is not a boolean"@),
        },
        Type::Integer => match v {
            Json::Number(Figure::Natural(_)) | Json::Number(Figure::Negative(_)) => Ok(v),
            Json::Text(t) => match whole_in(t) {
                Some(n) => Ok(Json::Number(whole_figure(n))),
                None => Err(json_text(v) + " is not an integer"@),
            },
            _ => Err(json_text(v) + " is not an integer"@),
        },
        Type::Number => match v {
            Json::Number(_) => Ok(v),
            Json::Text(t) => match whole_written(t) {
                Some(n) => Ok(Json::Number(n)),
                None => numbered(v, number_reading(text::trim(t))),
            },
            _ => numbered(v, None),
        },
        Type::Array => match v {
            Json::Array(_) => Ok(v),
            _ => Err(json_text(v) + " is not "@ + with_article(kind)),
        },
        Type::Object => match v {
            Json::Object(_) => Ok(v),
            _ => Err(json_text(v) + " is not "@ + with_article(kind)),
        },
    }
}

/// What is wrong with a value, by the end of the sentence.
fn complaint(v: &Datum, end: &str) -> (r: String)
    ensures
        r@ == json_text(v@) + end@,
{
    let mut r = document::to_json(v);
    r.append(end);
    r
}

/// The whole number that a text writes.
fn written_whole(t: &str) -> (r: Option<serde_json::Number>)
    ensures
        match r {
            Some(n) => whole_written(t@) == Some(value::figure(n)),
            None => whole_written(t@) is None,
        },
{
    let t = text::trimmed(t);
    match text::read_whole(t.as_str()) {
        Some(n) => Some(whole_number(n)),
        None => match text::read_natural(t.as_str()) {
            Some(n) => Some(natural_number(n)),
            None => None,
        },
    }
}

/// A number that was read in a text, or why there is none.
pub fn number_of(v: &Datum, found: Option<Option<serde_json::Number>>) -> (r: Result<Datum, String>)
    ensures
        document::reading(r) == numbered(
            v@,
            match found {
                None => None,
                Some(None) => Some(None),
                Some(Some(n)) => Some(Some(value::figure(n))),
            },
        ),
{
    match found {
        Some(Some(n)) => Ok(Datum::Number(n)),
        Some(None) => Err(complaint(v, " is not a finite number")),
        None => Err(complaint(v, " is not a number")),
    }
}

impl Type {
    /// The name of the type.
    pub fn name(self) -> (r: &'static str)
        ensures
            r@ == name_of_type(self),
    {
        match self {
            Type::String => "string",
            Type::Boolean => "boolean",
            Type::Integer => "integer",
            Type::Number => "number",
            Type::Array => "array",
            Type::Object => "object",
        }
    }

    /// The type that a name names.
    pub fn from_str(name: &str) -> (r: Result<Type, String>)
        ensures
            var::outcome(r) == type_named(name@),
    {
        if text::equal(name, "string") {
            Ok(Type::String)
        } else if text::equal(name, "boolean") {
            Ok(Type::Boolean)
        } else if text::equal(name, "integer") {
            Ok(Type::Integer)
        } else if text::equal(name, "number") {
            Ok(Type::Number)
        } else if text::equal(name, "array") {
            Ok(Type::Array)
        } else if text::equal(name, "object") {
            Ok(Type::Object)
        } else {
            let mut e = "Unknown type ".to_owned();
            e.append(name);
            e.append(", expected one of string, boolean, integer, number, array or object");
            Err(e)
        }
    }

    /// The name of the type behind the article that reads well.
    fn article(self) -> (r: String)
        ensures
            r@ == with_article(self),
    {
        let mut r = match self {
            Type::Integer | Type::Array | Type::Object => "an ".to_owned(),
            _ => "a ".to_owned(),
        };
        r.append(self.name());
        r
    }

    /// The complaint about a value that is not of the type.
    fn mismatch(self, v: &Datum) -> (r: String)
        ensures
            r@ == json_text(v@) + " is not "@ + with_article(self),
    {
        let mut r = complaint(v, " is not ");
        r.append(self.article().as_str());
        r
    }

    /// Read a value as this type, or fail when it cannot be read as one.
    pub fn coerce(&self, v: &Datum) -> (r: Result<Datum, String>)
        ensures
            document::reading(r) == coerced(*self, v@),
    {
        match *self {
            Type::String => match v {
                Datum::String(_) => Ok(v.copy()),
                Datum::Bool(_) | Datum::Number(_) => Ok(Datum::String(document::to_json(v))),
                _ => Err(self.mismatch(v)),
            },
            Type::Boolean => match v {
                Datum::Bool(_) => Ok(v.copy()),
                Datum::String(t) => {
                    let t = t.as_str();
                    if text::equal(t, "true") || text::equal(t, "yes") || text::equal(t, "on")
                        || text::equal(t, "1") {
                        Ok(Datum::Bool(true))
                    } else if text::equal(t, "false") || text::equal(t, "no") || text::equal(
                        t,
                        "off",
                    ) || text::equal(t, "0") {
                        Ok(Datum::Bool(false))
                    } else {
                        Err(complaint(v, " is not a boolean"))
                    }
                },
                _ => Err(complaint(v, " is not a boolean")),
            },
            Type::Integer => match v {
                Datum::Number(n) => {
                    if n.as_i64().is_some() || n.is_u64() {
                        Ok(v.copy())
                    } else {
                        Err(complaint(v, " is not an integer"))
                    }
                },
                Datum::String(t) => match text::read_whole(text::trimmed(t.as_str()).as_str()) {
                    Some(n) => Ok(Datum::Number(whole_number(n))),
                    None => Err(complaint(v, " is not an integer")),
                },
                _ => Err(complaint(v, " is not an integer")),
            },
            Type::Number => match v {
                Datum::Number(_) => Ok(v.copy()),
                Datum::String(t) => match written_whole(t.as_str()) {
                    Some(n) => Ok(Datum::Number(n)),
                    None => number_of(v, parse_number(text::trimmed(t.as_str()).as_str())),
                },
                _ => number_of(v, None),
            },
            Type::Array => match v {
                Datum::Array(_) => Ok(v.copy()),
                _ => Err(self.mismatch(v)),
            },
            Type::Object => match v {
                Datum::Object(_) => Ok(v.copy()),
                _ => Err(self.mismatch(v)),
            },
        }
    }
}

/// A value that was read as a type is read as it again without a change, so
/// the reading can be applied to both sides of a comparison.
pub proof fn law_coercion_is_idempotent(kind: Type, v: Json)
    requires
        coerced(kind, v) is Ok,
    ensures
        coerced(kind, coerced(kind, v)->Ok_0) == coerced(kind, v),
{
}

/// A whole number is read out of the text that a shell writes it as just as it
/// is read out of a document that says the number itself, so the two compare
/// equal.
pub proof fn law_number_is_read_out_of_its_text(n: int)
    requires
        i64::MIN <= n <= u64::MAX,
    ensures
        coerced(Type::Number, Json::Text(text::signed(n))) == Ok::<Json, Seq<char>>(
            Json::Number(whole_figure(n)),
        ),
        coerced(Type::Number, Json::Number(whole_figure(n))) == Ok::<Json, Seq<char>>(
            Json::Number(whole_figure(n)),
        ),
        n <= i64::MAX ==> coerced(Type::Integer, Json::Text(text::signed(n))) == coerced(
            Type::Integer,
            Json::Number(whole_figure(n)),
        ),
        value::alike(Json::Number(whole_figure(n)), Json::Number(whole_figure(n))),
{
    text::lemma_signed_is_read(n);
}

/// Every type is named by its own name.
pub proof fn law_type_name_is_read_back(kind: Type)
    ensures
        type_named(name_of_type(kind)) == Ok::<Type, Seq<char>>(kind),
{
    reveal_strlit("string");
    reveal_strlit("boolean");
    reveal_strlit("integer");
    reveal_strlit("number");
    reveal_strlit("array");
    reveal_strlit("object");
    assert("boolean"@[0] == 'b' && "integer"@[0] == 'i' && "number"@[0] == 'n' && "array"@[0] == 'a'
        && "object"@[0] == 'o' && "string"@[0] == 's');
}

/// One property of the desired state of a resource.
pub struct Property {
    kind: Type,
    description: Option<String>,
    default: Option<Datum>,
    required: bool,
}

/// One property of the desired state of a resource, as plain values.
pub struct Trait {
    pub kind: Type,
    pub description: Option<Seq<char>>,
    pub default: Option<Json>,
    pub required: bool,
}

/// The value that an optional document holds.
pub open spec fn json_of(d: Option<Datum>) -> Option<Json> {
    match d {
        Some(d) => Some(d@),
        None => None,
    }
}

impl View for Property {
    type V = Trait;

    closed spec fn view(&self) -> Trait {
        Trait {
            kind: self.kind,
            description: text::text_of(self.description),
            default: json_of(self.default),
            required: self.required,
        }
    }
}

/// Whether a resource has to declare a property.  A property with a default is
/// never required, as the default answers for it.
pub open spec fn is_required(p: Trait) -> bool {
    p.required && p.default is None
}

/// The text of a member, when it is one.
pub open spec fn text_member(m: Map<Seq<char>, Json>, name: Seq<char>) -> Option<Seq<char>> {
    match value::member(m, name) {
        Some(Json::Text(t)) => Some(t),
        _ => None,
    }
}

/// The type that a property declares.
pub open spec fn kind_in(name: Seq<char>, m: Map<Seq<char>, Json>) -> Result<Type, Seq<char>> {
    match value::member(m, "type"@) {
        Some(Json::Text(t)) => type_named(t),
        None => Err("Property "@ + name + " does not declare a type"@),
        Some(other) => Err(
            "The type of property "@ + name + " is not a name: "@ + json_text(other),
        ),
    }
}

/// The default of a property.
pub open spec fn default_in(name: Seq<char>, kind: Type, m: Map<Seq<char>, Json>) -> Result<
    Option<Json>,
    Seq<char>,
> {
    match value::member(m, "default"@) {
        None => Ok(None),
        Some(v) => match coerced(kind, v) {
            Ok(v) => Ok(Some(v)),
            Err(e) => Err("The default of property "@ + name + " is invalid: "@ + e),
        },
    }
}

/// The property that a document declares.
pub open spec fn property_in(name: Seq<char>, j: Json) -> Result<Trait, Seq<char>> {
    match j {
        Json::Object(m) => match kind_in(name, m) {
            Err(e) => Err(e),
            Ok(kind) => match default_in(name, kind, m) {
                Err(e) => Err(e),
                Ok(default) => Ok(
                    Trait {
                        kind,
                        description: text_member(m, "description"@),
                        default,
                        required: value::member(m, "required"@) == Some(Json::Bool(true)),
                    },
                ),
            },
        },
        _ => Err("Property "@ + name + " is not an object"@),
    }
}

/// The text of a member, when it is one.
fn text_in(entries: &Vec<(String, Datum)>, name: &str) -> (r: Option<String>)
    ensures
        text::text_of(r) == text_member(value::members(entries@), name@),
{
    match value::get(entries, name) {
        Some(Datum::String(t)) => Some(t.clone()),
        _ => None,
    }
}

impl Property {
    pub fn kind(&self) -> (r: Type)
        ensures
            r == self@.kind,
    {
        self.kind
    }

    pub fn description(&self) -> (r: Option<&str>)
        ensures
            match r {
                Some(t) => self@.description == Some(t@),
                None => self@.description is None,
            },
    {
        match &self.description {
            Some(t) => Some(t.as_str()),
            None => None,
        }
    }

    pub fn default(&self) -> (r: Option<&Datum>)
        ensures
            match r {
                Some(v) => self@.default == Some(v@),
                None => self@.default is None,
            },
    {
        self.default.as_ref()
    }

    /// Whether the resource has to declare the property.
    pub fn required(&self) -> (r: bool)
        ensures
            r == is_required(self@),
    {
        self.required && self.default.is_none()
    }

    /// The property that a document declares.
    pub fn from_value(name: &str, v: &Datum) -> (r: Result<Self, String>)
        ensures
            property_in(name@, v@) == (match r {
                Ok(p) => Ok(p@),
                Err(e) => Err(e@),
            }),
    {
        let entries = match v {
            Datum::Object(entries) => entries,
            _ => {
                let mut e = "Property ".to_owned();
                e.append(name);
                e.append(" is not an object");
                return Err(e);
            },
        };
        let kind = match value::get(entries, "type") {
            Some(Datum::String(t)) => match Type::from_str(t.as_str()) {
                Ok(kind) => kind,
                Err(e) => {
                    return Err(e);
                },
            },
            None => {
                let mut e = "Property ".to_owned();
                e.append(name);
                e.append(" does not declare a type");
                return Err(e);
            },
            Some(other) => {
                let mut e = "The type of property ".to_owned();
                e.append(name);
                e.append(" is not a name: ");
                e.append(document::to_json(other).as_str());
                return Err(e);
            },
        };
        let description = text_in(entries, "description");
        let default = match value::get(entries, "default") {
            None => None,
            Some(v) => match kind.coerce(v) {
                Ok(v) => Some(v),
                Err(why) => {
                    let mut e = "The default of property ".to_owned();
                    e.append(name);
                    e.append(" is invalid: ");
                    e.append(why.as_str());
                    return Err(e);
                },
            },
        };
        let required = match value::get(entries, "required") {
            Some(Datum::Bool(b)) => *b,
            _ => false,
        };
        Ok(Property { kind, description, default, required })
    }
}

/// What a provider accepts, and when it runs.
pub struct Schema {
    description: Option<String>,
    order: Option<i64>,
    properties: Table<Property>,
}

/// What a provider accepts, and when it runs, as plain values.
pub struct Shape {
    pub description: Option<Seq<char>>,
    pub order: Option<i64>,
    pub properties: Map<Seq<char>, Trait>,
}

/// Properties as plain values.
pub open spec fn traits(m: Map<Seq<char>, Property>) -> Map<Seq<char>, Trait> {
    m.map_values(|p: Property| p@)
}

impl View for Schema {
    type V = Shape;

    closed spec fn view(&self) -> Shape {
        Shape {
            description: text::text_of(self.description),
            order: self.order,
            properties: traits(self.properties@),
        }
    }
}

/// When the resources of a type run.
pub open spec fn order_of(shape: Shape) -> i64 {
    match shape.order {
        Some(order) => order,
        None => DEFAULT_ORDER,
    }
}

/// The number in 64 bits that a number of a document is.
pub open spec fn whole_of(f: Figure) -> Option<i64> {
    match f {
        Figure::Natural(n) => if n <= i64::MAX {
            Some(n as i64)
        } else {
            None
        },
        Figure::Negative(n) => Some(n),
        Figure::Fraction(_) => None,
    }
}

/// The order that a schema declares.
pub open spec fn order_in(m: Map<Seq<char>, Json>) -> Result<Option<i64>, Seq<char>> {
    match value::member(m, "order"@) {
        None | Some(Json::Null) => Ok(None),
        Some(v) => match v {
            Json::Number(f) if whole_of(f) is Some => Ok(whole_of(f)),
            _ => Err("The order of the schema is not a whole number: "@ + json_text(v)),
        },
    }
}

/// What is wrong with a property of a schema, by its name.
pub open spec fn property_errors(m: Map<Seq<char>, Json>) -> spec_fn(Seq<char>) -> Option<Seq<char>> {
    |name: Seq<char>|
        match property_in(name, m[name]) {
            Ok(_) => None,
            Err(e) => Some(e),
        }
}

/// The properties that an object declares, or what is wrong with the first of
/// them, in the order of their names, that cannot be read.
pub open spec fn properties_read(m: Map<Seq<char>, Json>) -> Result<
    Map<Seq<char>, Trait>,
    Seq<char>,
> {
    match text::first_of(text::listing(m.dom()), property_errors(m)) {
        Some(e) => Err(e),
        None => Ok(
            Map::new(
                |k: Seq<char>| m.dom().contains(k),
                |k: Seq<char>| property_in(k, m[k])->Ok_0,
            ),
        ),
    }
}

/// The properties that a schema declares.
pub open spec fn properties_in(m: Map<Seq<char>, Json>) -> Result<
    Map<Seq<char>, Trait>,
    Seq<char>,
> {
    match value::member(m, "properties"@) {
        None => Ok(Map::empty()),
        Some(Json::Object(p)) => properties_read(p),
        Some(v) => Err("The properties of the schema are not an object: "@ + json_text(v)),
    }
}

/// The schema that a document is.
pub open spec fn schema_in(j: Json) -> Result<Shape, Seq<char>> {
    match j {
        Json::Object(m) => match order_in(m) {
            Err(e) => Err(e),
            Ok(order) => match properties_in(m) {
                Err(e) => Err(e),
                Ok(properties) => Ok(
                    Shape { description: text_member(m, "description"@), order, properties },
                ),
            },
        },
        _ => Err("The schema is not an object"@),
    }
}

/// A schema that was read.
pub open spec fn shaped(r: Result<Schema, String>) -> Result<Shape, Seq<char>> {
    match r {
        Ok(schema) => Ok(schema@),
        Err(e) => Err(e@),
    }
}

/// The schema that a text is, by the document that is read in it.
pub open spec fn schema_of(read: Result<Json, Seq<char>>) -> Result<Shape, Seq<char>> {
    match read {
        Ok(j) => schema_in(j),
        Err(e) => Err(e),
    }
}

/// The properties that an object declares.
fn read_properties(entries: &Vec<(String, Datum)>) -> (r: Result<Table<Property>, String>)
    ensures
        properties_read(value::members(entries@)) == (match r {
            Ok(t) => Ok(traits(t@)),
            Err(e) => Err(e@),
        }),
{
    let ghost m = value::members(entries@);
    let ghost why = property_errors(m);
    let names = value::names(entries);
    let ghost all = text::texts(names@);
    let mut t: Table<Property> = Table::new();
    let mut i: usize = 0;
    let n: usize = names.len();
    assert(text::first_of(all.take(0), why) is None);
    assert(all.take(0).to_set() =~= t@.dom());
    while i < n
        invariant
            i <= n == names@.len(),
            m == value::members(entries@),
            why == property_errors(m),
            all == text::texts(names@),
            all == text::listing(m.dom()),
            all.to_set() == m.dom(),
            text::first_of(all.take(i as int), why) is None,
            t@.dom() == all.take(i as int).to_set(),
            forall|k: Seq<char>|
                #[trigger] t@.dom().contains(k) ==> property_in(k, m[k]) == Ok::<Trait, Seq<char>>(
                    t@[k]@,
                ),
        decreases n - i,
    {
        let name = &names[i];
        assert(all[i as int] == name@);
        proof {
            text::lemma_first_step(all, why, i as int);
            text::lemma_take_set(all, i as int);
            assert(all.to_set().contains(all[i as int]));
        }
        match value::get(entries, name.as_str()) {
            Some(v) => match Property::from_value(name.as_str(), v) {
                Ok(p) => {
                    let ghost was = t@;
                    t.set(name.clone(), p);
                    assert(t@.dom() =~= was.dom().insert(name@));
                },
                Err(e) => {
                    return Err(e);
                },
            },
            None => {},
        }
        i += 1;
    }
    proof {
        assert(all.take(n as int) =~= all);
        assert(traits(t@) =~= properties_read(m)->Ok_0);
    }
    Ok(t)
}

impl Schema {
    /// What the provider does, as the provider describes it.
    pub fn description(&self) -> (r: Option<&str>)
        ensures
            match r {
                Some(t) => self@.description == Some(t@),
                None => self@.description is None,
            },
    {
        match &self.description {
            Some(t) => Some(t.as_str()),
            None => None,
        }
    }

    /// When the resources of this type run, relative to the other types and to
    /// the templates.
    pub fn order(&self) -> (r: i64)
        ensures
            r == order_of(self@),
    {
        match self.order {
            Some(order) => order,
            None => DEFAULT_ORDER,
        }
    }

    /// The properties, by their names.
    pub fn properties(&self) -> (r: &Table<Property>)
        ensures
            traits(r@) == self@.properties,
    {
        &self.properties
    }

    /// The schema that a document is.
    pub fn from_value(v: &Datum) -> (r: Result<Self, String>)
        ensures
            shaped(r) == schema_in(v@),
    {
        let entries = match v {
            Datum::Object(entries) => entries,
            _ => {
                return Err("The schema is not an object".to_owned());
            },
        };
        let description = text_in(entries, "description");
        let order = match value::get(entries, "order") {
            None | Some(Datum::Null) => None,
            Some(v) => {
                let whole = match v {
                    Datum::Number(n) => n.as_i64(),
                    _ => None,
                };
                if whole.is_none() {
                    let mut e = "The order of the schema is not a whole number: ".to_owned();
                    e.append(document::to_json(v).as_str());
                    return Err(e);
                }
                whole
            },
        };
        let properties = match value::get(entries, "properties") {
            None => {
                let t: Table<Property> = Table::new();
                assert(traits(t@) =~= Map::empty());
                t
            },
            Some(Datum::Object(p)) => match read_properties(p) {
                Ok(t) => t,
                Err(e) => {
                    return Err(e);
                },
            },
            Some(v) => {
                let mut e = "The properties of the schema are not an object: ".to_owned();
                e.append(document::to_json(v).as_str());
                return Err(e);
            },
        };
        Ok(Schema { description, order, properties })
    }

    /// The schema that a text is, by the document that was read in it.
    pub fn from_document(read: Result<Datum, String>) -> (r: Result<Self, String>)
        ensures
            shaped(r) == schema_of(document::reading(read)),
    {
        match read {
            Ok(d) => Schema::from_value(&d),
            Err(e) => Err(e),
        }
    }

    /// Parse a schema written in any of the formats that are understood.
    pub fn parse(body: &str) -> (r: Result<Self, String>)
        ensures
            shaped(r) == schema_of(var::document_in(body@)),
    {
        Schema::from_document(var::read_document(body))
    }
}

/// What is wrong with a declared value, by its name.
pub open spec fn declared_errors(
    properties: Map<Seq<char>, Trait>,
    state: Map<Seq<char>, Json>,
) -> spec_fn(Seq<char>) -> Option<Seq<char>> {
    |name: Seq<char>|
        if !properties.dom().contains(name) {
            Some("Unknown property "@ + name + ", use `detc doc` to see the ones accepted"@)
        } else {
            match coerced(properties[name].kind, state[name]) {
                Ok(_) => None,
                Err(e) => Some("Property "@ + name + " is invalid: "@ + e),
            }
        }
}

/// The complaint about a property that is required and not declared, by its
/// name.
pub open spec fn missing_errors(
    properties: Map<Seq<char>, Trait>,
    state: Map<Seq<char>, Json>,
) -> spec_fn(Seq<char>) -> Option<Seq<char>> {
    |name: Seq<char>|
        if !state.dom().contains(name) && is_required(properties[name]) {
            Some("Property "@ + name + " is required"@)
        } else {
            None
        }
}

/// A declared state with every value read as the type that its property has,
/// and with the defaults of the properties that it does not declare.
pub open spec fn completed(
    properties: Map<Seq<char>, Trait>,
    state: Map<Seq<char>, Json>,
) -> Map<Seq<char>, Json> {
    Map::new(
        |k: Seq<char>|
            state.dom().contains(k) || (properties.dom().contains(k) && properties[k].default is Some),
        |k: Seq<char>|
            if state.dom().contains(k) {
                coerced(properties[k].kind, state[k])->Ok_0
            } else {
                properties[k].default->Some_0
            },
    )
}

/// A desired state read through a schema, or what is wrong with it: the first
/// value that the provider does not accept, or else the first property that is
/// missing, each in the order of the names.
pub open spec fn validated(
    properties: Map<Seq<char>, Trait>,
    state: Map<Seq<char>, Json>,
) -> Result<Map<Seq<char>, Json>, Seq<char>> {
    match text::first_of(text::listing(state.dom()), declared_errors(properties, state)) {
        Some(e) => Err(e),
        None => match text::first_of(
            text::listing(properties.dom()),
            missing_errors(properties, state),
        ) {
            Some(e) => Err(e),
            None => Ok(completed(properties, state)),
        },
    }
}

/// A value that was reported, read as the type of its property where it can
/// be, and kept as it arrived where it cannot.
pub open spec fn reported_value(properties: Map<Seq<char>, Trait>, name: Seq<char>, v: Json) -> Json {
    if properties.dom().contains(name) {
        match coerced(properties[name].kind, v) {
            Ok(read) => read,
            Err(_) => v,
        }
    } else {
        v
    }
}

/// A state that was reported, read through a schema.
pub open spec fn reported(
    properties: Map<Seq<char>, Trait>,
    state: Map<Seq<char>, Json>,
) -> Map<Seq<char>, Json> {
    Map::new(
        |k: Seq<char>| state.dom().contains(k),
        |k: Seq<char>| reported_value(properties, k, state[k]),
    )
}

/// Whether every default is of the type of its property.
pub open spec fn sound(properties: Map<Seq<char>, Trait>) -> bool {
    forall|k: Seq<char>| #[trigger]
        properties.dom().contains(k) && properties[k].default is Some ==> coerced(
            properties[k].kind,
            properties[k].default->Some_0,
        ) == Ok::<Json, Seq<char>>(properties[k].default->Some_0)
}

proof fn lemma_none_first(
    names: Seq<Seq<char>>,
    why: spec_fn(Seq<char>) -> Option<Seq<char>>,
    i: int,
)
    requires
        0 <= i < names.len(),
        text::first_of(names, why) is None,
    ensures
        why(names[i]) is None,
    decreases names.len(),
{
    if i < names.len() - 1 {
        lemma_none_first(names.drop_last(), why, i);
    }
}

proof fn lemma_none_named(
    set: Set<Seq<char>>,
    names: Seq<Seq<char>>,
    why: spec_fn(Seq<char>) -> Option<Seq<char>>,
    name: Seq<char>,
)
    requires
        text::ascending(names),
        names.to_set() == set,
        text::first_of(text::listing(set), why) is None,
        set.contains(name),
    ensures
        why(name) is None,
{
    text::lemma_listing(names);
    assert(names.to_set().contains(name));
    let i = choose|i: int| 0 <= i < names.len() && names[i] == name;
    lemma_none_first(names, why, i);
}

/// A finite set of texts can be listed in their order.
proof fn lemma_listable(set: Set<Seq<char>>) -> (names: Seq<Seq<char>>)
    requires
        set.finite(),
    ensures
        text::ascending(names),
        names.to_set() == set,
        names == text::listing(set),
    decreases set.len(),
{
    if set.len() == 0 {
        let names = Seq::<Seq<char>>::empty();
        assert(names.to_set() =~= set);
        text::lemma_listing(names);
        names
    } else {
        let one = set.choose();
        let rest = lemma_listable(set.remove(one));
        let names = text::lemma_insert_ordered(rest, one);
        assert(names.to_set() =~= set);
        text::lemma_listing(names);
        names
    }
}

/// The defaults of a schema that was read are of the types of their
/// properties.
pub proof fn law_defaults_are_of_their_types(d: Datum)
    requires
        schema_in(d@) is Ok,
    ensures
        sound(schema_in(d@)->Ok_0.properties),
{
    let m = d@->Object_0;
    if value::member(m, "properties"@) is Some {
        let declared = value::lemma_member_is_document(d->Object_0@, "properties"@);
        let p = m["properties"@]->Object_0;
        value::lemma_members_from(declared->Object_0@, "properties"@);
        let names = lemma_listable(p.dom());
        let read = schema_in(d@)->Ok_0.properties;
        assert forall|k: Seq<char>| #[trigger]
            read.dom().contains(k) && read[k].default is Some implies coerced(
            read[k].kind,
            read[k].default->Some_0,
        ) == Ok::<Json, Seq<char>>(read[k].default->Some_0) by {
            lemma_none_named(p.dom(), names, property_errors(p), k);
            assert(property_errors(p)(k) is None);
            let v = p[k]->Object_0["default"@];
            law_coercion_is_idempotent(read[k].kind, v);
        }
    }
}

/// A desired state that was read through a schema is what a provider that
/// reports it is read as: a resource that is in its state is found in it.
pub proof fn law_validated_state_is_reported_as_itself(
    properties: Map<Seq<char>, Trait>,
    state: Map<Seq<char>, Json>,
)
    requires
        sound(properties),
        state.dom().finite(),
        validated(properties, state) is Ok,
    ensures
        reported(properties, validated(properties, state)->Ok_0) == validated(
            properties,
            state,
        )->Ok_0,
{
    let done = completed(properties, state);
    let names = lemma_listable(state.dom());
    assert forall|k: Seq<char>| done.dom().contains(k) implies reported_value(
        properties,
        k,
        #[trigger] done[k],
    ) == done[k] by {
        if state.dom().contains(k) {
            lemma_none_named(state.dom(), names, declared_errors(properties, state), k);
            assert(declared_errors(properties, state)(k) is None);
            law_coercion_is_idempotent(properties[k].kind, state[k]);
        }
    }
    assert(reported(properties, done) =~= done);
}

/// The text of an optional part of a description.
pub open spec fn property_text(name: Seq<char>, p: Trait) -> Seq<char> {
    let head = "  "@ + name + " ("@ + name_of_type(p.kind);
    let needed = if is_required(p) {
        head + ", required"@
    } else {
        head
    };
    let answered = match p.default {
        Some(v) => needed + ", default "@ + json_text(v),
        None => needed,
    };
    let closed = answered + ")\n"@;
    match p.description {
        Some(t) => closed + "    "@ + t + "\n"@,
        None => closed,
    }
}

/// The texts of properties, one after the other.
pub open spec fn properties_text(
    names: Seq<Seq<char>>,
    properties: Map<Seq<char>, Trait>,
) -> Seq<char>
    decreases names.len(),
{
    if names.len() == 0 {
        Seq::empty()
    } else {
        properties_text(names.drop_last(), properties) + property_text(
            names.last(),
            properties[names.last()],
        )
    }
}

/// A schema as it is shown to a person.
pub open spec fn schema_text(shape: Shape) -> Seq<char> {
    let opening = match shape.description {
        Some(t) => t + "\n\n"@,
        None => Seq::empty(),
    };
    let head = opening + "order: "@ + text::signed(order_of(shape) as int) + "\n"@;
    if shape.properties.dom() == Set::<Seq<char>>::empty() {
        head + "\nThis type has no properties.\n"@
    } else {
        head + "\nproperties:\n"@ + properties_text(
            text::listing(shape.properties.dom()),
            shape.properties,
        )
    }
}

/// A property as it is shown to a person.
fn property_doc(name: &str, p: &Property) -> (r: String)
    ensures
        r@ == property_text(name@, p@),
{
    let mut r = "  ".to_owned();
    r.append(name);
    r.append(" (");
    r.append(p.kind().name());
    if p.required() {
        r.append(", required");
    }
    if let Some(v) = p.default() {
        r.append(", default ");
        r.append(document::to_json(v).as_str());
    }
    r.append(")\n");
    if let Some(t) = p.description() {
        r.append("    ");
        r.append(t);
        r.append("\n");
    }
    r
}

impl Schema {
    /// The declared values read as the types that their properties have.
    fn validate_declared(&self, state: &Vec<(String, Datum)>) -> (r: Result<
        Vec<(String, Datum)>,
        String,
    >)
        ensures
            ({
                let m = value::members(state@);
                let p = self@.properties;
                match r {
                    Ok(done) => {
                        &&& text::first_of(text::listing(m.dom()), declared_errors(p, m)) is None
                        &&& value::members(done@).dom() == m.dom()
                        &&& forall|k: Seq<char>| #[trigger]
                            m.dom().contains(k) ==> coerced(p[k].kind, m[k]) == Ok::<Json, Seq<char>>(
                                value::members(done@)[k],
                            )
                    },
                    Err(e) => text::first_of(text::listing(m.dom()), declared_errors(p, m)) == Some(
                        e@,
                    ),
                }
            }),
    {
        let ghost m = value::members(state@);
        let ghost p = self@.properties;
        let ghost why = declared_errors(p, m);
        let names = value::names(state);
        let ghost all = text::texts(names@);
        let mut done: Vec<(String, Datum)> = Vec::new();
        let mut i: usize = 0;
        let n: usize = names.len();
        assert(all.take(0).to_set() =~= value::members(done@).dom());
        while i < n
            invariant
                i <= n == names@.len(),
                m == value::members(state@),
                p == self@.properties,
                why == declared_errors(p, m),
                all == text::texts(names@),
                all == text::listing(m.dom()),
                all.to_set() == m.dom(),
                text::first_of(all.take(i as int), why) is None,
                value::members(done@).dom() == all.take(i as int).to_set(),
                forall|k: Seq<char>| #[trigger]
                    value::members(done@).dom().contains(k) ==> coerced(p[k].kind, m[k]) == Ok::<
                        Json,
                        Seq<char>,
                    >(value::members(done@)[k]),
            decreases n - i,
        {
            let name = &names[i];
            assert(all[i as int] == name@);
            proof {
                text::lemma_first_step(all, why, i as int);
                text::lemma_take_set(all, i as int);
                assert(all.to_set().contains(all[i as int]));
            }
            let property = match self.properties.get(name.as_str()) {
                Some(property) => property,
                None => {
                    let mut e = "Unknown property ".to_owned();
                    e.append(name.as_str());
                    e.append(", use `detc doc` to see the ones accepted");
                    return Err(e);
                },
            };
            assert(p[name@] == property@);
            match value::get(state, name.as_str()) {
                Some(v) => match property.kind.coerce(v) {
                    Ok(v) => {
                        let ghost was = value::members(done@);
                        value::put(&mut done, name.clone(), v);
                        assert(value::members(done@).dom() =~= was.dom().insert(name@));
                    },
                    Err(why) => {
                        let mut e = "Property ".to_owned();
                        e.append(name.as_str());
                        e.append(" is invalid: ");
                        e.append(why.as_str());
                        return Err(e);
                    },
                },
                None => {},
            }
            i += 1;
        }
        assert(all.take(n as int) =~= all);
        Ok(done)
    }

    /// Read a desired state through the schema: reject what the provider does
    /// not accept, fill in the defaults, and convert every value to the type
    /// that the property declares.
    pub fn validate(&self, state: &Vec<(String, Datum)>) -> (r: Result<Vec<(String, Datum)>, String>)
        ensures
            validated(self@.properties, value::members(state@)) == (match r {
                Ok(done) => Ok(value::members(done@)),
                Err(e) => Err(e@),
            }),
    {
        let ghost m = value::members(state@);
        let ghost p = self@.properties;
        let ghost why = missing_errors(p, m);
        let mut done = match self.validate_declared(state) {
            Ok(done) => done,
            Err(e) => {
                return Err(e);
            },
        };
        let rows = self.properties.rows();
        let ghost all = row_names(rows@);
        let mut i: usize = 0;
        let n: usize = rows.len();
        assert(p.dom() =~= self.properties@.dom());
        while i < n
            invariant
                i <= n == rows@.len(),
                m == value::members(state@),
                p == self@.properties,
                p == traits(self.properties@),
                why == missing_errors(p, m),
                all == row_names(rows@),
                all == text::listing(p.dom()),
                all.to_set() == p.dom(),
                text::ascending(all),
                forall|j: int| 0 <= j < rows@.len() ==> #[trigger] stands(self.properties@, rows@, j),
                text::first_of(text::listing(m.dom()), declared_errors(p, m)) is None,
                text::first_of(all.take(i as int), why) is None,
                forall|k: Seq<char>| #[trigger]
                    value::members(done@).dom().contains(k) <==> m.dom().contains(k) || (
                    all.take(i as int).contains(k) && p[k].default is Some),
                forall|k: Seq<char>| #[trigger]
                    value::members(done@).dom().contains(k) ==> value::members(done@)[k]
                        == completed(p, m)[k],
            decreases n - i,
        {
            let name = &rows[i].0;
            let property = &rows[i].1;
            proof {
                assert(stands(self.properties@, rows@, i as int));
                assert(all[i as int] == name@);
                assert(p[name@] == property@);
                assert(all.to_set().contains(all[i as int]));
                text::lemma_first_step(all, why, i as int);
                text::lemma_take_set(all, i as int);
                assert forall|k: Seq<char>| all.take(i + 1).contains(k) <==> all.take(
                    i as int,
                ).contains(k) || k == name@ by {
                    assert(all.take(i + 1).to_set().contains(k) <==> all.take(
                        i as int,
                    ).to_set().insert(name@).contains(k));
                }
                if all.take(i as int).contains(name@) {
                    let j = choose|j: int| 0 <= j < i && all.take(i as int)[j] == name@;
                    assert(text::before(all[j], all[i as int]));
                    text::lemma_before_irreflexive(name@);
                }
            }
            if value::get(&done, name.as_str()).is_none() {
                match property.default() {
                    Some(v) => {
                        value::put(&mut done, name.clone(), v.copy());
                    },
                    None => {
                        if property.required() {
                            let mut e = "Property ".to_owned();
                            e.append(name.as_str());
                            e.append(" is required");
                            return Err(e);
                        }
                    },
                }
            }
            i += 1;
        }
        proof {
            assert(all.take(n as int) =~= all);
            assert forall|k: Seq<char>| value::members(done@).dom().contains(k) <==> completed(
                p,
                m,
            ).dom().contains(k) by {
                assert(all.to_set().contains(k) <==> p.dom().contains(k));
            }
            assert(value::members(done@) =~= completed(p, m));
        }
        Ok(done)
    }

    /// Read the state that a provider reported, so that it can be compared with
    /// a desired state that was validated.
    ///
    /// Unlike a declaration, a report is not rejected for mentioning something
    /// that the schema does not know, and a value that the property cannot read
    /// is left as it arrived.
    pub fn read(&self, state: &Vec<(String, Datum)>) -> (r: Vec<(String, Datum)>)
        ensures
            value::members(r@) == reported(self@.properties, value::members(state@)),
    {
        let ghost m = value::members(state@);
        let ghost p = self@.properties;
        let names = value::names(state);
        let ghost all = text::texts(names@);
        let mut done: Vec<(String, Datum)> = Vec::new();
        let mut i: usize = 0;
        let n: usize = names.len();
        assert(all.take(0).to_set() =~= value::members(done@).dom());
        while i < n
            invariant
                i <= n == names@.len(),
                m == value::members(state@),
                p == self@.properties,
                p == traits(self.properties@),
                all == text::texts(names@),
                all.to_set() == m.dom(),
                value::members(done@).dom() == all.take(i as int).to_set(),
                forall|k: Seq<char>| #[trigger]
                    value::members(done@).dom().contains(k) ==> value::members(done@)[k]
                        == reported_value(p, k, m[k]),
            decreases n - i,
        {
            let name = &names[i];
            assert(all[i as int] == name@);
            proof {
                text::lemma_take_set(all, i as int);
                assert(all.to_set().contains(all[i as int]));
                assert(p.dom() =~= self.properties@.dom());
            }
            match value::get(state, name.as_str()) {
                Some(v) => {
                    let read = match self.properties.get(name.as_str()) {
                        Some(property) => {
                            assert(p[name@] == property@);
                            match property.kind.coerce(v) {
                                Ok(v) => v,
                                Err(_) => v.copy(),
                            }
                        },
                        None => v.copy(),
                    };
                    let ghost was = value::members(done@);
                    value::put(&mut done, name.clone(), read);
                    assert(value::members(done@).dom() =~= was.dom().insert(name@));
                },
                None => {},
            }
            i += 1;
        }
        assert(all.take(n as int) =~= all);
        assert(value::members(done@) =~= reported(p, m));
        done
    }

    /// Describe the schema for a person.
    pub fn to_doc(&self) -> (r: String)
        ensures
            r@ == schema_text(self@),
    {
        let ghost p = self@.properties;
        let mut doc = String::new();
        if let Some(description) = self.description() {
            doc.append(description);
            doc.append("\n\n");
            assert(doc@ =~= description@ + "\n\n"@);
        } else {
            assert(doc@ =~= Seq::empty());
        }
        doc.append("order: ");
        doc.append(text::signed_of(self.order()).as_str());
        doc.append("\n");
        let ghost head = doc@;
        let rows = self.properties.rows();
        let ghost all = row_names(rows@);
        let n: usize = rows.len();
        assert(p.dom() =~= self.properties@.dom());
        if n == 0 {
            doc.append("\nThis type has no properties.\n");
            assert(all.to_set() =~= Set::empty());
            return doc;
        }
        proof {
            assert(all.to_set().contains(all[0]));
        }
        doc.append("\nproperties:\n");
        let ghost opened = doc@;
        let mut i: usize = 0;
        assert(doc@ =~= opened + properties_text(all.take(0), p));
        while i < n
            invariant
                i <= n == rows@.len(),
                p == self@.properties,
                p == traits(self.properties@),
                all == row_names(rows@),
                forall|j: int| 0 <= j < rows@.len() ==> #[trigger] stands(self.properties@, rows@, j),
                doc@ == opened + properties_text(all.take(i as int), p),
            decreases n - i,
        {
            proof {
                assert(stands(self.properties@, rows@, i as int));
                assert(all.take(i + 1).drop_last() =~= all.take(i as int));
                assert(all.take(i + 1).last() == rows@[i as int].0@);
            }
            let line = property_doc(rows[i].0.as_str(), &rows[i].1);
            let ghost before = doc@;
            doc.append(line.as_str());
            assert(doc@ =~= opened + properties_text(all.take(i + 1), p));
            i += 1;
        }
        assert(all.take(n as int) =~= all);
        doc
    }
}

/// A program that implements one type of resource.
pub struct Provider {
    kind: String,
    path: String,
    root: String,
}

/// A program that implements one type of resource, as plain values.
pub struct Program {
    pub kind: Seq<char>,
    pub path: Seq<char>,
    pub root: Seq<char>,
}

impl View for Provider {
    type V = Program;

    closed spec fn view(&self) -> Program {
        Program { kind: self.kind@, path: self.path@, root: self.root@ }
    }
}

/// What a program said, or why it could not be run.
pub open spec fn said(r: Result<String, String>) -> Result<Seq<char>, Seq<char>> {
    match r {
        Ok(t) => Ok(t@),
        Err(e) => Err(e@),
    }
}

/// What was read, or said, once more.
pub fn said_again(t: &Result<String, String>) -> (r: Result<String, String>)
    ensures
        said(r) == said(*t),
{
    match t {
        Ok(t) => Ok(t.clone()),
        Err(e) => Err(e.clone()),
    }
}

/// What a provider said to a verb, or why it failed.
pub open spec fn answered(
    kind: Seq<char>,
    verb: Seq<char>,
    ran: Result<Seq<char>, Seq<char>>,
) -> Result<Seq<char>, Seq<char>> {
    match ran {
        Ok(t) => Ok(t),
        Err(e) => Err("Provider "@ + kind + " failed to "@ + verb + ": "@ + e),
    }
}

/// The schema that a provider has, by the document that was read in what it
/// said.
pub open spec fn provided(
    kind: Seq<char>,
    shape: Result<Shape, Seq<char>>,
) -> Result<Shape, Seq<char>> {
    match shape {
        Ok(shape) => Ok(shape),
        Err(e) => Err("The schema of "@ + kind + " is invalid: "@ + e),
    }
}

/// The document that asks a provider for the state of a resource.
pub open spec fn inspection(name: Seq<char>, desired: Map<Seq<char>, Json>) -> Json {
    Json::Object(
        Map::<Seq<char>, Json>::empty().insert("name"@, Json::Text(name)).insert(
            "desired"@,
            Json::Object(desired),
        ),
    )
}

/// The document that asks a provider to reach a state.
pub open spec fn application(
    name: Seq<char>,
    desired: Map<Seq<char>, Json>,
    current: Option<Json>,
    diff: Map<Seq<char>, Json>,
) -> Json {
    Json::Object(
        Map::<Seq<char>, Json>::empty().insert("name"@, Json::Text(name)).insert(
            "desired"@,
            Json::Object(desired),
        ).insert(
            "current"@,
            match current {
                Some(v) => v,
                None => Json::Null,
            },
        ).insert("diff"@, Json::Object(diff)),
    )
}

/// The state that a provider reported: none, where it says nothing or null.
pub open spec fn state_in(
    reported: Seq<char>,
    read: Result<Json, Seq<char>>,
) -> Result<Option<Json>, Seq<char>> {
    if text::trim(reported).len() == 0 {
        Ok(None)
    } else {
        match read {
            Err(e) => Err(e),
            Ok(Json::Null) => Ok(None),
            Ok(v) => Ok(Some(v)),
        }
    }
}

/// A state that was reported.
pub open spec fn found(r: Result<Option<Datum>, String>) -> Result<Option<Json>, Seq<char>> {
    match r {
        Ok(d) => Ok(json_of(d)),
        Err(e) => Err(e@),
    }
}

/// The state that a provider reported, by the document that was read in it.
pub fn state_of(reported: &str, read: Result<Datum, String>) -> (r: Result<Option<Datum>, String>)
    ensures
        found(r) == state_in(reported@, document::reading(read)),
{
    if text::blank(reported) {
        return Ok(None);
    }
    match read {
        Err(e) => Err(e),
        Ok(d) => match d {
            Datum::Null => Ok(None),
            d => Ok(Some(d)),
        },
    }
}

impl Provider {
    /// A program that implements a type of resource.
    pub fn new(kind: &str, path: &str, root: &str) -> (r: Self)
        ensures
            r@ == (Program { kind: kind@, path: path@, root: root@ }),
    {
        Provider { kind: kind.to_owned(), path: path.to_owned(), root: root.to_owned() }
    }

    /// The type of resource that the provider implements.
    pub fn kind(&self) -> (r: &str)
        ensures
            r@ == self@.kind,
    {
        self.kind.as_str()
    }

    /// Path of the program.
    pub fn path(&self) -> (r: &str)
        ensures
            r@ == self@.path,
    {
        self.path.as_str()
    }

    /// The root that the program works on.
    pub fn root(&self) -> (r: &str)
        ensures
            r@ == self@.root,
    {
        self.root.as_str()
    }

    /// What the provider said to a verb, or why it failed.
    pub fn answer(&self, verb: &str, ran: Result<String, String>) -> (r: Result<String, String>)
        ensures
            said(r) == answered(self@.kind, verb@, said(ran)),
    {
        match ran {
            Ok(t) => Ok(t),
            Err(why) => {
                let mut e = "Provider ".to_owned();
                e.append(self.kind.as_str());
                e.append(" failed to ");
                e.append(verb);
                e.append(": ");
                e.append(why.as_str());
                Err(e)
            },
        }
    }

    /// The schema document as the provider writes it, unparsed.
    pub fn raw_schema(&self, ran: Result<String, String>) -> (r: Result<String, String>)
        ensures
            said(r) == answered(self@.kind, "schema"@, said(ran)),
    {
        self.answer("schema", ran)
    }

    /// What the provider accepts.
    pub fn schema(&self, ran: Result<String, String>) -> (r: Result<Schema, String>)
        ensures
            shaped(r) == (match answered(self@.kind, "schema"@, said(ran)) {
                Err(e) => Err(e),
                Ok(body) => provided(self@.kind, schema_of(var::document_in(body))),
            }),
    {
        match self.raw_schema(ran) {
            Err(e) => Err(e),
            Ok(body) => match Schema::parse(body.as_str()) {
                Ok(schema) => Ok(schema),
                Err(why) => {
                    let mut e = "The schema of ".to_owned();
                    e.append(self.kind.as_str());
                    e.append(" is invalid: ");
                    e.append(why.as_str());
                    Err(e)
                },
            },
        }
    }

    /// What the provider is asked when it is asked for the state of a resource.
    pub fn inspect_request(name: &str, desired: &Vec<(String, Datum)>) -> (r: String)
        ensures
            r@ == json_text(inspection(name@, value::members(desired@))),
    {
        let mut entries: Vec<(String, Datum)> = Vec::new();
        value::put(&mut entries, "name".to_owned(), Datum::String(name.to_owned()));
        value::put(&mut entries, "desired".to_owned(), Datum::Object(value::copied(desired)));
        document::to_json(&Datum::Object(entries))
    }

    /// The state that the provider reported.  A provider that writes nothing,
    /// or null, is saying that the resource is absent.
    pub fn inspect(&self, ran: Result<String, String>) -> (r: Result<Option<Datum>, String>)
        ensures
            found(r) == (match answered(self@.kind, "inspect"@, said(ran)) {
                Err(e) => Err(e),
                Ok(reported) => state_in(reported, var::document_in(reported)),
            }),
    {
        match self.answer("inspect", ran) {
            Err(e) => Err(e),
            Ok(reported) => state_of(reported.as_str(), var::read_document(reported.as_str())),
        }
    }

    /// What the provider is asked when it is asked to reach a state.
    pub fn apply_request(
        name: &str,
        desired: &Vec<(String, Datum)>,
        current: Option<&Datum>,
        diff: &Vec<(String, Datum)>,
    ) -> (r: String)
        ensures
            r@ == json_text(
                application(
                    name@,
                    value::members(desired@),
                    match current {
                        Some(d) => Some(d@),
                        None => None,
                    },
                    value::members(diff@),
                ),
            ),
    {
        let mut entries: Vec<(String, Datum)> = Vec::new();
        value::put(&mut entries, "name".to_owned(), Datum::String(name.to_owned()));
        value::put(&mut entries, "desired".to_owned(), Datum::Object(value::copied(desired)));
        let state = match current {
            Some(d) => d.copy(),
            None => Datum::Null,
        };
        value::put(&mut entries, "current".to_owned(), state);
        value::put(&mut entries, "diff".to_owned(), Datum::Object(value::copied(diff)));
        document::to_json(&Datum::Object(entries))
    }

    /// Whether the provider reached the state: its exit status decides.
    pub fn apply(&self, ran: Result<String, String>) -> (r: Result<(), String>)
        ensures
            var::outcome(r) == (match answered(self@.kind, "apply"@, said(ran)) {
                Err(e) => Err(e),
                Ok(_) => Ok(()),
            }),
    {
        match self.answer("apply", ran) {
            Err(e) => Err(e),
            Ok(_) => Ok(()),
        }
    }
}

/// A file of the providers tree: the name it has there, its path, and whether
/// it can be run.
pub struct Installed {
    pub key: String,
    pub path: String,
    pub executable: bool,
}

/// The providers that files are, by the types that they implement.  The main
/// file has no name, and a file that cannot be run is documentation.
pub open spec fn installed(root: Seq<char>, files: Seq<Installed>) -> Map<Seq<char>, Program>
    decreases files.len(),
{
    if files.len() == 0 {
        Map::empty()
    } else {
        let before = installed(root, files.drop_last());
        let file = files.last();
        if file.key@.len() == 0 || !file.executable {
            before
        } else {
            before.insert(file.key@, Program { kind: file.key@, path: file.path@, root })
        }
    }
}

/// Providers available in the system.
pub struct Providers {
    providers: Table<Provider>,
}

/// Providers as plain values.
pub open spec fn programs(m: Map<Seq<char>, Provider>) -> Map<Seq<char>, Program> {
    m.map_values(|p: Provider| p@)
}

impl View for Providers {
    type V = Map<Seq<char>, Program>;

    closed spec fn view(&self) -> Map<Seq<char>, Program> {
        programs(self.providers@)
    }
}

impl Providers {
    #[verifier::type_invariant]
    spec fn under_their_types(self) -> bool {
        forall|kind: Seq<char>| #[trigger]
            self.providers@.dom().contains(kind) ==> self.providers@[kind]@.kind == kind
    }

    /// The providers that the files of the providers tree are.
    pub fn from_system(root: &str, files: &Vec<Installed>) -> (r: Self)
        ensures
            r@ == installed(root@, files@),
    {
        let mut providers: Table<Provider> = Table::new();
        let mut i: usize = 0;
        assert(programs(providers@) =~= installed(root@, files@.take(0)));
        while i < files.len()
            invariant
                i <= files@.len(),
                programs(providers@) == installed(root@, files@.take(i as int)),
                forall|kind: Seq<char>| #[trigger]
                    providers@.dom().contains(kind) ==> providers@[kind]@.kind == kind,
            decreases files@.len() - i,
        {
            assert(files@.take(i + 1).drop_last() =~= files@.take(i as int));
            let file = &files[i];
            if !file.key.as_str().is_empty() && file.executable {
                let ghost was = providers@;
                providers.set(
                    file.key.clone(),
                    Provider::new(file.key.as_str(), file.path.as_str(), root),
                );
                assert(programs(providers@) =~= programs(was).insert(
                    file.key@,
                    Program { kind: file.key@, path: file.path@, root: root@ },
                ));
            }
            i += 1;
        }
        assert(files@.take(i as int) =~= files@);
        Providers { providers }
    }

    /// The providers, ordered by the type that they implement.
    pub fn providers(&self) -> (r: Vec<&Provider>)
        ensures
            r@.len() == text::listing(self@.dom()).len(),
            forall|i: int|
                0 <= i < r@.len() ==> (#[trigger] r@[i])@ == self@[text::listing(self@.dom())[i]]
                    && r@[i]@.kind == text::listing(self@.dom())[i],
    {
        proof {
            use_type_invariant(self);
        }
        let rows = self.providers.rows();
        let mut r: Vec<&Provider> = Vec::new();
        let mut i: usize = 0;
        assert(self@.dom() =~= self.providers@.dom());
        while i < rows.len()
            invariant
                i <= rows@.len(),
                r@.len() == i,
                self@ == programs(self.providers@),
                forall|kind: Seq<char>| #[trigger]
                    self.providers@.dom().contains(kind) ==> self.providers@[kind]@.kind == kind,
                row_names(rows@) == text::listing(self@.dom()),
                forall|j: int| 0 <= j < rows@.len() ==> #[trigger] stands(self.providers@, rows@, j),
                forall|j: int|
                    0 <= j < i ==> (#[trigger] r@[j])@ == self@[text::listing(self@.dom())[j]]
                        && r@[j]@.kind == text::listing(self@.dom())[j],
            decreases rows@.len() - i,
        {
            assert(stands(self.providers@, rows@, i as int));
            assert(row_names(rows@)[i as int] == rows@[i as int].0@);
            r.push(&rows[i].1);
            i += 1;
        }
        r
    }

    /// Find the provider that implements a type of resource.
    pub fn find(&self, kind: &str) -> (r: Result<&Provider, String>)
        ensures
            match r {
                Ok(p) => self@.dom().contains(kind@) && self@[kind@] == p@ && p@.kind == kind@,
                Err(e) => !self@.dom().contains(kind@) && e@ == "There is no provider for "@ + kind@
                    + ", use `detc list --type provider`"@,
            },
    {
        proof {
            use_type_invariant(self);
        }
        match self.providers.get(kind) {
            Some(p) => Ok(p),
            None => {
                let mut e = "There is no provider for ".to_owned();
                e.append(kind);
                e.append(", use `detc list --type provider`");
                Err(e)
            },
        }
    }
}

/// The texts that stand for a boolean are eight, and every other text is
/// refused.
pub proof fn law_a_boolean_is_read_out_of_these_texts(t: Seq<char>)
    ensures
        coerced(Type::Boolean, Json::Text("true"@)) == Ok::<Json, Seq<char>>(Json::Bool(true)),
        coerced(Type::Boolean, Json::Text("yes"@)) == Ok::<Json, Seq<char>>(Json::Bool(true)),
        coerced(Type::Boolean, Json::Text("on"@)) == Ok::<Json, Seq<char>>(Json::Bool(true)),
        coerced(Type::Boolean, Json::Text("1"@)) == Ok::<Json, Seq<char>>(Json::Bool(true)),
        coerced(Type::Boolean, Json::Text("false"@)) == Ok::<Json, Seq<char>>(Json::Bool(false)),
        coerced(Type::Boolean, Json::Text("no"@)) == Ok::<Json, Seq<char>>(Json::Bool(false)),
        coerced(Type::Boolean, Json::Text("off"@)) == Ok::<Json, Seq<char>>(Json::Bool(false)),
        coerced(Type::Boolean, Json::Text("0"@)) == Ok::<Json, Seq<char>>(Json::Bool(false)),
        t != "true"@ && t != "yes"@ && t != "on"@ && t != "1"@ && t != "false"@ && t != "no"@ && t
            != "off"@ && t != "0"@ ==> coerced(Type::Boolean, Json::Text(t)) is Err,
{
    reveal_strlit("true");
    reveal_strlit("yes");
    reveal_strlit("on");
    reveal_strlit("1");
    reveal_strlit("false");
    reveal_strlit("no");
    reveal_strlit("off");
    reveal_strlit("0");
    assert("false"@.len() == 5 && "true"@.len() == 4 && "yes"@.len() == 3 && "off"@.len() == 3);
    assert("yes"@[0] == 'y' && "off"@[0] == 'o' && "on"@[0] == 'o' && "no"@[0] == 'n');
    assert("1"@[0] == '1' && "0"@[0] == '0');
}

/// What is of a type already is read as it stands, and what is read as a type
/// is of that type.
pub proof fn law_a_value_of_its_type_is_kept(kind: Type, v: Json)
    ensures
        v is Text ==> coerced(Type::String, v) == Ok::<Json, Seq<char>>(v),
        v is Bool ==> coerced(Type::Boolean, v) == Ok::<Json, Seq<char>>(v),
        v is Number && !(v->Number_0 is Fraction) ==> coerced(Type::Integer, v) == Ok::<
            Json,
            Seq<char>,
        >(v),
        v is Number ==> coerced(Type::Number, v) == Ok::<Json, Seq<char>>(v),
        v is Array ==> coerced(Type::Array, v) == Ok::<Json, Seq<char>>(v),
        v is Object ==> coerced(Type::Object, v) == Ok::<Json, Seq<char>>(v),
        coerced(kind, v) matches Ok(r) ==> match kind {
            Type::String => r is Text,
            Type::Boolean => r is Bool,
            Type::Integer => r is Number && !(r->Number_0 is Fraction),
            Type::Number => r is Number,
            Type::Array => r is Array,
            Type::Object => r is Object,
        },
{
}

/// Null is of no type. A text also stands for a boolean or a number that it
/// writes, and a boolean or a number for the text that it is written as;
/// nothing else is read as a type that it is not of.
pub proof fn law_what_is_of_no_type_is_refused(kind: Type, v: Json)
    ensures
        coerced(kind, Json::Null) is Err,
        (v is Array || v is Object) && (kind is String || kind is Boolean || kind is Integer
            || kind is Number) ==> coerced(kind, v) is Err,
        (v is Bool || v is Number || v is Text) && (kind is Array || kind is Object) ==> coerced(
            kind,
            v,
        ) is Err,
        v is Array ==> coerced(Type::Object, v) is Err,
        v is Object ==> coerced(Type::Array, v) is Err,
        v is Number ==> coerced(Type::Boolean, v) is Err,
        v is Bool ==> coerced(Type::Integer, v) is Err && coerced(Type::Number, v) is Err,
        v is Number && v->Number_0 is Fraction ==> coerced(Type::Integer, v) is Err,
        v is Bool || v is Number ==> coerced(Type::String, v) == Ok::<Json, Seq<char>>(
            Json::Text(json_text(v)),
        ),
{
}

/// A text reads as an integer when it writes a whole number that fits, with
/// white space around it or without.
pub proof fn law_an_integer_is_read_out_of_its_text(t: Seq<char>)
    ensures
        match text::whole(text::trim(t)) {
            Some(n) if -0x8000_0000_0000_0000 <= n <= 0x7fff_ffff_ffff_ffff => {
                &&& n >= 0 ==> coerced(Type::Integer, Json::Text(t)) == Ok::<Json, Seq<char>>(
                    Json::Number(Figure::Natural(n as u64)),
                )
                &&& n < 0 ==> coerced(Type::Integer, Json::Text(t)) == Ok::<Json, Seq<char>>(
                    Json::Number(Figure::Negative(n as i64)),
                )
            },
            _ => coerced(Type::Integer, Json::Text(t)) is Err,
        },
        match text::whole(text::trim(t)) {
            Some(n) if -0x8000_0000_0000_0000 <= n <= 0xffff_ffff_ffff_ffff => {
                &&& n >= 0 ==> coerced(Type::Number, Json::Text(t)) == Ok::<Json, Seq<char>>(
                    Json::Number(Figure::Natural(n as u64)),
                )
                &&& n < 0 ==> coerced(Type::Number, Json::Text(t)) == Ok::<Json, Seq<char>>(
                    Json::Number(Figure::Negative(n as i64)),
                )
            },
            _ => coerced(Type::Number, Json::Text(t)) is Ok <==> (number_reading(
                text::trim(t),
            ) is Some && number_reading(text::trim(t))->0 is Some),
        },
{
}

/// The types are called by these names and by no other.
pub proof fn law_types_have_six_names(name: Seq<char>)
    ensures
        type_named("string"@) == Ok::<Type, Seq<char>>(Type::String),
        type_named("boolean"@) == Ok::<Type, Seq<char>>(Type::Boolean),
        type_named("integer"@) == Ok::<Type, Seq<char>>(Type::Integer),
        type_named("number"@) == Ok::<Type, Seq<char>>(Type::Number),
        type_named("array"@) == Ok::<Type, Seq<char>>(Type::Array),
        type_named("object"@) == Ok::<Type, Seq<char>>(Type::Object),
        type_named(name) is Ok <==> name == "string"@ || name == "boolean"@ || name == "integer"@
            || name == "number"@ || name == "array"@ || name == "object"@,
{
    reveal_strlit("string");
    reveal_strlit("boolean");
    reveal_strlit("integer");
    reveal_strlit("number");
    reveal_strlit("array");
    reveal_strlit("object");
    assert("string"@[0] == 's' && "number"@[0] == 'n' && "object"@[0] == 'o');
    assert("boolean"@[0] == 'b' && "integer"@[0] == 'i' && "array"@[0] == 'a');
}

/// A state is valid when every key of it is a declared property that its value
/// can be read as, and every property that is required and has no default is
/// there.
pub proof fn law_a_state_is_valid_when_its_keys_are(
    properties: Map<Seq<char>, Trait>,
    state: Map<Seq<char>, Json>,
)
    requires
        properties.dom().finite(),
        state.dom().finite(),
    ensures
        validated(properties, state) is Ok <==> {
            &&& forall|k: Seq<char>| #[trigger]
                state.dom().contains(k) ==> properties.dom().contains(k) && coerced(
                    properties[k].kind,
                    state[k],
                ) is Ok
            &&& forall|k: Seq<char>| #[trigger]
                properties.dom().contains(k) && properties[k].required
                    && properties[k].default is None ==> state.dom().contains(k)
        },
{
    let keys = text::listing(state.dom());
    let all = text::listing(properties.dom());
    let wrong = declared_errors(properties, state);
    let missing = missing_errors(properties, state);
    text::law_the_first_complaint_is_given(keys, wrong);
    text::law_the_first_complaint_is_given(all, missing);
    text::law_a_listing_is_in_order(state.dom());
    text::law_a_listing_is_in_order(properties.dom());
    if validated(properties, state) is Ok {
        assert forall|k: Seq<char>| #[trigger] state.dom().contains(k) implies properties.dom().contains(
            k,
        ) && coerced(properties[k].kind, state[k]) is Ok by {
            assert(keys.contains(k));
            let i = choose|i: int| 0 <= i < keys.len() && keys[i] == k;
            assert(wrong(keys[i]) is None);
        }
        assert forall|k: Seq<char>| #[trigger]
            properties.dom().contains(k) && properties[k].required
                && properties[k].default is None implies state.dom().contains(k) by {
            assert(all.contains(k));
            let i = choose|i: int| 0 <= i < all.len() && all[i] == k;
            assert(missing(all[i]) is None);
        }
    }
    if (forall|k: Seq<char>| #[trigger]
        state.dom().contains(k) ==> properties.dom().contains(k) && coerced(
            properties[k].kind,
            state[k],
        ) is Ok) && (forall|k: Seq<char>| #[trigger]
        properties.dom().contains(k) && properties[k].required && properties[k].default is None
            ==> state.dom().contains(k)) {
        assert forall|i: int| 0 <= i < keys.len() implies wrong(#[trigger] keys[i]) is None by {
            assert(keys.contains(keys[i]));
            assert(state.dom().contains(keys[i]));
        }
        assert forall|i: int| 0 <= i < all.len() implies missing(#[trigger] all[i]) is None by {
            assert(all.contains(all[i]));
            assert(properties.dom().contains(all[i]));
        }
    }
}

/// A valid state holds what it held, read as the types of its properties, and
/// the defaults of the properties that it did not hold, and nothing else.
pub proof fn law_a_valid_state_is_filled_in(
    properties: Map<Seq<char>, Trait>,
    state: Map<Seq<char>, Json>,
    k: Seq<char>,
)
    requires
        state.dom().finite(),
        validated(properties, state) is Ok,
    ensures
        ({
            let full = validated(properties, state)->Ok_0;
            &&& state.dom().contains(k) ==> full.dom().contains(k) && Ok::<Json, Seq<char>>(full[k])
                == coerced(properties[k].kind, state[k])
            &&& !state.dom().contains(k) && properties.dom().contains(k)
                && properties[k].default is Some ==> full.dom().contains(k) && Some(full[k])
                == properties[k].default
            &&& !state.dom().contains(k) && !(properties.dom().contains(k)
                && properties[k].default is Some) ==> !full.dom().contains(k)
        }),
{
    let keys = text::listing(state.dom());
    text::law_the_first_complaint_is_given(keys, declared_errors(properties, state));
    text::law_a_listing_is_in_order(state.dom());
    if state.dom().contains(k) {
        assert(keys.contains(k));
        let i = choose|i: int| 0 <= i < keys.len() && keys[i] == k;
        assert(declared_errors(properties, state)(keys[i]) is None);
    }
}

/// A reported state has the keys that were reported. A value is read as the
/// type of its property where it can be, and is what it was everywhere else.
pub proof fn law_a_reported_state_keeps_its_keys(
    properties: Map<Seq<char>, Trait>,
    state: Map<Seq<char>, Json>,
    k: Seq<char>,
)
    ensures
        reported(properties, state).dom().contains(k) <==> state.dom().contains(k),
        state.dom().contains(k) && properties.dom().contains(k) && coerced(
            properties[k].kind,
            state[k],
        ) is Ok ==> Ok::<Json, Seq<char>>(reported(properties, state)[k]) == coerced(
            properties[k].kind,
            state[k],
        ),
        state.dom().contains(k) && properties.dom().contains(k) && coerced(
            properties[k].kind,
            state[k],
        ) is Err ==> reported(properties, state)[k] == state[k],
        state.dom().contains(k) && !properties.dom().contains(k) ==> reported(properties, state)[k]
            == state[k],
{
}

/// A schema says the order of its type with a whole number, and a type that
/// says nothing comes at fifty.
pub proof fn law_a_type_comes_at_its_order(m: Map<Seq<char>, Json>, n: u64)
    requires
        m.dom().contains("properties"@) ==> m["properties"@] == Json::Object(Map::empty()),
    ensures
        m.dom().contains("order"@) && m["order"@] == Json::Number(Figure::Natural(n)) && n
            <= 0x7fff_ffff_ffff_ffff ==> schema_in(Json::Object(m)) is Ok && order_of(
            schema_in(Json::Object(m))->Ok_0,
        ) as int == n as int,
        !m.dom().contains("order"@) || m["order"@] is Null ==> schema_in(Json::Object(m)) is Ok
            && order_of(schema_in(Json::Object(m))->Ok_0) == 50,
        m.dom().contains("order"@) && (m["order"@] is Text || m["order"@] is Bool || m["order"@] is Array
            || m["order"@] is Object) ==> schema_in(Json::Object(m)) is Err,
{
    let none = Map::<Seq<char>, Json>::empty();
    text::lemma_listing_stands(none.dom());
    let keys = text::listing(none.dom());
    if keys.len() > 0 {
        assert(keys.to_set().contains(keys[0]));
    }
    assert(text::first_of(keys, property_errors(none)) is None);
}

/// A property is declared with the type that it names, is required only if it
/// says so, and has the default that it gives, read as its type.
pub proof fn law_a_property_is_what_it_declares(
    name: Seq<char>,
    m: Map<Seq<char>, Json>,
    kind: Type,
)
    requires
        m.dom().contains("type"@),
        m["type"@] == Json::Text(name_of_type(kind)),
    ensures
        !m.dom().contains("default"@) ==> (property_in(name, Json::Object(m)) matches Ok(p) && p.kind
            == kind && p.default is None),
        m.dom().contains("default"@) ==> (property_in(name, Json::Object(m)) is Ok <==> coerced(
            kind,
            m["default"@],
        ) is Ok),
        m.dom().contains("default"@) && coerced(kind, m["default"@]) is Ok ==> (property_in(
            name,
            Json::Object(m),
        ) matches Ok(p) && p.kind == kind && p.default == Some(coerced(kind, m["default"@])->Ok_0)),
        property_in(name, Json::Object(m)) matches Ok(p) ==> {
            &&& p.required <==> m.dom().contains("required"@) && m["required"@] == Json::Bool(true)
            &&& p.description is Some <==> m.dom().contains("description"@)
                && m["description"@] is Text
            &&& p.description matches Some(t) ==> m["description"@] == Json::Text(t)
        },
{
    law_type_name_is_read_back(kind);
}

/// A provider is asked about a resource by its name and the state that is
/// desired of it, and is told besides, when it is to reach that state, the
/// state that it reported and what separates the two.
pub proof fn law_a_provider_is_told_what_to_reach(
    name: Seq<char>,
    desired: Map<Seq<char>, Json>,
    current: Option<Json>,
    diff: Map<Seq<char>, Json>,
)
    ensures
        inspection(name, desired) matches Json::Object(m) && {
            &&& m.dom() == set!["name"@, "desired"@]
            &&& m["name"@] == Json::Text(name)
            &&& m["desired"@] == Json::Object(desired)
        },
        application(name, desired, current, diff) matches Json::Object(m) && {
            &&& m.dom() == set!["name"@, "desired"@, "current"@, "diff"@]
            &&& m["name"@] == Json::Text(name)
            &&& m["desired"@] == Json::Object(desired)
            &&& current is None ==> m["current"@] is Null
            &&& current matches Some(c) ==> m["current"@] == c
            &&& m["diff"@] == Json::Object(diff)
        },
{
    reveal_strlit("name");
    reveal_strlit("desired");
    reveal_strlit("current");
    reveal_strlit("diff");
    assert("name"@[0] == 'n' && "diff"@[1] == 'i' && "desired"@[1] == 'e' && "current"@[0] == 'c');
    assert("diff"@[0] == 'd');
    let a = inspection(name, desired)->Object_0;
    let b = application(name, desired, current, diff)->Object_0;
    assert(a.dom() =~= set!["name"@, "desired"@]);
    assert(b.dom() =~= set!["name"@, "desired"@, "current"@, "diff"@]);
}

/// A resource is absent when its provider reports nothing or null, and in
/// every other state the one that was reported.
pub proof fn law_nothing_reported_is_an_absent_resource(
    reported: Seq<char>,
    read: Result<Json, Seq<char>>,
)
    ensures
        text::trim(reported).len() == 0 ==> state_in(reported, read) == Ok::<
            Option<Json>,
            Seq<char>,
        >(None),
        text::trim(reported).len() > 0 && read is Ok ==> state_in(reported, read) == Ok::<
            Option<Json>,
            Seq<char>,
        >(
            if read->Ok_0 is Null {
                None
            } else {
                Some(read->Ok_0)
            },
        ),
        text::trim(reported).len() > 0 && read is Err ==> state_in(reported, read) is Err,
{
}

/// The installed providers are the executable files of the tree, each under
/// its own key; of two with one key the later one counts.
pub proof fn law_installed_providers_are_executable(root: Seq<char>, files: Seq<Installed>, kind: Seq<char>)
    ensures
        installed(root, files).dom().contains(kind) <==> exists|i: int|
            0 <= i < files.len() && (#[trigger] files[i]).executable && files[i].key@ == kind
                && kind.len() > 0,
        installed(root, files).dom().contains(kind) ==> exists|i: int|
            #![trigger files[i]]
            0 <= i < files.len() && files[i].executable && files[i].key@ == kind && installed(
                root,
                files,
            )[kind] == (Program { kind, path: files[i].path@, root }) && forall|j: int|
                i < j < files.len() && (#[trigger] files[j]).executable ==> files[j].key@ != kind,
    decreases files.len(),
{
    if files.len() > 0 {
        let less = files.drop_last();
        let n: int = files.len() - 1;
        law_installed_providers_are_executable(root, less, kind);
        assert(forall|i: int| 0 <= i < n ==> #[trigger] less[i] == files[i]);
        let last = files[n];
        if last.executable && last.key@ == kind && kind.len() > 0 {
            assert(files[n].key@ == kind);
        } else if installed(root, less).dom().contains(kind) {
            let i = choose|i: int|
                #![trigger less[i]]
                0 <= i < less.len() && less[i].executable && less[i].key@ == kind && installed(
                    root,
                    less,
                )[kind] == (Program { kind, path: less[i].path@, root }) && forall|j: int|
                    i < j < less.len() && (#[trigger] less[j]).executable ==> less[j].key@ != kind;
            assert(files[i] == less[i]);
            assert forall|j: int| i < j < files.len() && (#[trigger] files[j]).executable implies files[j].key@
                != kind by {
                if j < n {
                    assert(less[j] == files[j]);
                }
            }
        } else {
            assert forall|i: int| 0 <= i < files.len() && (#[trigger] files[i]).executable && kind.len()
                > 0 implies files[i].key@ != kind by {
                if i < n {
                    assert(less[i] == files[i]);
                }
            }
        }
    }
}

/// A property that names no type, or anything but the name of a type, is
/// refused, as is one that is no object.
pub proof fn law_a_property_needs_a_type(name: Seq<char>, m: Map<Seq<char>, Json>, j: Json)
    ensures
        !m.dom().contains("type"@) ==> property_in(name, Json::Object(m)) is Err,
        m.dom().contains("type"@) && !(m["type"@] is Text) ==> property_in(name, Json::Object(m)) is Err,
        m.dom().contains("type"@) && m["type"@] is Text && type_named(m["type"@]->Text_0) is Err
            ==> property_in(name, Json::Object(m)) is Err,
        !(j is Object) ==> property_in(name, j) is Err,
        !(j is Object) ==> schema_in(j) is Err,
{
}

/// A schema is sound when all its properties are, and has each of them as it
/// is declared, and no other.
pub proof fn law_a_schema_has_the_properties_that_it_declares(
    m: Map<Seq<char>, Json>,
    p: Map<Seq<char>, Json>,
    k: Seq<char>,
)
    requires
        p.dom().finite(),
        !m.dom().contains("order"@),
        m.dom().contains("properties"@),
        m["properties"@] == Json::Object(p),
    ensures
        schema_in(Json::Object(m)) is Ok <==> forall|q: Seq<char>| #[trigger]
            p.dom().contains(q) ==> property_in(q, p[q]) is Ok,
        schema_in(Json::Object(m)) matches Ok(shape) ==> {
            &&& shape.properties.dom().contains(k) <==> p.dom().contains(k)
            &&& p.dom().contains(k) ==> property_in(k, p[k]) == Ok::<Trait, Seq<char>>(
                shape.properties[k],
            )
            &&& shape.description is Some <==> m.dom().contains("description"@)
                && m["description"@] is Text
        },
        forall|v: Json|
            !(v is Object) ==> (#[trigger] schema_in(
                Json::Object(m.insert("properties"@, v)),
            )) is Err,
{
    let names = text::listing(p.dom());
    let why = property_errors(p);
    text::law_the_first_complaint_is_given(names, why);
    text::law_a_listing_is_in_order(p.dom());
    if text::first_of(names, why) is None {
        assert forall|q: Seq<char>| #[trigger] p.dom().contains(q) implies property_in(q, p[q]) is Ok by {
            assert(names.contains(q));
            let i = choose|i: int| 0 <= i < names.len() && names[i] == q;
            assert(why(names[i]) is None);
        }
    }
    if forall|q: Seq<char>| #[trigger] p.dom().contains(q) ==> property_in(q, p[q]) is Ok {
        assert forall|i: int| 0 <= i < names.len() implies why(#[trigger] names[i]) is None by {
            assert(names.contains(names[i]));
            assert(p.dom().contains(names[i]));
        }
    }
    reveal_strlit("properties");
    reveal_strlit("order");
    assert("properties"@.len() == 10 && "order"@.len() == 5);
}

/// An order that does not fit is refused.
pub proof fn law_an_order_is_a_whole_number_that_fits(m: Map<Seq<char>, Json>, n: u64, s: i64)
    ensures
        m.dom().contains("order"@) && m["order"@] == Json::Number(Figure::Natural(n)) && n
            > 0x7fff_ffff_ffff_ffff ==> schema_in(Json::Object(m)) is Err,
        m.dom().contains("order"@) && m["order"@] == Json::Number(Figure::Negative(s)) && schema_in(
            Json::Object(m),
        ) is Ok ==> order_of(schema_in(Json::Object(m))->Ok_0) == s,
        m.dom().contains("order"@) && m["order"@] is Number && m["order"@]->Number_0 is Fraction
            ==> schema_in(Json::Object(m)) is Err,
{
}

/// A provider that fails is an error that says what it was asked to do, and
/// one that does not says what it says.
pub proof fn law_a_provider_that_fails_is_an_error(
    kind: Seq<char>,
    verb: Seq<char>,
    t: Seq<char>,
    shape: Shape,
)
    ensures
        answered(kind, verb, Ok(t)) == Ok::<Seq<char>, Seq<char>>(t),
        answered(kind, verb, Err(t)) == Err::<Seq<char>, Seq<char>>(
            "Provider "@ + kind + " failed to "@ + verb + ": "@ + t,
        ),
        provided(kind, Ok(shape)) == Ok::<Shape, Seq<char>>(shape),
        provided(kind, Err(t)) == Err::<Shape, Seq<char>>(
            "The schema of "@ + kind + " is invalid: "@ + t,
        ),
{
}

/// A property is shown with its name and type, whether it is required, its
/// default and what it is for.
pub proof fn law_a_property_is_shown_with_what_it_declares(
    name: Seq<char>,
    kind: Type,
    v: Json,
    t: Seq<char>,
)
    ensures
        property_text(
            name,
            Trait { kind, description: None, default: None, required: false },
        ) == "  "@ + name + " ("@ + name_of_type(kind) + ")\n"@,
        property_text(
            name,
            Trait { kind, description: None, default: None, required: true },
        ) == "  "@ + name + " ("@ + name_of_type(kind) + ", required"@ + ")\n"@,
        property_text(
            name,
            Trait { kind, description: Some(t), default: Some(v), required: true },
        ) == "  "@ + name + " ("@ + name_of_type(kind) + ", default "@ + json_text(v) + ")\n"@
            + "    "@ + t + "\n"@,
        name_of_type(Type::String) == "string"@,
        name_of_type(Type::Boolean) == "boolean"@,
        name_of_type(Type::Integer) == "integer"@,
        name_of_type(Type::Number) == "number"@,
        name_of_type(Type::Array) == "array"@,
        name_of_type(Type::Object) == "object"@,
{
}

/// Properties are shown one behind the other, in their order.
pub proof fn law_properties_are_shown_in_their_order(
    names: Seq<Seq<char>>,
    name: Seq<char>,
    properties: Map<Seq<char>, Trait>,
)
    ensures
        properties_text(Seq::empty(), properties).len() == 0,
        properties_text(names.push(name), properties) == properties_text(names, properties)
            + property_text(name, properties[name]),
{
    assert(names.push(name).drop_last() =~= names);
}

/// A schema is shown with what it is for, its order and its properties.
pub proof fn law_a_schema_is_shown_with_its_properties(shape: Shape)
    ensures
        shape.description is None && shape.properties.dom() == Set::<Seq<char>>::empty()
            ==> schema_text(shape) == "order: "@ + text::signed(order_of(shape) as int) + "\n"@
            + "\nThis type has no properties.\n"@,
        shape.description is None && shape.properties.dom() != Set::<Seq<char>>::empty()
            ==> schema_text(shape) == "order: "@ + text::signed(order_of(shape) as int) + "\n"@
            + "\nproperties:\n"@ + properties_text(
            text::listing(shape.properties.dom()),
            shape.properties,
        ),
        shape.description matches Some(t) ==> schema_text(shape) == t + "\n\n"@ + schema_text(
            Shape { description: None, ..shape },
        ),
{
    let plain = Shape { description: None, ..shape };
    let order = "order: "@ + text::signed(order_of(shape) as int) + "\n"@;
    assert(Seq::<char>::empty() + "order: "@ =~= "order: "@);
    match shape.description {
        Some(t) => {
            let head = t + "\n\n"@ + "order: "@ + text::signed(order_of(shape) as int) + "\n"@;
            assert(head =~= t + "\n\n"@ + order);
            let more = if shape.properties.dom() == Set::<Seq<char>>::empty() {
                order + "\nThis type has no properties.\n"@
            } else {
                order + "\nproperties:\n"@ + properties_text(
                    text::listing(shape.properties.dom()),
                    shape.properties,
                )
            };
            assert(schema_text(plain) == more);
            assert(schema_text(shape) =~= t + "\n\n"@ + more);
        },
        None => {},
    }
}

/// An order may be below zero.
pub proof fn law_an_order_may_be_below_zero(m: Map<Seq<char>, Json>, n: i64)
    requires
        !m.dom().contains("properties"@),
        m.dom().contains("order"@),
        m["order"@] == Json::Number(Figure::Negative(n)),
    ensures
        schema_in(Json::Object(m)) matches Ok(shape) && shape.order == Some(n)
            && shape.properties.dom() == Set::<Seq<char>>::empty(),
{
    assert(schema_in(Json::Object(m))->Ok_0.properties.dom() =~= Set::<Seq<char>>::empty());
}

} // verus!
