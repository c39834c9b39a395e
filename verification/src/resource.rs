//! Resources, the state of the system that is not a configuration file.
//!
//! A resource is declared in `<prefix>/detc/resources.d/<type>/<name>`: the
//! first component of the path is the type, and the rest is the name.  The
//! path is the identity, so a declaration is overridden by the one with the
//! same path in a prefix of higher priority, and masked by an empty file.
//!
//! Everything in the document is the desired state, except two reserved keys:
//! `_order`, which moves the resource in the order in which the system is
//! applied, and `_requires`, which says what has to have worked for it to be
//! worth applying at all.

use vstd::prelude::*;

use crate::document;
use crate::document::json_text;
use crate::order;
use crate::order::Ranked;
use crate::path;
use crate::provider;
use crate::provider::{said, Providers, Schema};
use crate::template;
use crate::text;
use crate::value;
use crate::value::{Datum, Json};
use crate::var;

verus! {

/// Name of the resources tree, searched in the default prefixes.
pub const RESOURCES_NAME: &'static str = "detc/resources";

/// Reserved key that moves a resource in the order in which the system is
/// applied.
pub const ORDER_KEY: &'static str = "_order";

/// Reserved key that names the objects that have to have worked for this one
/// to be applied.
pub const REQUIRES_KEY: &'static str = "_requires";

/// A declaration, taken apart: what the provider is asked for, and what the
/// two reserved keys say.
pub struct Declaration {
    pub state: Vec<(String, Datum)>,
    pub order: Option<i64>,
    pub requires: Vec<String>,
}

/// A declaration, as plain values.
pub struct Intent {
    pub state: Map<Seq<char>, Json>,
    pub order: Option<i64>,
    pub requires: Seq<Seq<char>>,
}

impl View for Declaration {
    type V = Intent;

    open spec fn view(&self) -> Intent {
        Intent {
            state: value::members(self.state@),
            order: self.order,
            requires: text::texts(self.requires@),
        }
    }
}

/// A declaration that was read.
pub open spec fn intent(r: Result<Declaration, String>) -> Result<Intent, Seq<char>> {
    match r {
        Ok(d) => Ok(d@),
        Err(e) => Err(e@),
    }
}

/// The order that a declaration asks for.
pub open spec fn order_in(id: Seq<char>, m: Map<Seq<char>, Json>) -> Result<Option<i64>, Seq<char>> {
    match value::member(m, ORDER_KEY@) {
        None | Some(Json::Null) => Ok(None),
        Some(v) => match v {
            Json::Number(f) if provider::whole_of(f) is Some => Ok(provider::whole_of(f)),
            _ => Err(
                "The _order of "@ + id + " is not a whole number: "@ + json_text(v),
            ),
        },
    }
}

/// The object that an entry of a list of requirements names.
pub open spec fn requirement_in(id: Seq<char>, v: Json) -> Result<Seq<char>, Seq<char>> {
    match v {
        Json::Text(t) if text::trim(t).len() > 0 => Ok(text::trim(t)),
        _ => Err(
            "The _requires of "@ + id + " names "@ + json_text(v)
                + ", and an object is named `<type>/<name>`"@,
        ),
    }
}

/// The objects that a list of requirements names, or the complaint about the
/// first entry that names none.
pub open spec fn requirements_of(id: Seq<char>, list: Seq<Json>) -> Result<
    Seq<Seq<char>>,
    Seq<char>,
>
    decreases list.len(),
{
    if list.len() == 0 {
        Ok(Seq::empty())
    } else {
        match requirements_of(id, list.drop_last()) {
            Err(e) => Err(e),
            Ok(named) => match requirement_in(id, list.last()) {
                Err(e) => Err(e),
                Ok(one) => Ok(named.push(one)),
            },
        }
    }
}

/// The objects that a declaration requires.
pub open spec fn requirements_in(id: Seq<char>, m: Map<Seq<char>, Json>) -> Result<
    Seq<Seq<char>>,
    Seq<char>,
> {
    match value::member(m, REQUIRES_KEY@) {
        None | Some(Json::Null) => Ok(Seq::empty()),
        Some(Json::Array(list)) => requirements_of(id, list),
        Some(v) => Err(
            "The _requires of "@ + id + " is not a list of objects: "@ + json_text(v),
        ),
    }
}

/// The declaration that a document is.
pub open spec fn declaration_in(id: Seq<char>, j: Json) -> Result<Intent, Seq<char>> {
    match j {
        Json::Object(m) => match order_in(id, m) {
            Err(e) => Err(e),
            Ok(order) => match requirements_in(id, m) {
                Err(e) => Err(e),
                Ok(named) => Ok(
                    Intent {
                        state: m.remove(ORDER_KEY@).remove(REQUIRES_KEY@),
                        order,
                        requires: named,
                    },
                ),
            },
        },
        _ => Err("The declaration of "@ + id + " is not an object"@),
    }
}

/// The declaration that an expanded text is, by the document that is read in
/// it.  A text that expands to nothing is an empty desired state.
pub open spec fn declared(
    id: Seq<char>,
    body: Seq<char>,
    read: Result<Json, Seq<char>>,
) -> Result<Intent, Seq<char>> {
    if text::trim(body).len() == 0 {
        declaration_in(id, Json::Object(Map::empty()))
    } else {
        match read {
            Err(e) => Err(e),
            Ok(j) => declaration_in(id, j),
        }
    }
}

proof fn lemma_requirements_stop(id: Seq<char>, list: Seq<Json>, i: int)
    requires
        0 <= i <= list.len(),
        requirements_of(id, list.take(i)) is Err,
    ensures
        requirements_of(id, list) == requirements_of(id, list.take(i)),
    decreases list.len() - i,
{
    if i == list.len() {
        assert(list.take(i) =~= list);
    } else {
        assert(list.take(i + 1).drop_last() =~= list.take(i));
        lemma_requirements_stop(id, list, i + 1);
    }
}

/// The objects that a list of requirements names.
fn read_requirements(id: &str, list: &Vec<Datum>) -> (r: Result<Vec<String>, String>)
    ensures
        requirements_of(id@, value::items(list@)) == (match r {
            Ok(named) => Ok(text::texts(named@)),
            Err(e) => Err(e@),
        }),
{
    let ghost all = value::items(list@);
    let mut named: Vec<String> = Vec::new();
    let mut i: usize = 0;
    let n: usize = list.len();
    proof {
        value::lemma_items(list@);
        assert(text::texts(named@) =~= Seq::empty());
    }
    while i < n
        invariant
            i <= n == list@.len(),
            all == value::items(list@),
            all.len() == n,
            forall|j: int| 0 <= j < n ==> #[trigger] all[j] == list@[j]@,
            requirements_of(id@, all.take(i as int)) == Ok::<Seq<Seq<char>>, Seq<char>>(
                text::texts(named@),
            ),
        decreases n - i,
    {
        proof {
            assert(all.take(i + 1).drop_last() =~= all.take(i as int));
            assert(all.take(i + 1).last() == list@[i as int]@);
            if requirements_of(id@, all.take(i + 1)) is Err {
                lemma_requirements_stop(id@, all, i + 1);
            }
        }
        let entry = &list[i];
        let trimmed = match entry {
            Datum::String(t) => Some(text::trimmed(t.as_str())),
            _ => None,
        };
        match trimmed {
            Some(t) if !t.as_str().is_empty() => {
                let ghost was = text::texts(named@);
                let ghost one = t@;
                named.push(t);
                assert(text::texts(named@) =~= was.push(one));
            },
            _ => {
                let mut e = "The _requires of ".to_owned();
                e.append(id);
                e.append(" names ");
                e.append(document::to_json(entry).as_str());
                e.append(", and an object is named `<type>/<name>`");
                return Err(e);
            },
        }
        i += 1;
    }
    assert(all.take(n as int) =~= all);
    Ok(named)
}

/// The declaration that a document is.
pub fn take_apart(id: &str, d: Datum) -> (r: Result<Declaration, String>)
    ensures
        intent(r) == declaration_in(id@, d@),
{
    let mut state = match d {
        Datum::Object(entries) => entries,
        _ => {
            let mut e = "The declaration of ".to_owned();
            e.append(id);
            e.append(" is not an object");
            return Err(e);
        },
    };
    proof {
        reveal_strlit("_order");
        reveal_strlit("_requires");
        assert(ORDER_KEY@.len() != REQUIRES_KEY@.len());
    }
    let order = match value::drop_member(&mut state, ORDER_KEY) {
        None | Some(Datum::Null) => None,
        Some(v) => {
            let whole = match &v {
                Datum::Number(n) => n.as_i64(),
                _ => None,
            };
            if whole.is_none() {
                let mut e = "The _order of ".to_owned();
                e.append(id);
                e.append(" is not a whole number: ");
                e.append(document::to_json(&v).as_str());
                return Err(e);
            }
            whole
        },
    };
    let named = match value::drop_member(&mut state, REQUIRES_KEY) {
        None | Some(Datum::Null) => {
            let none: Vec<String> = Vec::new();
            assert(text::texts(none@) =~= Seq::empty());
            none
        },
        Some(Datum::Array(list)) => match read_requirements(id, &list) {
            Ok(named) => named,
            Err(e) => {
                return Err(e);
            },
        },
        Some(v) => {
            let mut e = "The _requires of ".to_owned();
            e.append(id);
            e.append(" is not a list of objects: ");
            e.append(document::to_json(&v).as_str());
            return Err(e);
        },
    };
    Ok(Declaration { state, order, requires: named })
}

/// The declaration that an expanded text is, by the document that was read in
/// it.
pub fn declare(id: &str, body: &str, read: Result<Datum, String>) -> (r: Result<Declaration, String>)
    ensures
        intent(r) == declared(id@, body@, document::reading(read)),
{
    if text::blank(body) {
        let none: Vec<(String, Datum)> = Vec::new();
        return take_apart(id, Datum::Object(none));
    }
    match read {
        Ok(d) => take_apart(id, d),
        Err(e) => Err(e),
    }
}

/// The declaration of one piece of state, and where it was declared.
pub struct Resource {
    kind: String,
    name: String,
    source: String,
}

/// A resource, as plain values.
pub struct Claim {
    pub kind: Seq<char>,
    pub name: Seq<char>,
    pub source: Seq<char>,
}

impl View for Resource {
    type V = Claim;

    closed spec fn view(&self) -> Claim {
        Claim { kind: self.kind@, name: self.name@, source: self.source@ }
    }
}

/// How a resource is addressed, as `<type>/<name>`.
pub open spec fn id_of(c: Claim) -> Seq<char> {
    c.kind + "/"@ + c.name
}

/// What the expanded declaration of a resource is, by what was read of its
/// file.
pub open spec fn expansion_of(
    c: Claim,
    read: Result<Seq<char>, Seq<char>>,
    context: Json,
) -> Result<Seq<char>, Seq<char>> {
    match template::content_of("resource"@, c.source, read) {
        Err(e) => Err(e),
        Ok(content) => template::rendering(
            id_of(c),
            c.source,
            content,
            template::expanded(c.source, content, context),
        ),
    }
}

/// The declaration of a resource, by what was read of its file.
pub open spec fn declaration_of(
    c: Claim,
    read: Result<Seq<char>, Seq<char>>,
    context: Json,
) -> Result<Intent, Seq<char>> {
    match expansion_of(c, read, context) {
        Err(e) => Err(e),
        Ok(body) => declared(id_of(c), body, var::document_in(body)),
    }
}

/// The state that a declaration asks of a provider with a schema.
pub open spec fn desired_of(
    id: Seq<char>,
    properties: Map<Seq<char>, provider::Trait>,
    declaration: Result<Intent, Seq<char>>,
) -> Result<Map<Seq<char>, Json>, Seq<char>> {
    match declaration {
        Err(e) => Err(e),
        Ok(intent) => match provider::validated(properties, intent.state) {
            Ok(state) => Ok(state),
            Err(e) => Err("Resource "@ + id + " is invalid: "@ + e),
        },
    }
}

/// When a declaration runs: where it asks to, or else where its type does.
pub open spec fn order_for(shape: provider::Shape, intent: Intent) -> i64 {
    match intent.order {
        Some(order) => order,
        None => provider::order_of(shape),
    }
}

/// A state, as plain values.
pub open spec fn state(r: Result<Vec<(String, Datum)>, String>) -> Result<
    Map<Seq<char>, Json>,
    Seq<char>,
> {
    match r {
        Ok(state) => Ok(value::members(state@)),
        Err(e) => Err(e@),
    }
}

impl Resource {
    /// The declaration of one piece of state, and where it was declared.
    pub fn new(kind: &str, name: &str, source: &str) -> (r: Self)
        ensures
            r@ == (Claim { kind: kind@, name: name@, source: source@ }),
    {
        Resource { kind: kind.to_owned(), name: name.to_owned(), source: source.to_owned() }
    }

    /// The type of the resource, which is the provider that implements it.
    pub fn kind(&self) -> (r: &str)
        ensures
            r@ == self@.kind,
    {
        self.kind.as_str()
    }

    /// The name that addresses the resource inside its type.
    pub fn name(&self) -> (r: &str)
        ensures
            r@ == self@.name,
    {
        self.name.as_str()
    }

    /// How the resource is addressed in the command line, as `<type>/<name>`.
    pub fn id(&self) -> (r: String)
        ensures
            r@ == id_of(self@),
    {
        let mut id = self.kind.clone();
        id.append("/");
        id.append(self.name.as_str());
        id
    }

    /// Path of the file that declares the resource.
    pub fn source(&self) -> (r: &str)
        ensures
            r@ == self@.source,
    {
        self.source.as_str()
    }

    /// The declaration as it is written, by what was read of its file.
    pub fn content(&self, read: Result<String, String>) -> (r: Result<String, String>)
        ensures
            said(r) == template::content_of("resource"@, self@.source, said(read)),
    {
        template::content("resource", self.source.as_str(), read)
    }

    /// Expand the declaration with the variables of a context.
    pub fn render(&self, read: Result<String, String>, context: &Datum) -> (r: Result<
        String,
        String,
    >)
        ensures
            said(r) == expansion_of(self@, said(read), context@),
    {
        match self.content(read) {
            Err(e) => Err(e),
            Ok(content) => template::render(
                self.id().as_str(),
                self.source.as_str(),
                content.as_str(),
                context,
            ),
        }
    }

    /// The declaration, expanded and parsed and taken apart.
    pub fn declaration(&self, read: Result<String, String>, context: &Datum) -> (r: Result<
        Declaration,
        String,
    >)
        ensures
            intent(r) == declaration_of(self@, said(read), context@),
    {
        match self.render(read, context) {
            Err(e) => Err(e),
            Ok(body) => declare(
                self.id().as_str(),
                body.as_str(),
                var::read_document(body.as_str()),
            ),
        }
    }

    /// The state that a declaration asks of a provider with a schema.
    pub fn desire(&self, schema: &Schema, declaration: Result<Declaration, String>) -> (r: Result<
        Vec<(String, Datum)>,
        String,
    >)
        ensures
            state(r) == desired_of(id_of(self@), schema@.properties, intent(declaration)),
    {
        match declaration {
            Err(e) => Err(e),
            Ok(declaration) => match schema.validate(&declaration.state) {
                Ok(state) => Ok(state),
                Err(why) => {
                    let mut e = "Resource ".to_owned();
                    e.append(self.id().as_str());
                    e.append(" is invalid: ");
                    e.append(why.as_str());
                    Err(e)
                },
            },
        }
    }

    /// The desired state as the provider sees it: expanded, parsed, checked
    /// against the schema and completed with its defaults.
    pub fn desired(
        &self,
        schema: &Schema,
        read: Result<String, String>,
        context: &Datum,
    ) -> (r: Result<Vec<(String, Datum)>, String>)
        ensures
            state(r) == desired_of(
                id_of(self@),
                schema@.properties,
                declaration_of(self@, said(read), context@),
            ),
    {
        self.desire(schema, self.declaration(read, context))
    }

    /// When the resource runs, relative to the other resources and to the
    /// templates.
    pub fn order(&self, schema: &Schema, read: Result<String, String>, context: &Datum) -> (r: Result<
        i64,
        String,
    >)
        ensures
            var::outcome(r) == (match declaration_of(self@, said(read), context@) {
                Err(e) => Err(e),
                Ok(intent) => Ok(order_for(schema@, intent)),
            }),
    {
        match self.declaration(read, context) {
            Err(e) => Err(e),
            Ok(declaration) => match declaration.order {
                Some(order) => Ok(order),
                None => Ok(schema.order()),
            },
        }
    }

    /// Check that the resource can be handed to its provider, which said
    /// `ran` when it was asked for its schema.
    pub fn check(
        &self,
        providers: &Providers,
        ran: Result<String, String>,
        read: Result<String, String>,
        context: &Datum,
    ) -> (r: Result<(), String>)
        ensures
            var::outcome(r) == (if !providers@.dom().contains(self@.kind) {
                Err(
                    "There is no provider for "@ + self@.kind
                        + ", use `detc list --type provider`"@,
                )
            } else {
                match provider::answered(providers@[self@.kind].kind, "schema"@, said(ran)) {
                    Err(e) => Err(e),
                    Ok(body) => match provider::provided(
                        providers@[self@.kind].kind,
                        provider::schema_of(var::document_in(body)),
                    ) {
                        Err(e) => Err(e),
                        Ok(shape) => match desired_of(
                            id_of(self@),
                            shape.properties,
                            declaration_of(self@, said(read), context@),
                        ) {
                            Err(e) => Err(e),
                            Ok(_) => Ok(()),
                        },
                    },
                }
            }),
    {
        let provider = match providers.find(self.kind.as_str()) {
            Ok(provider) => provider,
            Err(e) => {
                return Err(e);
            },
        };
        match provider.schema(ran) {
            Err(e) => Err(e),
            Ok(schema) => match self.desired(&schema, read, context) {
                Ok(_) => Ok(()),
                Err(e) => Err(e),
            },
        }
    }
}

/// Whether a resource comes before another: by type, and then by name.
pub open spec fn ranks(a: Claim, b: Claim) -> bool {
    text::before(a.kind, b.kind) || (a.kind == b.kind && text::before(a.name, b.name))
}

/// Whether two resources are of one type and of one name.
pub open spec fn same_claim(a: Claim, b: Claim) -> bool {
    a.kind == b.kind && a.name == b.name
}

proof fn lemma_ranks_asymmetric(a: Claim, b: Claim)
    requires
        ranks(a, b),
    ensures
        !ranks(b, a),
        !same_claim(a, b),
{
    text::lemma_before_irreflexive(a.kind);
    text::lemma_before_irreflexive(a.name);
    if text::before(a.kind, b.kind) {
        text::lemma_before_asymmetric(a.kind, b.kind);
    } else {
        text::lemma_before_asymmetric(a.name, b.name);
    }
}

proof fn lemma_ranks_total(a: Claim, b: Claim)
    requires
        !ranks(a, b),
        !ranks(b, a),
    ensures
        same_claim(a, b),
{
    if a.kind != b.kind {
        text::lemma_before_total(a.kind, b.kind);
    } else if a.name != b.name {
        text::lemma_before_total(a.name, b.name);
    }
}

proof fn lemma_ranks_transitive(a: Claim, b: Claim, c: Claim)
    requires
        ranks(a, b),
        ranks(b, c),
    ensures
        ranks(a, c),
{
    if text::before(a.kind, b.kind) && text::before(b.kind, c.kind) {
        text::lemma_before_transitive(a.kind, b.kind, c.kind);
    } else if a.kind == b.kind && b.kind == c.kind {
        if text::before(a.name, b.name) && text::before(b.name, c.name) {
            text::lemma_before_transitive(a.name, b.name, c.name);
        } else {
            text::lemma_before_irreflexive(a.kind);
        }
    }
}

proof fn lemma_ranks_chained(a: Claim, b: Claim, c: Claim)
    requires
        !ranks(b, a),
        !ranks(c, b),
    ensures
        !ranks(c, a),
{
    if ranks(c, a) {
        if !ranks(a, b) {
            lemma_ranks_total(a, b);
        } else {
            lemma_ranks_transitive(c, a, b);
        }
    }
}

impl Ranked for Resource {
    open spec fn precedes(self, other: Self) -> bool {
        ranks(self@, other@)
    }

    proof fn asymmetric(a: Self, b: Self) {
        lemma_ranks_asymmetric(a@, b@);
    }

    proof fn chained(a: Self, b: Self, c: Self) {
        lemma_ranks_chained(a@, b@, c@);
    }

    fn before(&self, other: &Self) -> (r: bool) {
        text::less(self.kind(), other.kind()) || (text::equal(self.kind(), other.kind())
            && text::less(self.name(), other.name()))
    }
}

/// Resources, as plain values.
pub open spec fn claims(s: Seq<Resource>) -> Seq<Claim> {
    Seq::new(s.len(), |i: int| s[i]@)
}

/// The type and the name that the path of a declaration says, when it says
/// both.
pub open spec fn split(key: Seq<char>) -> Option<(Seq<char>, Seq<char>)> {
    let names = path::names(key);
    if names.len() < 2 {
        None
    } else {
        Some((names[0], var::stem(path::spelled(names.skip(1)))))
    }
}

/// The resources that files declare, in the order of the files, or the
/// complaint about the first of them that is in no type.  The main file has no
/// key, and declares nothing.
pub open spec fn declared_by(entries: Seq<(String, String)>) -> Result<Seq<Claim>, Seq<char>>
    decreases entries.len(),
{
    if entries.len() == 0 {
        Ok(Seq::empty())
    } else {
        match declared_by(entries.drop_last()) {
            Err(e) => Err(e),
            Ok(before) => {
                let (key, source) = (entries.last().0@, entries.last().1@);
                if key.len() == 0 {
                    Ok(before)
                } else {
                    match split(key) {
                        Some((kind, name)) => Ok(before.push(Claim { kind, name, source })),
                        None => Err(
                            "Resource "@ + source
                                + " is directly in the resources tree, and the first directory of the tree is the type of the resource"@,
                        ),
                    }
                }
            },
        }
    }
}

/// Whether the declarations at `i` and `j` are the first two of one resource,
/// and no resource that comes before it is declared twice.
pub open spec fn twice(all: Seq<Claim>, i: int, j: int) -> bool {
    &&& 0 <= i < j < all.len()
    &&& same_claim(all[i], all[j])
    &&& forall|k: int| 0 <= k < j && k != i ==> !same_claim(#[trigger] all[k], all[i])
    &&& forall|a: int, b: int|
        0 <= a < b < all.len() && same_claim(#[trigger] all[a], #[trigger] all[b]) ==> !ranks(
            all[a],
            all[i],
        )
}

/// The message for a resource that is declared twice.
pub open spec fn twice_message(a: Claim, b: Claim) -> Seq<char> {
    "Resource "@ + id_of(a) + " is declared twice, as "@ + a.source + " and "@ + b.source
}

/// Whether resources stand in their order, each of them once.
pub open spec fn in_order(s: Seq<Claim>) -> bool {
    forall|i: int, j: int| 0 <= i < j < s.len() ==> ranks(#[trigger] s[i], #[trigger] s[j])
}

/// Whether `r` holds the resources of `all`, and no others.
pub open spec fn same_claims(all: Seq<Claim>, r: Seq<Claim>) -> bool {
    &&& all.len() == r.len()
    &&& forall|c: Claim| all.contains(c) <==> r.contains(c)
}

/// Split the path of a declaration into the type and the name of the resource.
fn split_id(key: &str) -> (r: Option<(String, String)>)
    ensures
        split(key@) == (match r {
            Some((kind, name)) => Some((kind@, name@)),
            None => None,
        }),
{
    let names = path::parts(key);
    if names.len() < 2 {
        return None;
    }
    let rest = path::spell(&names, 1);
    assert(path::names(key@)[0] == names@[0]@);
    Some((names[0].clone(), var::strip_extension(rest.as_str())))
}

proof fn lemma_declared_stops(entries: Seq<(String, String)>, i: int)
    requires
        0 <= i <= entries.len(),
        declared_by(entries.take(i)) is Err,
    ensures
        declared_by(entries) == declared_by(entries.take(i)),
    decreases entries.len() - i,
{
    if i == entries.len() {
        assert(entries.take(i) =~= entries);
    } else {
        assert(entries.take(i + 1).drop_last() =~= entries.take(i));
        lemma_declared_stops(entries, i + 1);
    }
}

/// The resources that files declare, in the order of the files.
fn read_declared(entries: &Vec<(String, String)>) -> (r: Result<Vec<Resource>, String>)
    ensures
        declared_by(entries@) == (match r {
            Ok(all) => Ok(claims(all@)),
            Err(e) => Err(e@),
        }),
{
    let mut all: Vec<Resource> = Vec::new();
    let mut i: usize = 0;
    assert(claims(all@) =~= Seq::empty());
    while i < entries.len()
        invariant
            i <= entries@.len(),
            declared_by(entries@.take(i as int)) == Ok::<Seq<Claim>, Seq<char>>(claims(all@)),
        decreases entries@.len() - i,
    {
        proof {
            assert(entries@.take(i + 1).drop_last() =~= entries@.take(i as int));
            if declared_by(entries@.take(i + 1)) is Err {
                lemma_declared_stops(entries@, i + 1);
            }
        }
        let key = entries[i].0.as_str();
        let source = entries[i].1.as_str();
        if !key.is_empty() {
            match split_id(key) {
                Some((kind, name)) => {
                    let ghost was = claims(all@);
                    let one = Resource::new(kind.as_str(), name.as_str(), source);
                    let ghost claim = one@;
                    all.push(one);
                    assert(claims(all@) =~= was.push(claim));
                },
                None => {
                    let mut e = "Resource ".to_owned();
                    e.append(source);
                    e.append(
                        " is directly in the resources tree, and the first directory of the tree is the type of the resource",
                    );
                    return Err(e);
                },
            }
        }
        i += 1;
    }
    assert(entries@.take(i as int) =~= entries@);
    Ok(all)
}

proof fn lemma_no_earlier(all: Seq<Claim>, r: Seq<Claim>, p: int, q: int, s: int)
    requires
        0 <= q < s < r.len(),
        0 <= p < r.len(),
        same_claim(r[q], r[s]),
        forall|a: int, b: int| 0 <= a < b < r.len() ==> !ranks(#[trigger] r[b], #[trigger] r[a]),
        forall|a: int| 0 <= a < p ==> !same_claim(#[trigger] r[a], r[a + 1]),
    ensures
        p <= q,
{
    if q < p {
        let n = q + 1;
        if n < s {
            assert(!ranks(r[n], r[q]));
            assert(!ranks(r[s], r[n]));
            if ranks(r[q], r[n]) {
                lemma_ranks_asymmetric(r[q], r[n]);
                assert(ranks(r[s], r[n]));
            }
            lemma_ranks_total(r[q], r[n]);
        }
        assert(same_claim(r[q], r[q + 1]));
    }
}

proof fn lemma_twice(all: Seq<Resource>, r: Seq<Resource>, p: int)
    requires
        order::arranged(all, r),
        0 <= p < r.len() - 1,
        same_claim(r[p]@, r[p + 1]@),
        forall|a: int| 0 <= a < p ==> !same_claim((#[trigger] r[a])@, r[a + 1]@),
    ensures
        exists|i: int, j: int| #[trigger]
            twice(claims(all), i, j) && claims(all)[i] == r[p]@ && claims(all)[j] == r[p + 1]@,
{
    let (from, to) = choose|from: Seq<int>, to: Seq<int>| order::shuffles(all, r, from, to);
    let m = claims(all);
    let c = claims(r);
    let i = from[p];
    let j = from[p + 1];
    assert(m[i] == c[p] && m[j] == c[p + 1]);
    lemma_ranks_same(c[p], c[p + 1]);
    assert(i < j);
    assert forall|a: int, b: int| 0 <= a < b < c.len() implies !ranks(
        #[trigger] c[b],
        #[trigger] c[a],
    ) by {
        assert(from[a] != from[b]);
        assert(!r[b].precedes(r[a]));
    }
    assert forall|a: int| 0 <= a < p implies !same_claim(#[trigger] c[a], c[a + 1]) by {
        assert(c[a] == r[a]@);
        assert(c[a + 1] == r[a + 1]@);
    }
    assert forall|k: int| 0 <= k < j && k != i implies !same_claim(#[trigger] m[k], m[i]) by {
        let q = to[k];
        assert(from[q] == k);
        assert(m[k] == c[q]);
        if same_claim(m[k], m[i]) {
            if q < p {
                lemma_no_earlier(m, c, p, q, p);
            } else if q > p + 1 {
                lemma_ranks_same(c[p + 1], c[q]);
                assert(from[p + 1] < from[q]);
            }
        }
    }
    assert forall|a: int, b: int|
        0 <= a < b < m.len() && same_claim(#[trigger] m[a], #[trigger] m[b]) implies !ranks(
        m[a],
        m[i],
    ) by {
        let x = to[a];
        let y = to[b];
        assert(from[x] == a && from[y] == b);
        assert(m[a] == c[x] && m[b] == c[y]);
        if x < y {
            lemma_no_earlier(m, c, p, x, y);
        } else {
            lemma_no_earlier(m, c, p, y, x);
        }
        if x != p && y != p {
            if x < y {
                assert(!ranks(c[x], c[p]));
            } else {
                assert(!ranks(c[y], c[p]));
            }
        } else {
            lemma_ranks_same(m[a], m[i]);
        }
    }
    assert(twice(m, i, j));
}

proof fn lemma_ranks_same(a: Claim, b: Claim)
    requires
        same_claim(a, b),
    ensures
        !ranks(a, b),
        !ranks(b, a),
{
    text::lemma_before_irreflexive(a.kind);
    text::lemma_before_irreflexive(a.name);
}

proof fn lemma_none_twice(all: Seq<Resource>, r: Seq<Resource>)
    requires
        order::arranged(all, r),
        forall|a: int| 0 <= a < r.len() - 1 ==> !same_claim((#[trigger] r[a])@, r[a + 1]@),
    ensures
        in_order(claims(r)),
        same_claims(claims(all), claims(r)),
{
    let (from, to) = choose|from: Seq<int>, to: Seq<int>| order::shuffles(all, r, from, to);
    let m = claims(all);
    let c = claims(r);
    assert forall|a: int, b: int| 0 <= a < b < c.len() implies !ranks(
        #[trigger] c[b],
        #[trigger] c[a],
    ) by {
        assert(from[a] != from[b]);
        assert(!r[b].precedes(r[a]));
    }
    assert forall|a: int| 0 <= a < c.len() - 1 implies !same_claim(#[trigger] c[a], c[a + 1]) by {
        assert(c[a] == r[a]@);
        assert(c[a + 1] == r[a + 1]@);
    }
    assert forall|a: int, b: int| 0 <= a < b < c.len() implies ranks(#[trigger] c[a], #[trigger] c[b]) by {
        if same_claim(c[a], c[b]) {
            lemma_no_earlier(m, c, c.len() - 1, a, b);
        } else if !ranks(c[a], c[b]) {
            lemma_ranks_total(c[a], c[b]);
        }
    }
    assert forall|x: Claim| m.contains(x) <==> c.contains(x) by {
        if m.contains(x) {
            let i = choose|i: int| 0 <= i < m.len() && m[i] == x;
            assert(from[to[i]] == i);
            assert(c[to[i]] == x);
        }
        if c.contains(x) {
            let p = choose|p: int| 0 <= p < c.len() && c[p] == x;
            assert(m[from[p]] == x);
        }
    }
}

/// Resources declared in the system, ordered by type and then by name.
pub struct Resources {
    resources: Vec<Resource>,
}

impl View for Resources {
    type V = Seq<Claim>;

    closed spec fn view(&self) -> Seq<Claim> {
        claims(self.resources@)
    }
}

/// The first resource with an address.
pub open spec fn first_addressed(all: Seq<Claim>, id: Seq<char>) -> Option<Claim>
    decreases all.len(),
{
    if all.len() == 0 {
        None
    } else if id_of(all[0]) == id {
        Some(all[0])
    } else {
        first_addressed(all.drop_first(), id)
    }
}

/// The resource that an address finds: the one that has it, and otherwise the one
/// that has it without the ending of a file.
pub open spec fn addressed(all: Seq<Claim>, id: Seq<char>) -> Option<Claim> {
    match first_addressed(all, id) {
        Some(c) => Some(c),
        None => first_addressed(all, var::stem(id)),
    }
}

/// A resource is found by the address that it has.
pub proof fn law_a_resource_is_found_by_its_address(
    entries: Seq<(String, String)>,
    all: Seq<Claim>,
    i: int,
)
    requires
        declared_by(entries) is Ok,
        same_claims(declared_by(entries)->Ok_0, all),
        in_order(all),
        0 <= i < all.len(),
    ensures
        addressed(all, id_of(all[i])) == Some(all[i]),
{
    lemma_kinds_plain(entries);
    assert forall|a: int| 0 <= a < all.len() implies !(#[trigger] all[a]).kind.contains('/') by {
        assert(all.contains(all[a]));
        let made = declared_by(entries)->Ok_0;
        let k = choose|k: int| 0 <= k < made.len() && made[k] == all[a];
        assert(!made[k].kind.contains('/'));
    }
    lemma_first_addressed(all, i);
}

proof fn lemma_kinds_plain(entries: Seq<(String, String)>)
    requires
        declared_by(entries) is Ok,
    ensures
        forall|a: int|
            0 <= a < declared_by(entries)->Ok_0.len() ==> !(#[trigger] declared_by(
                entries,
            )->Ok_0[a]).kind.contains('/'),
    decreases entries.len(),
{
    if entries.len() > 0 {
        lemma_kinds_plain(entries.drop_last());
        path::lemma_names_plain(entries.last().0@);
    }
}

proof fn lemma_first_addressed(all: Seq<Claim>, i: int)
    requires
        forall|a: int| 0 <= a < all.len() ==> !(#[trigger] all[a]).kind.contains('/'),
        in_order(all),
        0 <= i < all.len(),
    ensures
        first_addressed(all, id_of(all[i])) == Some(all[i]),
    decreases i,
{
    if i > 0 {
        let rest = all.drop_first();
        assert(ranks(all[0], all[i]));
        if id_of(all[0]) == id_of(all[i]) {
            lemma_id_says_both(all[0], all[i]);
            lemma_ranks_same(all[0], all[i]);
        }
        assert forall|a: int, b: int| 0 <= a < b < rest.len() implies ranks(
            #[trigger] rest[a],
            #[trigger] rest[b],
        ) by {
            assert(rest[a] == all[a + 1] && rest[b] == all[b + 1]);
        }
        assert forall|a: int| 0 <= a < rest.len() implies !(#[trigger] rest[a]).kind.contains('/') by {
            assert(rest[a] == all[a + 1]);
        }
        assert(rest[i - 1] == all[i]);
        lemma_first_addressed(rest, i - 1);
    }
}

proof fn lemma_id_says_both(a: Claim, b: Claim)
    requires
        !a.kind.contains('/'),
        !b.kind.contains('/'),
        id_of(a) == id_of(b),
    ensures
        same_claim(a, b),
{
    reveal_strlit("/");
    let n = a.kind.len() as int;
    let m = b.kind.len() as int;
    assert(id_of(a)[n] == '/');
    assert(id_of(b)[m] == '/');
    if n < m {
        assert(id_of(b)[n] == b.kind[n]);
    }
    if m < n {
        assert(id_of(a)[m] == a.kind[m]);
    }
    assert(a.kind =~= id_of(a).take(n));
    assert(b.kind =~= id_of(b).take(m));
    assert(a.name =~= id_of(a).skip(n + 1));
    assert(b.name =~= id_of(b).skip(m + 1));
}

impl Resources {
    /// The resources that the files of the resources tree declare.
    pub fn from_system(entries: &Vec<(String, String)>) -> (r: Result<Self, String>)
        ensures
            match declared_by(entries@) {
                Err(e) => r is Err && r->Err_0@ == e,
                Ok(all) => match r {
                    Ok(resources) => in_order(resources@) && same_claims(all, resources@),
                    Err(e) => exists|i: int, j: int| #[trigger]
                        twice(all, i, j) && e@ == twice_message(all[i], all[j]),
                },
            },
    {
        let all = match read_declared(entries) {
            Ok(all) => all,
            Err(e) => {
                return Err(e);
            },
        };
        let ghost given = all@;
        let resources = order::arrange(all);
        let n: usize = resources.len();
        let mut p: usize = 0;
        while n > 0 && p < n - 1
            invariant
                n == resources@.len(),
                p <= n,
                order::arranged(given, resources@),
                declared_by(entries@) == Ok::<Seq<Claim>, Seq<char>>(claims(given)),
                forall|a: int|
                    0 <= a < p && a < n - 1 ==> !same_claim(
                        (#[trigger] resources@[a])@,
                        resources@[a + 1]@,
                    ),
            decreases n - p,
        {
            let one = &resources[p];
            let next = &resources[p + 1];
            if text::equal(one.kind(), next.kind()) && text::equal(one.name(), next.name()) {
                let mut e = "Resource ".to_owned();
                e.append(one.id().as_str());
                e.append(" is declared twice, as ");
                e.append(one.source());
                e.append(" and ");
                e.append(next.source());
                proof {
                    lemma_twice(given, resources@, p as int);
                    assert(e@ == twice_message(one@, next@));
                    assert(declared_by(entries@)->Ok_0 == claims(given));
                    let (i, j) = choose|i: int, j: int| #[trigger]
                        twice(claims(given), i, j) && claims(given)[i] == one@ && claims(given)[j]
                            == next@;
                    assert(twice(claims(given), i, j));
                    assert(claims(given)[i] == one@);
                }
                return Err(e);
            }
            p += 1;
        }
        proof {
            lemma_none_twice(given, resources@);
        }
        Ok(Resources { resources })
    }

    /// The resources, ordered by type and name.
    pub fn resources(&self) -> (r: &Vec<Resource>)
        ensures
            claims(r@) == self@,
    {
        &self.resources
    }

    /// The first resource whose address is `id`.
    fn first(&self, id: &str) -> (r: Option<&Resource>)
        ensures
            first_addressed(self@, id@) == (match r {
                Some(c) => Some(c@),
                None => None,
            }),
    {
        let mut i: usize = 0;
        assert(self@.skip(0) =~= self@);
        while i < self.resources.len()
            invariant
                i <= self.resources@.len(),
                self@ == claims(self.resources@),
                first_addressed(self@, id@) == first_addressed(self@.skip(i as int), id@),
            decreases self.resources@.len() - i,
        {
            proof {
                assert(self@.skip(i as int)[0] == self.resources@[i as int]@);
                assert(self@.skip(i as int).drop_first() =~= self@.skip(i + 1));
            }
            if text::equal(self.resources[i].id().as_str(), id) {
                return Some(&self.resources[i]);
            }
            i += 1;
        }
        None
    }

    /// Find a resource by the `<type>/<name>` that addresses it.  The extension
    /// is optional, as it is not part of the name.
    pub fn find(&self, id: &str) -> (r: Result<&Resource, String>)
        ensures
            match r {
                Ok(c) => addressed(self@, id@) == Some(c@),
                Err(e) => {
                    &&& addressed(self@, id@) is None
                    &&& e@ == "There is no resource "@ + var::stem(id@)
                        + ", use `detc list --type resource`"@
                },
            },
    {
        if let Some(one) = self.first(id) {
            return Ok(one);
        }
        let wanted = var::strip_extension(id);
        match self.first(wanted.as_str()) {
            Some(one) => Ok(one),
            None => {
                let mut e = "There is no resource ".to_owned();
                e.append(wanted.as_str());
                e.append(", use `detc list --type resource`");
                Err(e)
            },
        }
    }
}

/// A declaration says its order under `_order` and what it requires under
/// `_requires`; everything else that it says is the state that is desired.
pub proof fn law_a_declaration_is_its_state_and_two_keys(
    id: Seq<char>,
    m: Map<Seq<char>, Json>,
    k: Seq<char>,
)
    requires
        declaration_in(id, Json::Object(m)) is Ok,
    ensures
        ({
            let intent = declaration_in(id, Json::Object(m))->Ok_0;
            &&& !intent.state.dom().contains("_order"@)
            &&& !intent.state.dom().contains("_requires"@)
            &&& k != "_order"@ && k != "_requires"@ ==> (intent.state.dom().contains(k)
                <==> m.dom().contains(k))
            &&& k != "_order"@ && k != "_requires"@ && m.dom().contains(k) ==> intent.state[k] == m[k]
            &&& intent.order is Some <==> m.dom().contains("_order"@) && !(m["_order"@] is Null)
            &&& intent.order matches Some(n) ==> {
                &&& n >= 0 ==> m["_order"@] == Json::Number(value::Figure::Natural(n as u64))
                    || m["_order"@] == Json::Number(value::Figure::Negative(n))
                &&& n < 0 ==> m["_order"@] == Json::Number(value::Figure::Negative(n))
            }
            &&& intent.requires.len() > 0 ==> m.dom().contains("_requires"@)
                && m["_requires"@] is Array
            &&& m.dom().contains("_requires"@) && m["_requires"@] is Array ==> intent.requires.len()
                == m["_requires"@]->Array_0.len()
            &&& forall|i: int|
                #![trigger intent.requires[i]]
                #![trigger m["_requires"@]->Array_0[i]]
                0 <= i < intent.requires.len() ==> m["_requires"@]->Array_0[i] is Text
                    && intent.requires[i] == text::trim(m["_requires"@]->Array_0[i]->Text_0)
                    && intent.requires[i].len() > 0
        }),
{
    if m.dom().contains("_requires"@) && m["_requires"@] is Array {
        lemma_requirements(id, m["_requires"@]->Array_0);
    }
}

proof fn lemma_requirements(id: Seq<char>, list: Seq<Json>)
    ensures
        requirements_of(id, list) matches Ok(named) ==> named.len() == list.len() && forall|i: int|
            #![trigger list[i]]
            #![trigger named[i]]
            0 <= i < named.len() ==> list[i] is Text && named[i] == text::trim(list[i]->Text_0)
                && named[i].len() > 0,
        (forall|i: int|
            0 <= i < list.len() ==> (#[trigger] list[i]) is Text && text::trim(
                list[i]->Text_0,
            ).len() > 0) ==> requirements_of(id, list) is Ok,
    decreases list.len(),
{
    if list.len() > 0 {
        let less = list.drop_last();
        lemma_requirements(id, less);
        assert(forall|i: int| 0 <= i < less.len() ==> #[trigger] less[i] == list[i]);
        assert(list[list.len() - 1] == list.last());
        if requirements_of(id, list) is Ok {
            let named = requirements_of(id, list)->Ok_0;
            let before = requirements_of(id, less)->Ok_0;
            assert(named =~= before.push(text::trim(list.last()->Text_0)));
            assert(named.len() == list.len());
            assert forall|i: int|
                #![trigger list[i]]
                #![trigger named[i]]
                0 <= i < named.len() implies list[i] is Text && named[i] == text::trim(
                list[i]->Text_0,
            ) && named[i].len() > 0 by {
                if i < before.len() {
                    assert(named[i] == before[i]);
                    assert(less[i] == list[i]);
                }
            }
        }
    }
}

/// A declaration is refused when it is no object, when its order is no whole
/// number, and when it requires anything but a list of addresses; every other
/// declaration is taken.
pub proof fn law_a_declaration_is_refused_for_its_two_keys(id: Seq<char>, j: Json)
    ensures
        !(j is Object) ==> declaration_in(id, j) is Err,
        j is Object && j->Object_0.dom().contains("_order"@) && (j->Object_0["_order"@] is Text
            || j->Object_0["_order"@] is Bool || j->Object_0["_order"@] is Array
            || j->Object_0["_order"@] is Object) ==> declaration_in(id, j) is Err,
        j is Object && j->Object_0.dom().contains("_requires"@) && (j->Object_0["_requires"@] is Text
            || j->Object_0["_requires"@] is Bool || j->Object_0["_requires"@] is Number
            || j->Object_0["_requires"@] is Object) ==> declaration_in(id, j) is Err,
        j is Object && !j->Object_0.dom().contains("_order"@) && !j->Object_0.dom().contains(
            "_requires"@,
        ) ==> declaration_in(id, j) is Ok,
        j is Object && !j->Object_0.dom().contains("_order"@) && j->Object_0.dom().contains(
            "_requires"@,
        ) && j->Object_0["_requires"@] is Array && (forall|i: int|
            0 <= i < j->Object_0["_requires"@]->Array_0.len() ==> (
            #[trigger] j->Object_0["_requires"@]->Array_0[i]) is Text && text::trim(
                j->Object_0["_requires"@]->Array_0[i]->Text_0,
            ).len() > 0) ==> declaration_in(id, j) is Ok,
{
    if j is Object && j->Object_0.dom().contains("_requires"@)
        && j->Object_0["_requires"@] is Array {
        lemma_requirements(id, j->Object_0["_requires"@]->Array_0);
    }
}

/// A declaration that says nothing desires nothing, and is there all the same.
pub proof fn law_an_empty_declaration_desires_nothing(
    id: Seq<char>,
    body: Seq<char>,
    read: Result<Json, Seq<char>>,
)
    ensures
        text::trim(body).len() == 0 ==> (declared(id, body, read) matches Ok(intent) && {
            &&& intent.state.dom() == Set::<Seq<char>>::empty()
            &&& intent.order is None
            &&& intent.requires.len() == 0
        }),
        text::trim(body).len() > 0 && read is Err ==> declared(id, body, read) is Err,
        text::trim(body).len() > 0 && read is Ok ==> declared(id, body, read) == declaration_in(
            id,
            read->Ok_0,
        ),
{
    if text::trim(body).len() == 0 {
        assert(declared(id, body, read)->Ok_0.state.dom() =~= Set::<Seq<char>>::empty());
    }
}

/// The order that a declaration says goes before that of its type.
pub proof fn law_a_declaration_may_say_its_order(shape: provider::Shape, intent: Intent)
    ensures
        intent.order matches Some(n) ==> order_for(shape, intent) == n,
        intent.order is None && shape.order is Some ==> order_for(shape, intent) == shape.order->0,
        intent.order is None && shape.order is None ==> order_for(shape, intent) == 50,
{
}

/// The first directory that a declaration lies in is its type, and the rest of
/// its path, without the format, is its name.
pub proof fn law_a_declaration_lies_below_its_type(kind: Seq<char>, name: Seq<char>)
    requires
        kind.len() > 0,
        !kind.contains('/'),
        kind != seq!['.'],
        path::is_plain(name),
    ensures
        split(kind + seq!['/'] + name) == Some((kind, var::stem(name))),
        split(kind) is None,
        id_of(Claim { kind, name, source: Seq::empty() }) == kind + "/"@ + name,
{
    text::lemma_split_whole(kind, '/');
    path::lemma_plain(kind);
    path::lemma_plain(name);
    text::lemma_split_some(name, '/');
    assert(text::split(name, '/')[0] != seq!['.']);
    path::lemma_names_joined(kind, name);
    let all = path::names(kind + seq!['/'] + name);
    assert(all =~= seq![kind] + path::names(name));
    assert(all.skip(1) =~= path::names(name));
}

/// The resources are what the files declare, one each and in the order of the
/// files; the main file declares none.
pub proof fn law_every_file_declares_one(entries: Seq<(String, String)>, more: (String, String))
    requires
        declared_by(entries) is Ok,
    ensures
        more.0@.len() == 0 ==> declared_by(entries.push(more)) == declared_by(entries),
        more.0@.len() > 0 && split(more.0@) is None ==> declared_by(entries.push(more)) is Err,
        more.0@.len() > 0 && split(more.0@) is Some ==> (declared_by(entries.push(more)) matches Ok(
            all,
        ) && all.len() == declared_by(entries)->Ok_0.len() + 1 && all.drop_last() == declared_by(
            entries,
        )->Ok_0 && all.last().kind == (split(more.0@)->0).0 && all.last().name == (split(
            more.0@,
        )->0).1 && all.last().source == more.1@),
{
    assert(entries.push(more).drop_last() =~= entries);
    if more.0@.len() > 0 && split(more.0@) is Some {
        assert(declared_by(entries.push(more))->Ok_0.drop_last() =~= declared_by(entries)->Ok_0);
    }
}

/// Resources come by their type, and then by their name.
pub proof fn law_resources_come_by_type_and_name(a: Claim, b: Claim)
    ensures
        text::before(a.kind, b.kind) ==> ranks(a, b),
        a.kind == b.kind && text::before(a.name, b.name) ==> ranks(a, b),
        ranks(a, b) ==> !ranks(b, a),
        ranks(a, b) || ranks(b, a) || (a.kind == b.kind && a.name == b.name),
        same_claim(a, b) <==> a.kind == b.kind && a.name == b.name,
{
    text::lemma_before_irreflexive(a.kind);
    text::lemma_before_irreflexive(a.name);
    if text::before(a.kind, b.kind) {
        text::lemma_before_asymmetric(a.kind, b.kind);
        text::lemma_before_irreflexive(b.kind);
    }
    if text::before(b.kind, a.kind) {
        text::lemma_before_asymmetric(b.kind, a.kind);
    }
    if text::before(a.name, b.name) {
        text::lemma_before_asymmetric(a.name, b.name);
    }
    if a.kind != b.kind {
        text::lemma_before_total(a.kind, b.kind);
    } else if a.name != b.name {
        text::lemma_before_total(a.name, b.name);
    }
}

/// A desired state is what its type makes of what was declared, and a
/// declaration that its type refuses has none.
pub proof fn law_a_desired_state_is_a_valid_one(
    id: Seq<char>,
    properties: Map<Seq<char>, provider::Trait>,
    intent: Intent,
)
    ensures
        desired_of(id, properties, Ok(intent)) is Ok <==> provider::validated(
            properties,
            intent.state,
        ) is Ok,
        desired_of(id, properties, Ok(intent)) matches Ok(state) ==> provider::validated(
            properties,
            intent.state,
        ) == Ok::<Map<Seq<char>, Json>, Seq<char>>(state),
{
}

/// An order may be any whole number that fits, below zero too, and what is
/// required may be null.
pub proof fn law_an_order_may_be_any_whole_number(
    id: Seq<char>,
    m: Map<Seq<char>, Json>,
    n: u64,
    s: i64,
)
    requires
        m.dom().contains("_order"@),
        m.dom().contains("_requires"@) ==> m["_requires"@] is Null,
    ensures
        m["_order"@] == Json::Number(value::Figure::Natural(n)) && n <= 0x7fff_ffff_ffff_ffff ==> (
        declaration_in(id, Json::Object(m)) matches Ok(intent) && intent.order == Some(n as i64)
            && intent.requires.len() == 0),
        m["_order"@] == Json::Number(value::Figure::Negative(s)) ==> (declaration_in(
            id,
            Json::Object(m),
        ) matches Ok(intent) && intent.order == Some(s)),
        m["_order"@] is Null ==> (declaration_in(id, Json::Object(m)) matches Ok(intent)
            && intent.order is None),
        m["_order"@] == Json::Number(value::Figure::Natural(n)) && n > 0x7fff_ffff_ffff_ffff
            ==> declaration_in(id, Json::Object(m)) is Err,
        m["_order"@] is Number && m["_order"@]->Number_0 is Fraction ==> declaration_in(
            id,
            Json::Object(m),
        ) is Err,
{
}

/// What a declaration expands to is read as a document, with the namespace that
/// it is given.
pub proof fn law_a_declaration_is_expanded_first(c: Claim, content: Seq<char>, context: Json)
    ensures
        template::expanded(c.source, content, context) matches Ok(body) ==> {
            &&& expansion_of(c, Ok(content), context) == Ok::<Seq<char>, Seq<char>>(body)
            &&& declaration_of(c, Ok(content), context) == declared(
                c.kind + "/"@ + c.name,
                body,
                var::document_in(body),
            )
        },
        template::expanded(c.source, content, context) is Err ==> declaration_of(
            c,
            Ok(content),
            context,
        ) is Err,
        forall|e: Seq<char>| (#[trigger] declaration_of(c, Err(e), context)) is Err,
{
}

} // verus!
