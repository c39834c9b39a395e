//! The objects of a system: how they are listed, how a name addresses one, and
//! what there is to show and to check of them.

use vstd::prelude::*;

use crate::apply;
use crate::apply::Requirement;
use crate::doc;
use crate::path;
use crate::provider;
use crate::provider::{said, said_again, Providers, Schema};
use crate::record::{all_kinds, kind_name, sayings, Record, Saying, Type};
use crate::resource;
use crate::resource::{Claim, Resource, Resources};
use crate::template;
use crate::template::{Sheet, Template, Templates};
use crate::text;
use crate::value::{Datum, Json};
use crate::var;
use crate::var::{Document, Documents, Read, Variables, Writing};

verus! {

/// The objects of a system, each type of them as it was found or as the reason
/// that it could not be.  A probe is the mount point that it feeds and the
/// program that it is.
pub struct System {
    pub root: String,
    pub probes: Result<Vec<(String, String)>, String>,
    pub templates: Result<Templates, String>,
    pub resources: Result<Resources, String>,
    pub providers: Result<Providers, String>,
    pub documents: Result<Documents, String>,
}

/// What a verb has to say, and how it ended.
pub struct Told {
    pub records: Vec<Record>,
    pub end: Result<(), String>,
}

/// What a verb has to say and how it ended, as plain values.
pub struct Speech {
    pub said: Seq<Saying>,
    pub end: Result<(), Seq<char>>,
}

impl View for Told {
    type V = Speech;

    open spec fn view(&self) -> Speech {
        Speech { said: sayings(self.records@), end: var::outcome(self.end) }
    }
}

/// The record of an object.
pub open spec fn object(kind: Type, name: Seq<char>, source: Seq<char>) -> Saying {
    Saying::Object { kind, name, source }
}

/// The records of probes.
pub open spec fn probe_objects(s: Seq<(String, String)>) -> Seq<Saying> {
    Seq::new(s.len(), |i: int| object(Type::Probe, s[i].0@, s[i].1@))
}

/// The records of templates, by the files that they instantiate.
pub open spec fn template_objects(s: Seq<Sheet>) -> Seq<Saying> {
    Seq::new(s.len(), |i: int| object(Type::Template, s[i].target, s[i].source))
}

/// The records of resources.
pub open spec fn resource_objects(s: Seq<Claim>) -> Seq<Saying> {
    Seq::new(s.len(), |i: int| object(Type::Resource, resource::id_of(s[i]), s[i].source))
}

/// Providers in the order of the types that they implement.
pub open spec fn in_order(m: Map<Seq<char>, provider::Program>) -> Seq<provider::Program> {
    let names = text::listing(m.dom());
    Seq::new(names.len(), |i: int| m[names[i]])
}

/// The records of providers.
pub open spec fn provider_objects(s: Seq<provider::Program>) -> Seq<Saying> {
    Seq::new(s.len(), |i: int| object(Type::Provider, s[i].kind, s[i].path))
}

/// The records of documents of variables.
pub open spec fn variable_objects(s: Seq<Writing>) -> Seq<Saying> {
    Seq::new(s.len(), |i: int| object(Type::Variable, var::address(s[i]), s[i].source))
}

/// The records of the objects of one type.
pub open spec fn section(system: System, kind: Type) -> Result<Seq<Saying>, Seq<char>> {
    match kind {
        Type::Probe => match system.probes {
            Ok(s) => Ok(probe_objects(s@)),
            Err(e) => Err(e@),
        },
        Type::Template => match system.templates {
            Ok(t) => Ok(template_objects(t@.templates)),
            Err(e) => Err(e@),
        },
        Type::Resource => match system.resources {
            Ok(s) => Ok(resource_objects(s@)),
            Err(e) => Err(e@),
        },
        Type::Provider => match system.providers {
            Ok(m) => Ok(provider_objects(in_order(m@))),
            Err(e) => Err(e@),
        },
        Type::Variable => match system.documents {
            Ok(s) => Ok(variable_objects(s@)),
            Err(e) => Err(e@),
        },
    }
}

/// The records of the objects of types, up to the first type that could not be
/// looked at.
pub open spec fn sections(system: System, kinds: Seq<Type>) -> Speech
    decreases kinds.len(),
{
    if kinds.len() == 0 {
        Speech { said: Seq::empty(), end: Ok(()) }
    } else {
        let before = sections(system, kinds.drop_last());
        match before.end {
            Err(_) => before,
            Ok(_) => match section(system, kinds.last()) {
                Err(e) => Speech { said: before.said, end: Err(e) },
                Ok(more) => Speech { said: before.said + more, end: Ok(()) },
            },
        }
    }
}

/// The types that are asked about: the one that was named, or all of them.
pub open spec fn asked(kind: Option<Type>) -> Seq<Type> {
    match kind {
        Some(kind) => seq![kind],
        None => all_kinds(),
    }
}

/// What listing the objects of a system says.
pub open spec fn listed(system: System, types: bool, kind: Option<Type>) -> Speech {
    if types {
        Speech { said: all_kinds().map_values(|k: Type| Saying::Type(k)), end: Ok(()) }
    } else {
        sections(system, asked(kind))
    }
}

proof fn lemma_sections_stop(system: System, kinds: Seq<Type>, i: int)
    requires
        0 <= i <= kinds.len(),
        sections(system, kinds.take(i)).end is Err,
    ensures
        sections(system, kinds) == sections(system, kinds.take(i)),
    decreases kinds.len() - i,
{
    if i == kinds.len() {
        assert(kinds.take(i) =~= kinds);
    } else {
        assert(kinds.take(i + 1).drop_last() =~= kinds.take(i));
        lemma_sections_stop(system, kinds, i + 1);
    }
}

/// The types that are asked about.
fn asked_kinds(kind: Option<Type>) -> (r: Vec<Type>)
    ensures
        r@ == asked(kind),
{
    match kind {
        None => Type::all(),
        Some(kind) => {
            let mut r: Vec<Type> = Vec::new();
            r.push(kind);
            assert(r@ =~= seq![kind]);
            r
        },
    }
}

/// Add the record of an object.
fn add_object(records: &mut Vec<Record>, kind: Type, name: &str, source: &str)
    ensures
        sayings(final(records)@) == sayings(old(records)@).push(object(kind, name@, source@)),
{
    let ghost had = sayings(records@);
    let record = Record::Object { kind, name: name.to_owned(), source: source.to_owned() };
    records.push(record);
    assert(sayings(records@) =~= had.push(record@));
}

/// Add the records of probes.
fn add_probes(records: &mut Vec<Record>, probes: &Vec<(String, String)>)
    ensures
        sayings(final(records)@) == sayings(old(records)@) + probe_objects(probes@),
{
    let ghost had = sayings(records@);
    let ghost all = probe_objects(probes@);
    let n: usize = probes.len();
    let mut i: usize = 0;
    assert(had + all.take(0) =~= had);
    while i < n
        invariant
            i <= n == probes@.len(),
            all == probe_objects(probes@),
            sayings(records@) == had + all.take(i as int),
        decreases n - i,
    {
        add_object(records, Type::Probe, probes[i].0.as_str(), probes[i].1.as_str());
        assert((had + all.take(i as int)).push(all[i as int]) =~= had + all.take(i + 1));
        i += 1;
    }
    assert(all.take(i as int) =~= all);
}

/// Add the records of templates.
fn add_templates(records: &mut Vec<Record>, templates: &Templates)
    ensures
        sayings(final(records)@) == sayings(old(records)@) + template_objects(templates@.templates),
{
    let ghost had = sayings(records@);
    let ghost all = template_objects(templates@.templates);
    let list = templates.templates();
    let n: usize = list.len();
    let mut i: usize = 0;
    assert(had + all.take(0) =~= had);
    while i < n
        invariant
            i <= n == list@.len(),
            template::sheets(list@) == templates@.templates,
            all == template_objects(templates@.templates),
            sayings(records@) == had + all.take(i as int),
        decreases n - i,
    {
        assert(templates@.templates[i as int] == list@[i as int]@);
        add_object(records, Type::Template, list[i].target(), list[i].source());
        assert((had + all.take(i as int)).push(all[i as int]) =~= had + all.take(i + 1));
        i += 1;
    }
    assert(all.take(i as int) =~= all);
}

/// Add the records of resources.
fn add_resources(records: &mut Vec<Record>, resources: &Resources)
    ensures
        sayings(final(records)@) == sayings(old(records)@) + resource_objects(resources@),
{
    let ghost had = sayings(records@);
    let ghost all = resource_objects(resources@);
    let list = resources.resources();
    let n: usize = list.len();
    let mut i: usize = 0;
    assert(had + all.take(0) =~= had);
    while i < n
        invariant
            i <= n == list@.len(),
            resource::claims(list@) == resources@,
            all == resource_objects(resources@),
            sayings(records@) == had + all.take(i as int),
        decreases n - i,
    {
        assert(resources@[i as int] == list@[i as int]@);
        add_object(records, Type::Resource, list[i].id().as_str(), list[i].source());
        assert((had + all.take(i as int)).push(all[i as int]) =~= had + all.take(i + 1));
        i += 1;
    }
    assert(all.take(i as int) =~= all);
}

/// Add the records of providers.
fn add_providers(records: &mut Vec<Record>, providers: &Providers)
    ensures
        sayings(final(records)@) == sayings(old(records)@) + provider_objects(in_order(providers@)),
{
    let ghost had = sayings(records@);
    let ghost all = provider_objects(in_order(providers@));
    let list = providers.providers();
    let n: usize = list.len();
    let mut i: usize = 0;
    assert(had + all.take(0) =~= had);
    while i < n
        invariant
            i <= n == list@.len(),
            n == text::listing(providers@.dom()).len(),
            forall|j: int|
                0 <= j < list@.len() ==> (#[trigger] list@[j])@ == in_order(providers@)[j],
            all == provider_objects(in_order(providers@)),
            sayings(records@) == had + all.take(i as int),
        decreases n - i,
    {
        assert(in_order(providers@)[i as int] == list@[i as int]@);
        add_object(records, Type::Provider, list[i].kind(), list[i].path());
        assert((had + all.take(i as int)).push(all[i as int]) =~= had + all.take(i + 1));
        i += 1;
    }
    assert(all.take(i as int) =~= all);
}

/// Add the records of documents of variables.
fn add_documents(records: &mut Vec<Record>, documents: &Documents)
    ensures
        sayings(final(records)@) == sayings(old(records)@) + variable_objects(documents@),
{
    let ghost had = sayings(records@);
    let ghost all = variable_objects(documents@);
    let list = documents.documents();
    let n: usize = list.len();
    let mut i: usize = 0;
    assert(had + all.take(0) =~= had);
    while i < n
        invariant
            i <= n == list@.len(),
            var::writings(list@) == documents@,
            all == variable_objects(documents@),
            sayings(records@) == had + all.take(i as int),
        decreases n - i,
    {
        assert(documents@[i as int] == list@[i as int]@);
        add_object(records, Type::Variable, list[i].id().as_str(), list[i].source());
        assert((had + all.take(i as int)).push(all[i as int]) =~= had + all.take(i + 1));
        i += 1;
    }
    assert(all.take(i as int) =~= all);
}

/// Add the records of the objects of one type.
fn add_section(records: &mut Vec<Record>, system: &System, kind: Type) -> (r: Result<(), String>)
    ensures
        match section(*system, kind) {
            Ok(more) => r is Ok && sayings(final(records)@) == sayings(old(records)@) + more,
            Err(e) => r is Err && r->Err_0@ == e && final(records)@ == old(records)@,
        },
{
    match kind {
        Type::Probe => match &system.probes {
            Ok(probes) => {
                add_probes(records, probes);
                Ok(())
            },
            Err(e) => Err(e.clone()),
        },
        Type::Template => match &system.templates {
            Ok(templates) => {
                add_templates(records, templates);
                Ok(())
            },
            Err(e) => Err(e.clone()),
        },
        Type::Resource => match &system.resources {
            Ok(resources) => {
                add_resources(records, resources);
                Ok(())
            },
            Err(e) => Err(e.clone()),
        },
        Type::Provider => match &system.providers {
            Ok(providers) => {
                add_providers(records, providers);
                Ok(())
            },
            Err(e) => Err(e.clone()),
        },
        Type::Variable => match &system.documents {
            Ok(documents) => {
                add_documents(records, documents);
                Ok(())
            },
            Err(e) => Err(e.clone()),
        },
    }
}

/// List the objects of the system, as the type of the object, the name that
/// addresses it, and where it comes from; or the types that there are.
pub fn list(system: &System, types: bool, kind: Option<Type>) -> (r: Told)
    ensures
        r@ == listed(*system, types, kind),
{
    let mut records: Vec<Record> = Vec::new();
    assert(sayings(records@) =~= Seq::empty());
    if types {
        let all = Type::all();
        let ghost want = all_kinds().map_values(|k: Type| Saying::Type(k));
        let n: usize = all.len();
        let mut i: usize = 0;
        assert(want.take(0) =~= Seq::empty());
        while i < n
            invariant
                i <= n == all@.len(),
                all@ == all_kinds(),
                want == all_kinds().map_values(|k: Type| Saying::Type(k)),
                sayings(records@) == want.take(i as int),
            decreases n - i,
        {
            let ghost had = sayings(records@);
            let record = Record::Type(all[i]);
            records.push(record);
            assert(sayings(records@) =~= had.push(record@));
            assert(had.push(record@) =~= want.take(i + 1));
            i += 1;
        }
        assert(want.take(i as int) =~= want);
        return Told { records, end: Ok(()) };
    }
    let kinds = asked_kinds(kind);
    let ghost all = kinds@;
    let n: usize = kinds.len();
    let mut i: usize = 0;
    while i < n
        invariant
            i <= n == kinds@.len(),
            all == kinds@,
            all == asked(kind),
            !types,
            sections(*system, all.take(i as int)) == (Speech {
                said: sayings(records@),
                end: Ok(()),
            }),
        decreases n - i,
    {
        proof {
            assert(all.take(i + 1).drop_last() =~= all.take(i as int));
            assert(all.take(i + 1).last() == kinds@[i as int]);
        }
        match add_section(&mut records, system, kinds[i]) {
            Ok(_) => {},
            Err(e) => {
                proof {
                    lemma_sections_stop(*system, all, i + 1);
                }
                return Told { records, end: Err(e) };
            },
        }
        i += 1;
    }
    assert(all.take(i as int) =~= all);
    Told { records, end: Ok(()) }
}

/// The first of items that something holds of.
pub open spec fn first_that<A>(s: Seq<A>, holds: spec_fn(A) -> bool) -> Option<A>
    decreases s.len(),
{
    if s.len() == 0 {
        None
    } else {
        match first_that(s.drop_last(), holds) {
            Some(a) => Some(a),
            None => if holds(s.last()) {
                Some(s.last())
            } else {
                None
            },
        }
    }
}

proof fn lemma_first_none<A>(s: Seq<A>, holds: spec_fn(A) -> bool)
    requires
        forall|i: int| 0 <= i < s.len() ==> !holds(#[trigger] s[i]),
    ensures
        first_that(s, holds) is None,
    decreases s.len(),
{
    if s.len() > 0 {
        let less = s.drop_last();
        assert forall|i: int| 0 <= i < less.len() implies !holds(#[trigger] less[i]) by {
            assert(less[i] == s[i]);
        }
        lemma_first_none(less, holds);
        assert(!holds(s[s.len() - 1]));
    }
}

proof fn lemma_first_some<A>(s: Seq<A>, holds: spec_fn(A) -> bool, i: int)
    requires
        0 <= i < s.len(),
        holds(s[i]),
        forall|j: int| 0 <= j < i ==> !holds(#[trigger] s[j]),
    ensures
        first_that(s, holds) == Some(s[i]),
    decreases s.len(),
{
    let less = s.drop_last();
    if i < s.len() - 1 {
        assert forall|j: int| 0 <= j < i implies !holds(#[trigger] less[j]) by {
            assert(less[j] == s[j]);
        }
        lemma_first_some(less, holds, i);
    } else {
        assert forall|j: int| 0 <= j < less.len() implies !holds(#[trigger] less[j]) by {
            assert(less[j] == s[j]);
        }
        lemma_first_none(less, holds);
    }
}

/// Whether a name addresses a program: it is what `detc list` prints for it, or
/// the path of the program, which can be abbreviated to a tail of itself.
pub open spec fn names_program(
    root: Seq<char>,
    name: Seq<char>,
    label: Seq<char>,
    program: Seq<char>,
) -> bool {
    ||| label == name
    ||| path::ends_in(program, name)
    ||| path::same_route(program, template::rooted(root, name))
}

/// The programs of the probes that a name addresses.
pub open spec fn matched(root: Seq<char>, name: Seq<char>, probes: Seq<(String, String)>) -> Seq<
    Seq<char>,
>
    decreases probes.len(),
{
    if probes.len() == 0 {
        Seq::empty()
    } else {
        let before = matched(root, name, probes.drop_last());
        if names_program(root, name, probes.last().0@, probes.last().1@) {
            before.push(probes.last().1@)
        } else {
            before
        }
    }
}

/// The probe that a name addresses, if there is one.  A name that addresses more
/// than one is an error, reported with what it matched.
pub open spec fn probe_for(system: System, name: Seq<char>) -> Result<Option<Seq<char>>, Seq<char>> {
    match system.probes {
        Err(e) => Err(e@),
        Ok(probes) => {
            let found = matched(system.root@, name, probes@);
            if found.len() == 0 {
                Ok(None)
            } else if found.len() == 1 {
                Ok(Some(found[0]))
            } else {
                Err(
                    name + " addresses "@ + text::decimal(found.len())
                        + " probes, so it does not say which one: "@ + text::join(found, ", "@),
                )
            }
        },
    }
}

/// Something that was looked for.
pub open spec fn sought(r: Result<Option<String>, String>) -> Result<Option<Seq<char>>, Seq<char>> {
    match r {
        Ok(t) => Ok(text::text_of(t)),
        Err(e) => Err(e@),
    }
}

/// Whether a name addresses a program.
fn is_named(root: &str, name: &str, label: &str, program: &str) -> (r: bool)
    ensures
        r == names_program(root@, name@, label@, program@),
{
    let below = match path::strip(name, "/") {
        Some(rest) => rest,
        None => name.to_owned(),
    };
    let there = path::join(root, below.as_str());
    text::equal(label, name) || path::ends(program, name) || path::same(program, there.as_str())
}

/// Get the probe that a name addresses among the ones that the system has
/// installed, if there is one.
///
/// Either of the two names that `detc list` prints for a probe addresses it: the
/// mount point that it feeds, or the path of the program.  A mount point is a
/// directory and can hold several probes, so a name that matches more than one
/// is an error.
pub fn get_probe(system: &System, name: &str) -> (r: Result<Option<String>, String>)
    ensures
        sought(r) == probe_for(*system, name@),
{
    let probes = match &system.probes {
        Ok(probes) => probes,
        Err(e) => {
            return Err(e.clone());
        },
    };
    let ghost all = probes@;
    let mut found: Vec<String> = Vec::new();
    let n: usize = probes.len();
    let mut i: usize = 0;
    assert(text::texts(found@) =~= Seq::empty());
    while i < n
        invariant
            i <= n == probes@.len(),
            all == probes@,
            text::texts(found@) == matched(system.root@, name@, all.take(i as int)),
        decreases n - i,
    {
        proof {
            assert(all.take(i + 1).drop_last() =~= all.take(i as int));
            assert(all.take(i + 1).last() == probes@[i as int]);
        }
        if is_named(system.root.as_str(), name, probes[i].0.as_str(), probes[i].1.as_str()) {
            let ghost had = text::texts(found@);
            found.push(probes[i].1.clone());
            assert(text::texts(found@) =~= had.push(probes@[i as int].1@));
        }
        i += 1;
    }
    assert(all.take(i as int) =~= all);
    assert(text::texts(found@).len() == found@.len());
    let count: usize = found.len();
    if count == 0 {
        Ok(None)
    } else if count == 1 {
        assert(text::texts(found@)[0] == found@[0]@);
        Ok(Some(found[0].clone()))
    } else {
        let mut e = name.to_owned();
        e.append(" addresses ");
        e.append(text::decimal_of(count as u64).as_str());
        e.append(" probes, so it does not say which one: ");
        e.append(text::joined(&found, ", ").as_str());
        Err(e)
    }
}

/// The probe that a name addresses: a file that is not installed as one, which is
/// how a probe is tried before it is shipped, or one of the system.
pub open spec fn probe_at(system: System, name: Seq<char>, is_file: bool) -> Result<
    Seq<char>,
    Seq<char>,
> {
    if is_file {
        Ok(name)
    } else {
        match probe_for(system, name) {
            Err(e) => Err(e),
            Ok(Some(found)) => Ok(found),
            Ok(None) => Err("There is no probe "@ + name + ", use `detc list --type probe`"@),
        }
    }
}

/// Resolve a probe, that can be one of the system, or a file that is not
/// installed as one.
pub fn resolve_probe(system: &System, name: &str, is_file: bool) -> (r: Result<String, String>)
    ensures
        said(r) == probe_at(*system, name@, is_file),
{
    if is_file {
        return Ok(name.to_owned());
    }
    match get_probe(system, name) {
        Err(e) => Err(e),
        Ok(Some(found)) => Ok(found),
        Ok(None) => {
            let mut e = "There is no probe ".to_owned();
            e.append(name);
            e.append(", use `detc list --type probe`");
            Err(e)
        },
    }
}

/// Whether a name addresses a provider.
pub open spec fn names_provider(root: Seq<char>, name: Seq<char>) -> spec_fn(
    provider::Program,
) -> bool {
    |p: provider::Program| names_program(root, name, p.kind, p.path)
}

/// The provider that a name addresses, if there is one.
pub open spec fn provider_for(system: System, name: Seq<char>) -> Result<
    Option<Seq<char>>,
    Seq<char>,
> {
    match system.providers {
        Err(e) => Err(e@),
        Ok(m) => match first_that(in_order(m@), names_provider(system.root@, name)) {
            Some(p) => Ok(Some(p.path)),
            None => Ok(None),
        },
    }
}

/// Get the program of the provider that a name addresses, if the system has one.
///
/// Either of the two names that `detc list` prints addresses it: the type of
/// resource that the provider implements, or the path of the program.
pub fn get_provider(system: &System, name: &str) -> (r: Result<Option<String>, String>)
    ensures
        sought(r) == provider_for(*system, name@),
{
    let providers = match &system.providers {
        Ok(providers) => providers,
        Err(e) => {
            return Err(e.clone());
        },
    };
    let list = providers.providers();
    let ghost all = in_order(providers@);
    let ghost holds = names_provider(system.root@, name@);
    let n: usize = list.len();
    let mut i: usize = 0;
    while i < n
        invariant
            i <= n == list@.len(),
            n == all.len(),
            system.providers matches Ok(m) && m@ == providers@,
            all == in_order(providers@),
            holds == names_provider(system.root@, name@),
            forall|j: int| 0 <= j < list@.len() ==> (#[trigger] list@[j])@ == all[j],
            forall|j: int| 0 <= j < i ==> !holds(#[trigger] all[j]),
        decreases n - i,
    {
        assert(list@[i as int]@ == all[i as int]);
        if is_named(system.root.as_str(), name, list[i].kind(), list[i].path()) {
            proof {
                lemma_first_some(all, holds, i as int);
            }
            return Ok(Some(list[i].path().to_owned()));
        }
        i += 1;
    }
    proof {
        lemma_first_none(all, holds);
    }
    Ok(None)
}

/// The provider that a name addresses: one of the system, or a file that is not
/// installed as one.
pub open spec fn provider_at(system: System, name: Seq<char>, is_file: bool) -> Result<
    Seq<char>,
    Seq<char>,
> {
    match provider_for(system, name) {
        Err(e) => Err(e),
        Ok(Some(found)) => Ok(found),
        Ok(None) => if is_file {
            Ok(name)
        } else {
            Err("There is no provider "@ + name + ", use `detc list --type provider`"@)
        },
    }
}

/// Resolve a provider, that can be one of the system, or a file that is not
/// installed as one.
pub fn resolve_provider(system: &System, name: &str, is_file: bool) -> (r: Result<String, String>)
    ensures
        said(r) == provider_at(*system, name@, is_file),
{
    match get_provider(system, name) {
        Err(e) => Err(e),
        Ok(Some(found)) => Ok(found),
        Ok(None) => {
            if is_file {
                return Ok(name.to_owned());
            }
            let mut e = "There is no provider ".to_owned();
            e.append(name);
            e.append(", use `detc list --type provider`");
            Err(e)
        },
    }
}

/// One object of the system, resolved from the name that addressed it.
///
/// A template and a resource are documents that the namespace expands; a probe
/// and a provider are programs, and what there is to show of one is the program
/// itself.  A variable document is what the namespace is made of, so nothing
/// expands it.
pub enum Object<'a> {
    Template(&'a Template),
    Resource(&'a Resource),
    Probe(String),
    Provider(String),
    Variable(&'a Document),
}

/// One object of the system, as plain values.
pub enum Aim {
    Template(Sheet),
    Resource(Claim),
    Probe(Seq<char>),
    Provider(Seq<char>),
    Variable(Writing),
}

impl<'a> View for Object<'a> {
    type V = Aim;

    open spec fn view(&self) -> Aim {
        match *self {
            Object::Template(t) => Aim::Template(t@),
            Object::Resource(r) => Aim::Resource(r@),
            Object::Probe(p) => Aim::Probe(p@),
            Object::Provider(p) => Aim::Provider(p@),
            Object::Variable(d) => Aim::Variable(d@),
        }
    }
}

/// An object that was resolved.
pub open spec fn aimed(r: Result<Object, String>) -> Result<Aim, Seq<char>> {
    match r {
        Ok(o) => Ok(o@),
        Err(e) => Err(e@),
    }
}

/// Whether a template instantiates a file.
pub open spec fn writes_file(root: Seq<char>, name: Seq<char>) -> spec_fn(Sheet) -> bool {
    |s: Sheet| template::instantiates(root, s, name)
}

/// The template that a name addresses, if there is one.
pub open spec fn template_for(system: System, name: Seq<char>) -> Result<Option<Sheet>, Seq<char>> {
    match system.templates {
        Err(e) => Err(e@),
        Ok(t) => Ok(first_that(t@.templates, writes_file(t@.root, name))),
    }
}

/// The resource that a name addresses, if there is one.
pub open spec fn resource_for(system: System, name: Seq<char>) -> Result<Option<Claim>, Seq<char>> {
    match system.resources {
        Err(e) => Err(e@),
        Ok(s) => Ok(resource::addressed(s@, name)),
    }
}

/// The document of variables that a name addresses, if there is one.
pub open spec fn document_for(system: System, name: Seq<char>) -> Result<Option<Writing>, Seq<char>> {
    match system.documents {
        Err(e) => Err(e@),
        Ok(s) => Ok(var::addressed(s@, name)),
    }
}

/// The object of a type that a name addresses.  The type answers for itself, so a
/// name that it does not have is reported by it, in its own words.
pub open spec fn typed_object(system: System, name: Seq<char>, kind: Type, is_file: bool) -> Result<
    Aim,
    Seq<char>,
> {
    match kind {
        Type::Probe => match probe_at(system, name, is_file) {
            Ok(p) => Ok(Aim::Probe(p)),
            Err(e) => Err(e),
        },
        Type::Provider => match provider_at(system, name, is_file) {
            Ok(p) => Ok(Aim::Provider(p)),
            Err(e) => Err(e),
        },
        Type::Template => match template_for(system, name) {
            Err(e) => Err(e),
            Ok(Some(t)) => Ok(Aim::Template(t)),
            Ok(None) => Err("There is no template for "@ + name),
        },
        Type::Resource => match resource_for(system, name) {
            Err(e) => Err(e),
            Ok(Some(c)) => Ok(Aim::Resource(c)),
            Ok(None) => Err(
                "There is no resource "@ + var::stem(name) + ", use `detc list --type resource`"@,
            ),
        },
        Type::Variable => match document_for(system, name) {
            Err(e) => Err(e),
            Ok(Some(w)) => Ok(Aim::Variable(w)),
            Ok(None) => Err(
                "There is no variable document "@ + var::stem(name)
                    + ", use `detc list --type variable`"@,
            ),
        },
    }
}

/// The object that a name addresses when no type was named: every type is looked
/// in, in the order that `--types` prints them, and the first that has the name
/// is taken.  Only the programs that the system has installed are looked at.
pub open spec fn guessed_object(system: System, name: Seq<char>) -> Result<Aim, Seq<char>> {
    match probe_for(system, name) {
        Err(e) => Err(e),
        Ok(Some(p)) => Ok(Aim::Probe(p)),
        Ok(None) => match template_for(system, name) {
            Err(e) => Err(e),
            Ok(Some(t)) => Ok(Aim::Template(t)),
            Ok(None) => match resource_for(system, name) {
                Err(e) => Err(e),
                Ok(Some(c)) => Ok(Aim::Resource(c)),
                Ok(None) => match provider_for(system, name) {
                    Err(e) => Err(e),
                    Ok(Some(p)) => Ok(Aim::Provider(p)),
                    Ok(None) => match document_for(system, name) {
                        Err(e) => Err(e),
                        Ok(Some(w)) => Ok(Aim::Variable(w)),
                        Ok(None) => Err(
                            "There is no template, resource, probe, provider or variable document for "@
                                + name
                                + "; `detc list` shows the objects of the system, and --type says which of them to look in"@,
                        ),
                    },
                },
            },
        },
    }
}

/// The object that a name addresses, of the type that was named or of whichever
/// type has it.
pub open spec fn resolved(
    system: System,
    name: Seq<char>,
    kind: Option<Type>,
    is_file: bool,
) -> Result<Aim, Seq<char>> {
    match kind {
        Some(kind) => typed_object(system, name, kind, is_file),
        None => guessed_object(system, name),
    }
}

/// The template that a name addresses, if there is one.
fn get_template<'a>(system: &'a System, name: &str) -> (r: Result<Option<&'a Template>, String>)
    ensures
        template_for(*system, name@) == (match r {
            Ok(Some(t)) => Ok(Some(t@)),
            Ok(None) => Ok(None),
            Err(e) => Err(e@),
        }),
{
    match &system.templates {
        Err(e) => Err(e.clone()),
        Ok(templates) => {
            let r = templates.get(name);
            proof {
                let all = templates@.templates;
                let holds = writes_file(templates@.root, name@);
                match r {
                    Some(t) => {
                        let i = choose|i: int|
                            template::answers(templates@.root, all, name@, i) && #[trigger] all[i]
                                == t@;
                        lemma_first_some(all, holds, i);
                    },
                    None => {
                        lemma_first_none(all, holds);
                    },
                }
            }
            Ok(r)
        },
    }
}

/// The resource that a name addresses, if there is one.
fn get_resource<'a>(system: &'a System, name: &str) -> (r: Result<Option<&'a Resource>, String>)
    ensures
        resource_for(*system, name@) == (match r {
            Ok(Some(c)) => Ok(Some(c@)),
            Ok(None) => Ok(None),
            Err(e) => Err(e@),
        }),
{
    match &system.resources {
        Err(e) => Err(e.clone()),
        Ok(resources) => match resources.find(name) {
            Ok(c) => Ok(Some(c)),
            Err(_) => Ok(None),
        },
    }
}

/// The document of variables that a name addresses, if there is one.
fn get_document<'a>(system: &'a System, name: &str) -> (r: Result<Option<&'a Document>, String>)
    ensures
        document_for(*system, name@) == (match r {
            Ok(Some(d)) => Ok(Some(d@)),
            Ok(None) => Ok(None),
            Err(e) => Err(e@),
        }),
{
    match &system.documents {
        Err(e) => Err(e.clone()),
        Ok(documents) => Ok(documents.get(name)),
    }
}

/// Resolve an object of the type that was named.
pub fn resolve_typed_object<'a>(system: &'a System, name: &str, kind: Type, is_file: bool) -> (r:
    Result<Object<'a>, String>)
    ensures
        aimed(r) == typed_object(*system, name@, kind, is_file),
{
    match kind {
        Type::Probe => match resolve_probe(system, name, is_file) {
            Ok(p) => Ok(Object::Probe(p)),
            Err(e) => Err(e),
        },
        Type::Provider => match resolve_provider(system, name, is_file) {
            Ok(p) => Ok(Object::Provider(p)),
            Err(e) => Err(e),
        },
        Type::Template => match get_template(system, name) {
            Err(e) => Err(e),
            Ok(Some(t)) => Ok(Object::Template(t)),
            Ok(None) => {
                let mut e = "There is no template for ".to_owned();
                e.append(name);
                Err(e)
            },
        },
        Type::Resource => match get_resource(system, name) {
            Err(e) => Err(e),
            Ok(Some(c)) => Ok(Object::Resource(c)),
            Ok(None) => {
                let mut e = "There is no resource ".to_owned();
                e.append(var::strip_extension(name).as_str());
                e.append(", use `detc list --type resource`");
                Err(e)
            },
        },
        Type::Variable => match get_document(system, name) {
            Err(e) => Err(e),
            Ok(Some(d)) => Ok(Object::Variable(d)),
            Ok(None) => {
                let mut e = "There is no variable document ".to_owned();
                e.append(var::strip_extension(name).as_str());
                e.append(", use `detc list --type variable`");
                Err(e)
            },
        },
    }
}

/// Resolve an object when no type was named, by looking in every type in the
/// order that `--types` prints them, and taking the first that has the name.
pub fn guess_object<'a>(system: &'a System, name: &str) -> (r: Result<Object<'a>, String>)
    ensures
        aimed(r) == guessed_object(*system, name@),
{
    match get_probe(system, name) {
        Err(e) => {
            return Err(e);
        },
        Ok(Some(p)) => {
            return Ok(Object::Probe(p));
        },
        Ok(None) => {},
    }
    match get_template(system, name) {
        Err(e) => {
            return Err(e);
        },
        Ok(Some(t)) => {
            return Ok(Object::Template(t));
        },
        Ok(None) => {},
    }
    match get_resource(system, name) {
        Err(e) => {
            return Err(e);
        },
        Ok(Some(c)) => {
            return Ok(Object::Resource(c));
        },
        Ok(None) => {},
    }
    match get_provider(system, name) {
        Err(e) => {
            return Err(e);
        },
        Ok(Some(p)) => {
            return Ok(Object::Provider(p));
        },
        Ok(None) => {},
    }
    match get_document(system, name) {
        Err(e) => {
            return Err(e);
        },
        Ok(Some(d)) => {
            return Ok(Object::Variable(d));
        },
        Ok(None) => {},
    }
    let mut e = "There is no template, resource, probe, provider or variable document for ".to_owned();
    e.append(name);
    e.append(
        "; `detc list` shows the objects of the system, and --type says which of them to look in",
    );
    Err(e)
}

/// Resolve the object that a name addresses, of the type that was named or of
/// whichever type has it.
pub fn resolve_object<'a>(system: &'a System, name: &str, kind: Option<Type>, is_file: bool) -> (r:
    Result<Object<'a>, String>)
    ensures
        aimed(r) == resolved(*system, name@, kind, is_file),
{
    match kind {
        Some(kind) => resolve_typed_object(system, name, kind, is_file),
        None => guess_object(system, name),
    }
}

/// The file that an object was read from.
pub open spec fn source_of(object: Aim) -> Seq<char> {
    match object {
        Aim::Template(t) => t.source,
        Aim::Resource(c) => c.source,
        Aim::Probe(p) => p,
        Aim::Provider(p) => p,
        Aim::Variable(w) => w.source,
    }
}

/// Objects, as plain values.
pub open spec fn aims(s: Seq<Object>) -> Seq<Aim> {
    Seq::new(s.len(), |i: int| s[i]@)
}

/// Objects, or why there are none.
pub open spec fn selected(r: Result<Vec<Object>, String>) -> Result<Seq<Aim>, Seq<char>> {
    match r {
        Ok(s) => Ok(aims(s@)),
        Err(e) => Err(e@),
    }
}

/// Every object of a type.
pub open spec fn every(system: System, kind: Type) -> Result<Seq<Aim>, Seq<char>> {
    match kind {
        Type::Probe => match system.probes {
            Err(e) => Err(e@),
            Ok(s) => Ok(Seq::new(s@.len(), |i: int| Aim::Probe(s@[i].1@))),
        },
        Type::Template => match system.templates {
            Err(e) => Err(e@),
            Ok(t) => Ok(Seq::new(t@.templates.len(), |i: int| Aim::Template(t@.templates[i]))),
        },
        Type::Resource => match system.resources {
            Err(e) => Err(e@),
            Ok(s) => Ok(Seq::new(s@.len(), |i: int| Aim::Resource(s@[i]))),
        },
        Type::Provider => match system.providers {
            Err(e) => Err(e@),
            Ok(s) => {
                let kinds = text::listing(s@.dom());
                Ok(Seq::new(kinds.len(), |i: int| Aim::Provider(s@[kinds[i]].path)))
            },
        },
        Type::Variable => match system.documents {
            Err(e) => Err(e@),
            Ok(s) => Ok(Seq::new(s@.len(), |i: int| Aim::Variable(s@[i]))),
        },
    }
}

/// The objects of a type that a check or a run looks at: the one that was named, or
/// all of them.  A provider is what the others are made of and is not named, so all
/// of them are looked at whatever was.
pub open spec fn selection(
    system: System,
    kind: Type,
    name: Option<Seq<char>>,
    is_file: bool,
) -> Result<Seq<Aim>, Seq<char>> {
    match name {
        None => every(system, kind),
        Some(name) => if kind == Type::Provider {
            every(system, kind)
        } else {
            match typed_object(system, name, kind, is_file) {
                Ok(aim) => Ok(seq![aim]),
                Err(e) => Err(e),
            }
        },
    }
}

/// Every object of a type.
fn all_of<'a>(system: &'a System, kind: Type) -> (r: Result<Vec<Object<'a>>, String>)
    ensures
        selected(r) == every(*system, kind),
{
    let mut r: Vec<Object<'a>> = Vec::new();
    let mut i: usize = 0;
    match kind {
        Type::Probe => match &system.probes {
            Err(e) => {
                return Err(e.clone());
            },
            Ok(s) => {
                let n: usize = s.len();
                while i < n
                    invariant
                        i <= n == s@.len(),
                        r@.len() == i,
                        forall|j: int| 0 <= j < i ==> (#[trigger] r@[j])@ == Aim::Probe(s@[j].1@),
                    decreases n - i,
                {
                    r.push(Object::Probe(s[i].1.clone()));
                    i += 1;
                }
            },
        },
        Type::Template => match &system.templates {
            Err(e) => {
                return Err(e.clone());
            },
            Ok(t) => {
                let s = t.templates();
                let n: usize = s.len();
                while i < n
                    invariant
                        i <= n == s@.len(),
                        template::sheets(s@) == t@.templates,
                        r@.len() == i,
                        forall|j: int|
                            0 <= j < i ==> (#[trigger] r@[j])@ == Aim::Template(t@.templates[j]),
                    decreases n - i,
                {
                    assert(t@.templates[i as int] == s@[i as int]@);
                    r.push(Object::Template(&s[i]));
                    i += 1;
                }
            },
        },
        Type::Resource => match &system.resources {
            Err(e) => {
                return Err(e.clone());
            },
            Ok(t) => {
                let s = t.resources();
                let n: usize = s.len();
                while i < n
                    invariant
                        i <= n == s@.len(),
                        resource::claims(s@) == t@,
                        r@.len() == i,
                        forall|j: int| 0 <= j < i ==> (#[trigger] r@[j])@ == Aim::Resource(t@[j]),
                    decreases n - i,
                {
                    assert(t@[i as int] == s@[i as int]@);
                    r.push(Object::Resource(&s[i]));
                    i += 1;
                }
            },
        },
        Type::Provider => match &system.providers {
            Err(e) => {
                return Err(e.clone());
            },
            Ok(t) => {
                let s = t.providers();
                let ghost kinds = text::listing(t@.dom());
                let n: usize = s.len();
                while i < n
                    invariant
                        i <= n == s@.len(),
                        s@.len() == kinds.len(),
                        forall|j: int| 0 <= j < s@.len() ==> (#[trigger] s@[j])@ == t@[kinds[j]],
                        r@.len() == i,
                        forall|j: int|
                            0 <= j < i ==> (#[trigger] r@[j])@ == Aim::Provider(t@[kinds[j]].path),
                    decreases n - i,
                {
                    r.push(Object::Provider(s[i].path().to_owned()));
                    i += 1;
                }
            },
        },
        Type::Variable => match &system.documents {
            Err(e) => {
                return Err(e.clone());
            },
            Ok(t) => {
                let s = t.documents();
                let n: usize = s.len();
                while i < n
                    invariant
                        i <= n == s@.len(),
                        var::writings(s@) == t@,
                        r@.len() == i,
                        forall|j: int| 0 <= j < i ==> (#[trigger] r@[j])@ == Aim::Variable(t@[j]),
                    decreases n - i,
                {
                    assert(t@[i as int] == s@[i as int]@);
                    r.push(Object::Variable(&s[i]));
                    i += 1;
                }
            },
        },
    }
    assert(aims(r@) =~= every(*system, kind)->Ok_0);
    Ok(r)
}

/// The objects of a type that a check or a run looks at.
pub fn select<'a>(system: &'a System, kind: Type, name: Option<&str>, is_file: bool) -> (r: Result<
    Vec<Object<'a>>,
    String,
>)
    ensures
        selected(r) == selection(
            *system,
            kind,
            match name {
                Some(name) => Some(name@),
                None => None,
            },
            is_file,
        ),
{
    let name = match name {
        None => {
            return all_of(system, kind);
        },
        Some(name) => name,
    };
    if let Type::Provider = kind {
        return all_of(system, kind);
    }
    match resolve_typed_object(system, name, kind, is_file) {
        Err(e) => Err(e),
        Ok(one) => {
            let ghost aim = one@;
            let mut r: Vec<Object<'a>> = Vec::new();
            r.push(one);
            assert(aims(r@) =~= seq![aim]);
            Ok(r)
        },
    }
}

/// The file that an object was read from, which is where its documentation is.
pub fn source<'a>(object: &'a Object) -> (r: &'a str)
    ensures
        r@ == source_of(object@),
{
    match object {
        Object::Template(t) => t.source(),
        Object::Resource(c) => c.source(),
        Object::Probe(p) => p.as_str(),
        Object::Provider(p) => p.as_str(),
        Object::Variable(d) => d.source(),
    }
}

/// A line set off as an example: four spaces, and nothing on a blank line so that
/// no line ends in whitespace.
pub open spec fn set_off(line: Seq<char>) -> Seq<char> {
    if line.len() == 0 {
        "\n"@
    } else {
        "    "@ + line + "\n"@
    }
}

/// Lines set off as an example.
pub open spec fn block(lines: Seq<Seq<char>>) -> Seq<char>
    decreases lines.len(),
{
    if lines.len() == 0 {
        Seq::empty()
    } else {
        block(lines.drop_last()) + set_off(lines.last())
    }
}

/// Set a block off as an example, the way the headers themselves set one off.
///
/// Going through the lines also settles the ending, so a provider that writes a
/// schema without a final newline does not run into whatever follows it.
pub fn indent(t: &str) -> (r: String)
    ensures
        r@ == block(text::lines(t@)),
{
    let lines = text::lines_of(t);
    let ghost all = text::lines(t@);
    let mut r = String::new();
    assert(r@ =~= Seq::empty());
    let n: usize = lines.len();
    let mut i: usize = 0;
    while i < n
        invariant
            i <= n == lines@.len(),
            text::texts(lines@) == all,
            r@ == block(all.take(i as int)),
        decreases n - i,
    {
        let ghost had = r@;
        proof {
            assert(all.take(i + 1).drop_last() =~= all.take(i as int));
            assert(all.take(i + 1).last() == lines@[i as int]@);
        }
        if lines[i].as_str().is_empty() {
            assert(lines@[i as int]@.len() == 0);
            r.append("\n");
        } else {
            r.append("    ");
            r.append(lines[i].as_str());
            r.append("\n");
            assert(r@ =~= had + set_off(lines@[i as int]@));
        }
        i += 1;
    }
    assert(all.take(i as int) =~= all);
    r
}

/// What describes an object: what is written at the head of the file it was read
/// from, and for a provider the schema that it publishes, or why it does not.
pub open spec fn described(
    object: Aim,
    content: Result<Vec<u8>, String>,
    schema: Result<Seq<char>, Seq<char>>,
) -> Result<Seq<char>, Seq<char>> {
    match doc::documented(source_of(object), content) {
        Err(e) => Err(e),
        Ok(t) => if object is Provider {
            Ok(
                t + "\n## Schema\n\n"@ + match schema {
                    Ok(schema) => block(text::lines(schema)),
                    Err(e) => "The provider does not say: "@ + e + "\n"@,
                },
            )
        } else {
            Ok(t)
        },
    }
}

/// Describe an object for a person, from what is written at the head of the file
/// it was read from.
///
/// A provider is the one object whose documentation is not all prose.  What a
/// resource of its type may declare is the schema, and a person reading about the
/// type wants the two together.  A provider that cannot answer is still a provider
/// with something written at the head of it.
pub fn describe(
    object: &Object,
    content: Result<Vec<u8>, String>,
    schema: &Result<String, String>,
) -> (r: Result<String, String>)
    ensures
        said(r) == described(object@, content, said(*schema)),
{
    let mut t = match doc::header(source(object), content) {
        Ok(t) => t,
        Err(e) => {
            return Err(e);
        },
    };
    if let Object::Provider(_) = object {
        let ghost head = t@;
        t.append("\n## Schema\n\n");
        match schema {
            Ok(schema) => {
                t.append(indent(schema.as_str()).as_str());
            },
            Err(e) => {
                let mut m = "The provider does not say: ".to_owned();
                m.append(e.as_str());
                m.append("\n");
                t.append(m.as_str());
            },
        }
    }
    Ok(t)
}

/// The text of a program.
pub open spec fn program_text(
    file: Seq<char>,
    kind: Seq<char>,
    content: Result<Vec<u8>, String>,
) -> Result<Seq<char>, Seq<char>> {
    match content {
        Err(e) => Err("Cannot read "@ + kind + " "@ + file + ": "@ + e@),
        Ok(bytes) => match text::decoded(bytes@) {
            Some(t) => Ok(t),
            None => Err(
                "The "@ + kind + " "@ + file
                    + " is a compiled program and not a script, so there is nothing to show"@,
            ),
        },
    }
}

/// Read the program that a probe or a provider is.
///
/// A compiled program says that it is one, instead of writing bytes that are not
/// text to a terminal.
pub fn program(file: &str, kind: &str, content: Result<Vec<u8>, String>) -> (r: Result<String, String>)
    ensures
        said(r) == program_text(file@, kind@, content),
{
    match content {
        Err(e) => {
            let mut m = "Cannot read ".to_owned();
            m.append(kind);
            m.append(" ");
            m.append(file);
            m.append(": ");
            m.append(e.as_str());
            Err(m)
        },
        Ok(bytes) => match text::from_utf8(bytes) {
            Ok(t) => Ok(t),
            Err(_) => {
                let mut m = "The ".to_owned();
                m.append(kind);
                m.append(" ");
                m.append(file);
                m.append(" is a compiled program and not a script, so there is nothing to show");
                Err(m)
            },
        },
    }
}

/// The text of an object before anything is expanded, or with the namespace
/// expanded in it.
pub open spec fn shown(
    object: Aim,
    raw: bool,
    read: Result<Seq<char>, Seq<char>>,
    content: Result<Vec<u8>, String>,
    context: Result<Json, Seq<char>>,
) -> Result<Seq<char>, Seq<char>> {
    match object {
        Aim::Template(t) => if raw {
            template::content_of("template"@, t.source, read)
        } else {
            match context {
                Err(e) => Err(e),
                Ok(context) => template::instance(t, read, context),
            }
        },
        Aim::Resource(c) => if raw {
            template::content_of("resource"@, c.source, read)
        } else {
            match context {
                Err(e) => Err(e),
                Ok(context) => resource::expansion_of(c, read, context),
            }
        },
        Aim::Probe(p) => program_text(p, "probe"@, content),
        Aim::Provider(p) => program_text(p, "provider"@, content),
        Aim::Variable(w) => template::content_of("variable document"@, w.source, read),
    }
}

/// The namespace that a preview renders against: the one the system has, with an
/// empty map of configuration files.
pub open spec fn previewed(var: Result<Json, Seq<char>>) -> Result<Json, Seq<char>> {
    match var {
        Err(e) => Err(e),
        Ok(j) => apply::published_in(j, Map::empty()),
    }
}

/// The namespace that a preview renders against.
pub fn preview(var: Result<Variables, String>) -> (r: Result<Variables, String>)
    ensures
        apply::namespace(r) == previewed(apply::namespace(var)),
{
    match var {
        Ok(var) => apply::unplanned(&var),
        Err(e) => Err(e),
    }
}

/// Show what an object of the system holds: the content that a template would
/// write, the state that a resource declares, or the program that a probe or a
/// provider is.
///
/// `raw` shows a template or a declaration as it was written, before the variables
/// of the namespace reach it.  A program and a variable document are never
/// expanded.
pub fn cat(
    object: &Object,
    raw: bool,
    read: Read,
    content: Result<Vec<u8>, String>,
    context: &Result<Variables, String>,
) -> (r: Result<String, String>)
    ensures
        said(r) == shown(object@, raw, said(read), content, apply::namespace(*context)),
{
    match object {
        Object::Template(t) => if raw {
            t.content(read)
        } else {
            match context {
                Err(e) => Err(e.clone()),
                Ok(var) => t.render(read, var.value()),
            }
        },
        Object::Resource(c) => if raw {
            c.content(read)
        } else {
            match context {
                Err(e) => Err(e.clone()),
                Ok(var) => c.render(read, var.value()),
            }
        },
        Object::Probe(p) => program(p.as_str(), "probe", content),
        Object::Provider(p) => program(p.as_str(), "provider", content),
        Object::Variable(d) => template::content("variable document", d.source(), read),
    }
}

/// Whether an object can be instantiated: the name it is reported under, and what
/// is wrong with it.
pub struct Verdict {
    pub name: String,
    pub error: Option<String>,
}

/// Whether an object can be instantiated, as plain values.
pub struct Finding {
    pub name: Seq<char>,
    pub error: Option<Seq<char>>,
}

impl View for Verdict {
    type V = Finding;

    open spec fn view(&self) -> Finding {
        Finding { name: self.name@, error: text::text_of(self.error) }
    }
}

/// Verdicts, as plain values.
pub open spec fn findings(s: Seq<Verdict>) -> Seq<Finding> {
    Seq::new(s.len(), |i: int| s[i]@)
}

/// What is wrong with an object, by the status it has.
pub open spec fn fault(status: Result<(), Seq<char>>) -> Option<Seq<char>> {
    match status {
        Ok(_) => None,
        Err(e) => Some(e),
    }
}

/// The status of an object.
pub fn checked(name: &str, status: Result<(), String>) -> (r: Verdict)
    ensures
        r@ == (Finding { name: name@, error: fault(var::outcome(status)) }),
{
    let error = match status {
        Ok(_) => None,
        Err(e) => Some(e),
    };
    Verdict { name: name.to_owned(), error }
}

/// Whether what a probe reported is a document.
pub open spec fn probe_status(body: Result<Seq<char>, Seq<char>>) -> Result<(), Seq<char>> {
    match body {
        Err(e) => Err(e),
        Ok(t) => match var::document_in(t) {
            Ok(_) => Ok(()),
            Err(e) => Err(e),
        },
    }
}

/// Check a probe, by what it reported when it was run.
pub fn check_probe(file: &str, body: &Read) -> (r: Verdict)
    ensures
        r@ == (Finding { name: file@, error: fault(probe_status(said(*body))) }),
{
    let status = match body {
        Err(e) => Err(e.clone()),
        Ok(t) => match Variables::from_str(t.as_str()) {
            Ok(_) => Ok(()),
            Err(e) => Err(e),
        },
    };
    checked(file, status)
}

/// Whether a document can take part in the namespace.
pub open spec fn document_status(body: Result<Seq<char>, Seq<char>>) -> Result<(), Seq<char>> {
    match body {
        Err(e) => Err(e),
        Ok(t) => match var::document_in(t) {
            Err(e) => Err(e),
            Ok(j) => match var::declared_merge(j).1 {
                Ok(_) => Ok(()),
                Err(e) => Err(e),
            },
        },
    }
}

/// Check a document of variables, by what was read of it.
pub fn check_document(document: &Document, body: &Read) -> (r: Verdict)
    ensures
        r@ == (Finding {
            name: var::address(document@),
            error: fault(document_status(said(*body))),
        }),
{
    let status = match body {
        Err(e) => Err(e.clone()),
        Ok(t) => document.check(t.as_str()),
    };
    checked(document.id().as_str(), status)
}

/// Whether a provider describes itself in a way that can be understood.
pub open spec fn provider_status(kind: Seq<char>, ran: Result<Seq<char>, Seq<char>>) -> Result<
    provider::Shape,
    Seq<char>,
> {
    match provider::answered(kind, "schema"@, ran) {
        Err(e) => Err(e),
        Ok(body) => provider::provided(kind, provider::schema_of(var::document_in(body))),
    }
}

/// Check a provider, by what it said when it was asked for its schema.
pub fn check_provider(one: &provider::Provider, ran: Result<String, String>) -> (r: Verdict)
    ensures
        r@ == (Finding {
            name: one@.kind,
            error: match provider_status(one@.kind, said(ran)) {
                Ok(_) => None,
                Err(e) => Some(e),
            },
        }),
{
    let status = match one.schema(ran) {
        Ok(_) => Ok(()),
        Err(e) => Err(e),
    };
    checked(one.kind(), status)
}

/// Check a template, by what was read of it.
pub fn check_template(one: &Template, read: Read, context: &Datum) -> (r: Verdict)
    ensures
        r@ == (Finding {
            name: one@.target,
            error: match template::instance(one@, said(read), context@) {
                Ok(_) => None,
                Err(e) => Some(e),
            },
        }),
{
    checked(one.target(), one.check(read, context))
}

/// What was found of probes, by what each of them reported.
pub open spec fn probes_found(files: Seq<String>, bodies: Seq<Read>) -> Seq<Finding> {
    Seq::new(
        files.len(),
        |i: int| Finding { name: files[i]@, error: fault(probe_status(said(bodies[i]))) },
    )
}

/// Check probes, by what each of them reported when it was run, and say which of them
/// did not run or wrote a document that cannot be read.
pub fn check_probes(files: &Vec<String>, bodies: &Vec<Read>) -> (r: Vec<Verdict>)
    requires
        bodies@.len() == files@.len(),
    ensures
        findings(r@) == probes_found(files@, bodies@),
{
    let ghost want = probes_found(files@, bodies@);
    let mut r: Vec<Verdict> = Vec::new();
    let n: usize = files.len();
    let mut i: usize = 0;
    assert(findings(r@) =~= want.take(0));
    while i < n
        invariant
            i <= n == files@.len(),
            bodies@.len() == n,
            want == probes_found(files@, bodies@),
            findings(r@) == want.take(i as int),
        decreases n - i,
    {
        let ghost had = findings(r@);
        let verdict = check_probe(files[i].as_str(), &bodies[i]);
        assert(verdict@ == want[i as int]);
        r.push(verdict);
        assert(findings(r@) =~= had.push(verdict@));
        assert(had.push(verdict@) =~= want.take(i + 1));
        i += 1;
    }
    assert(want.take(i as int) =~= want);
    r
}

/// What was found of documents, by what was read of each.
pub open spec fn documents_found(documents: Seq<&Document>, bodies: Seq<Read>) -> Seq<Finding> {
    Seq::new(
        documents.len(),
        |i: int|
            Finding {
                name: var::address(documents[i]@),
                error: fault(document_status(said(bodies[i]))),
            },
    )
}

/// Check the documents that the namespace is built from, and say which of them cannot
/// take part in it.
///
/// A document that does not parse is a warning nowhere else: the namespace is collected
/// before almost everything, and a run that stopped there would say that a template is
/// broken when what is broken is a comma in a document.
pub fn check_variables(documents: &Vec<&Document>, bodies: &Vec<Read>) -> (r: Vec<Verdict>)
    requires
        bodies@.len() == documents@.len(),
    ensures
        findings(r@) == documents_found(documents@, bodies@),
{
    let ghost want = documents_found(documents@, bodies@);
    let mut r: Vec<Verdict> = Vec::new();
    let n: usize = documents.len();
    let mut i: usize = 0;
    assert(findings(r@) =~= want.take(0));
    while i < n
        invariant
            i <= n == documents@.len(),
            bodies@.len() == n,
            want == documents_found(documents@, bodies@),
            findings(r@) == want.take(i as int),
        decreases n - i,
    {
        let ghost had = findings(r@);
        let verdict = check_document(documents[i], &bodies[i]);
        assert(verdict@ == want[i as int]);
        r.push(verdict);
        assert(findings(r@) =~= had.push(verdict@));
        assert(had.push(verdict@) =~= want.take(i + 1));
        i += 1;
    }
    assert(want.take(i as int) =~= want);
    r
}

/// What was found of providers, by what each of them said.
pub open spec fn providers_found(providers: Seq<&provider::Provider>, ran: Seq<Read>) -> Seq<
    Finding,
> {
    Seq::new(
        providers.len(),
        |i: int|
            Finding {
                name: providers[i]@.kind,
                error: match provider_status(providers[i]@.kind, said(ran[i])) {
                    Ok(_) => None,
                    Err(e) => Some(e),
                },
            },
    )
}

/// Check providers, by what each of them said when it was asked for its schema, and say
/// which of them cannot answer, or describe themselves in a way that cannot be
/// understood.
pub fn check_providers(providers: &Vec<&provider::Provider>, ran: &Vec<Read>) -> (r: Vec<Verdict>)
    requires
        ran@.len() == providers@.len(),
    ensures
        findings(r@) == providers_found(providers@, ran@),
{
    let ghost want = providers_found(providers@, ran@);
    let mut r: Vec<Verdict> = Vec::new();
    let n: usize = providers.len();
    let mut i: usize = 0;
    assert(findings(r@) =~= want.take(0));
    while i < n
        invariant
            i <= n == providers@.len(),
            ran@.len() == n,
            want == providers_found(providers@, ran@),
            findings(r@) == want.take(i as int),
        decreases n - i,
    {
        let ghost had = findings(r@);
        let verdict = check_provider(providers[i], said_again(&ran[i]));
        assert(verdict@ == want[i as int]);
        r.push(verdict);
        assert(findings(r@) =~= had.push(verdict@));
        assert(had.push(verdict@) =~= want.take(i + 1));
        i += 1;
    }
    assert(want.take(i as int) =~= want);
    r
}

/// What was found of templates, by what was read of each.
pub open spec fn templates_found(templates: Seq<&Template>, reads: Seq<Read>, context: Json) -> Seq<
    Finding,
> {
    Seq::new(
        templates.len(),
        |i: int|
            Finding {
                name: templates[i]@.target,
                error: match template::instance(templates[i]@, said(reads[i]), context) {
                    Ok(_) => None,
                    Err(e) => Some(e),
                },
            },
    )
}

/// Instantiate templates, and say which of them cannot be written in the system.
pub fn check_templates(templates: &Vec<&Template>, reads: &Vec<Read>, context: &Datum) -> (r: Vec<
    Verdict,
>)
    requires
        reads@.len() == templates@.len(),
    ensures
        findings(r@) == templates_found(templates@, reads@, context@),
{
    let ghost want = templates_found(templates@, reads@, context@);
    let mut r: Vec<Verdict> = Vec::new();
    let n: usize = templates.len();
    let mut i: usize = 0;
    assert(findings(r@) =~= want.take(0));
    while i < n
        invariant
            i <= n == templates@.len(),
            reads@.len() == n,
            want == templates_found(templates@, reads@, context@),
            findings(r@) == want.take(i as int),
        decreases n - i,
    {
        let ghost had = findings(r@);
        let verdict = check_template(templates[i], said_again(&reads[i]), context);
        assert(verdict@ == want[i as int]);
        r.push(verdict);
        assert(findings(r@) =~= had.push(verdict@));
        assert(had.push(verdict@) =~= want.take(i + 1));
        i += 1;
    }
    assert(want.take(i as int) =~= want);
    r
}

/// An object, reduced to what deciding a requirement needs.
struct Declared {
    id: String,
    order: i64,
    wanted: Vec<String>,
    broken: bool,
}

/// An object, as plain values.
spec fn need(d: Declared) -> apply::Need {
    apply::Need { id: d.id@, order: d.order, requires: text::texts(d.wanted@), broken: d.broken }
}

/// Objects, as plain values.
spec fn declared_needs(s: Seq<Declared>) -> Seq<apply::Need> {
    Seq::new(s.len(), |i: int| need(s[i]))
}

/// What templates require: nothing, and they run at the order that things have by
/// default.
pub open spec fn template_needs(root: Seq<char>, s: Seq<Sheet>) -> Seq<apply::Need> {
    Seq::new(
        s.len(),
        |i: int|
            apply::Need {
                id: "template/"@ + apply::key_of(root, s[i].target),
                order: provider::DEFAULT_ORDER,
                requires: Seq::empty(),
                broken: false,
            },
    )
}

/// What a resource requires, by what its provider said when it was asked for its
/// schema and what was read of its declaration.  One that cannot be worked out has
/// no order worth comparing.
pub open spec fn resource_need(
    c: Claim,
    providers: Map<Seq<char>, provider::Program>,
    ran: Result<Seq<char>, Seq<char>>,
    read: Result<Seq<char>, Seq<char>>,
    context: Json,
) -> apply::Need {
    let shape = if providers.dom().contains(c.kind) {
        provider_status(providers[c.kind].kind, ran)
    } else {
        Err(Seq::empty())
    };
    match (shape, resource::declaration_of(c, read, context)) {
        (Ok(shape), Ok(intent)) => apply::Need {
            id: resource::id_of(c),
            order: resource::order_for(shape, intent),
            requires: intent.requires,
            broken: false,
        },
        _ => apply::Need {
            id: resource::id_of(c),
            order: provider::DEFAULT_ORDER,
            requires: Seq::empty(),
            broken: true,
        },
    }
}

/// What was learned of a resource: what its provider said when it was asked for
/// its schema, and what was read of its declaration.
pub struct Learned {
    pub ran: Read,
    pub read: Read,
}

/// What resources require.
pub open spec fn resource_needs(
    s: Seq<Claim>,
    providers: Map<Seq<char>, provider::Program>,
    learned: Seq<Learned>,
    context: Json,
) -> Seq<apply::Need> {
    Seq::new(
        s.len(),
        |i: int| resource_need(s[i], providers, said(learned[i].ran), said(learned[i].read), context),
    )
}

/// What every object of the system requires.
pub open spec fn all_needs(
    root: Seq<char>,
    templates: Seq<Sheet>,
    resources: Seq<Claim>,
    providers: Map<Seq<char>, provider::Program>,
    learned: Seq<Learned>,
    context: Json,
) -> Seq<apply::Need> {
    template_needs(root, templates) + resource_needs(resources, providers, learned, context)
}

/// What every object requires that no run could give it, by the name of the object.
pub open spec fn unmet_needs(needs: Seq<apply::Need>) -> Seq<(Seq<char>, Seq<char>)> {
    let all = apply::offenders(needs, true, needs.len());
    Seq::new(all.len(), |i: int| (needs[all[i].0].id, all[i].1))
}

/// The last reason that is given for a name.
pub open spec fn reason_for(s: Seq<(Seq<char>, Seq<char>)>, id: Seq<char>) -> Option<Seq<char>>
    decreases s.len(),
{
    if s.len() == 0 {
        None
    } else if s.last().0 == id {
        Some(s.last().1)
    } else {
        reason_for(s.drop_last(), id)
    }
}

/// Pairs, as plain values.
pub open spec fn pairs(s: Seq<(String, String)>) -> Seq<(Seq<char>, Seq<char>)> {
    Seq::new(s.len(), |i: int| (s[i].0@, s[i].1@))
}

/// What a resource requires.
fn declare(one: &Resource, providers: &Providers, learned: &Learned, context: &Datum) -> (r: Declared)
    ensures
        need(r) == resource_need(
            one@,
            providers@,
            said(learned.ran),
            said(learned.read),
            context@,
        ),
{
    let schema = match providers.find(one.kind()) {
        Err(_) => None,
        Ok(found) => match found.schema(said_again(&learned.ran)) {
            Ok(schema) => Some(schema),
            Err(_) => None,
        },
    };
    let declaration = one.declaration(said_again(&learned.read), context);
    match (schema, declaration) {
        (Some(schema), Ok(declaration)) => {
            let order = match declaration.order {
                Some(order) => order,
                None => schema.order(),
            };
            Declared { id: one.id(), order, wanted: declaration.requires, broken: false }
        },
        _ => {
            let wanted: Vec<String> = Vec::new();
            assert(text::texts(wanted@) =~= Seq::empty());
            Declared { id: one.id(), order: provider::DEFAULT_ORDER, wanted, broken: true }
        },
    }
}

/// What every resource of the system requires that no run could give it, as the
/// resource and the reason.
///
/// The whole system is looked at whatever was selected, because a requirement is
/// a statement about two objects and the other one is usually not the object that
/// was asked about.  It is also why the rule is applied as if the plan were
/// complete.
pub fn requirement_errors(
    root: &str,
    templates: &Templates,
    resources: &Resources,
    providers: &Providers,
    learned: &Vec<Learned>,
    context: &Datum,
) -> (r: Vec<(String, String)>)
    requires
        learned@.len() == resources@.len(),
    ensures
        pairs(r@) == unmet_needs(
            all_needs(
                root@,
                templates@.templates,
                resources@,
                providers@,
                learned@,
                context@,
            ),
        ),
{
    let mut objects: Vec<Declared> = Vec::new();
    let ghost first = template_needs(root@, templates@.templates);
    let list = templates.templates();
    let n: usize = list.len();
    let mut i: usize = 0;
    assert(declared_needs(objects@) =~= first.take(0));
    while i < n
        invariant
            i <= n == list@.len(),
            template::sheets(list@) == templates@.templates,
            first == template_needs(root@, templates@.templates),
            declared_needs(objects@) == first.take(i as int),
        decreases n - i,
    {
        let ghost had = declared_needs(objects@);
        assert(templates@.templates[i as int] == list@[i as int]@);
        let wanted: Vec<String> = Vec::new();
        assert(text::texts(wanted@) =~= Seq::empty());
        let one = Declared {
            id: apply::template_id(root, list[i].target()),
            order: provider::DEFAULT_ORDER,
            wanted,
            broken: false,
        };
        assert(need(one) == first[i as int]);
        objects.push(one);
        assert(declared_needs(objects@) =~= had.push(need(one)));
        assert(had.push(need(one)) =~= first.take(i + 1));
        i += 1;
    }
    assert(first.take(i as int) =~= first);
    let ghost second = resource_needs(resources@, providers@, learned@, context@);
    let list = resources.resources();
    let n: usize = list.len();
    let mut i: usize = 0;
    assert(first + second.take(0) =~= first);
    while i < n
        invariant
            i <= n == list@.len(),
            resource::claims(list@) == resources@,
            learned@.len() == resources@.len(),
            second == resource_needs(resources@, providers@, learned@, context@),
            declared_needs(objects@) == first + second.take(i as int),
        decreases n - i,
    {
        let ghost had = declared_needs(objects@);
        assert(resources@[i as int] == list@[i as int]@);
        let one = declare(&list[i], providers, &learned[i], context);
        assert(need(one) == second[i as int]);
        objects.push(one);
        assert(declared_needs(objects@) =~= had.push(need(one)));
        assert(had.push(need(one)) =~= first + second.take(i + 1));
        i += 1;
    }
    assert(second.take(i as int) =~= second);
    let ghost all = declared_needs(objects@);
    let n: usize = objects.len();
    let mut requirements: Vec<Requirement> = Vec::new();
    let mut i: usize = 0;
    while i < n
        invariant
            i <= n == objects@.len(),
            requirements@.len() == i,
            all == declared_needs(objects@),
            forall|j: int| 0 <= j < i ==> (#[trigger] requirements@[j])@ == all[j],
        decreases n - i,
    {
        requirements.push(
            Requirement {
                id: objects[i].id.as_str(),
                order: objects[i].order,
                requires: objects[i].wanted.as_slice(),
                broken: objects[i].broken,
            },
        );
        assert(requirements@[i as int]@ == all[i as int]);
        i += 1;
    }
    assert(apply::needs(requirements@) =~= all);
    let unmet = apply::unmet(requirements.as_slice(), true);
    let ghost found = apply::offenders(all, true, all.len());
    proof {
        lemma_offenders_in(all, true, all.len());
    }
    let mut r: Vec<(String, String)> = Vec::new();
    let m: usize = unmet.len();
    assert(apply::offences(unmet@).len() == unmet@.len());
    let ghost want = unmet_needs(all);
    assert(want.take(0) =~= Seq::empty());
    assert(pairs(r@) =~= Seq::empty());
    let mut i: usize = 0;
    while i < m
        invariant
            i <= m == unmet@.len(),
            n == objects@.len(),
            all == declared_needs(objects@),
            apply::offences(unmet@) == found,
            found == apply::offenders(all, true, all.len()),
            forall|j: int| 0 <= j < found.len() ==> 0 <= (#[trigger] found[j]).0 < all.len(),
            want == unmet_needs(all),
            pairs(r@) == want.take(i as int),
        decreases m - i,
    {
        let ghost had = pairs(r@);
        assert(found[i as int] == (unmet@[i as int].0 as int, unmet@[i as int].1@));
        let at: usize = unmet[i].0;
        let one = (objects[at].id.clone(), unmet[i].1.clone());
        assert(want[i as int] == (one.0@, one.1@)) by {
            assert(all[at as int] == need(objects@[at as int]));
        }
        r.push(one);
        assert(pairs(r@) =~= had.push((one.0@, one.1@)));
        assert(had.push((one.0@, one.1@)) =~= want.take(i + 1));
        i += 1;
    }
    assert(want.take(i as int) =~= want);
    r
}

proof fn lemma_offenders_in(objects: Seq<apply::Need>, complete: bool, n: nat)
    requires
        n <= objects.len(),
    ensures
        forall|j: int|
            0 <= j < apply::offenders(objects, complete, n).len() ==> 0 <= (
            #[trigger] apply::offenders(objects, complete, n)[j]).0 < n,
    decreases n,
{
    if n > 0 {
        lemma_offenders_in(objects, complete, (n - 1) as nat);
        let before = apply::offenders(objects, complete, (n - 1) as nat);
        let all = apply::offenders(objects, complete, n);
        assert forall|j: int| 0 <= j < all.len() implies 0 <= (#[trigger] all[j]).0 < n by {
            if j < before.len() {
                assert(all[j] == before[j]);
            }
        }
    }
}

/// The last reason that is given for a name.
fn find_reason<'a>(errors: &'a Vec<(String, String)>, id: &str) -> (r: Option<&'a str>)
    ensures
        reason_for(pairs(errors@), id@) == (match r {
            Some(t) => Some(t@),
            None => None,
        }),
{
    let ghost all = pairs(errors@);
    let mut i: usize = errors.len();
    assert(all.take(i as int) =~= all);
    while i > 0
        invariant
            i <= errors@.len(),
            all == pairs(errors@),
            reason_for(all, id@) == reason_for(all.take(i as int), id@),
        decreases i,
    {
        i -= 1;
        proof {
            assert(all.take(i + 1).drop_last() =~= all.take(i as int));
            assert(all.take(i + 1).last() == (errors@[i as int].0@, errors@[i as int].1@));
        }
        if text::equal(errors[i].0.as_str(), id) {
            return Some(errors[i].1.as_str());
        }
    }
    None
}

/// Whether a resource can be handed to its provider, and has what it waits for.
pub open spec fn resource_status(
    c: Claim,
    providers: Map<Seq<char>, provider::Program>,
    ran: Result<Seq<char>, Seq<char>>,
    read: Result<Seq<char>, Seq<char>>,
    context: Json,
    unmet: Seq<(Seq<char>, Seq<char>)>,
) -> Result<(), Seq<char>> {
    let shape = if providers.dom().contains(c.kind) {
        provider_status(providers[c.kind].kind, ran)
    } else {
        Err("There is no provider for "@ + c.kind + ", use `detc list --type provider`"@)
    };
    match shape {
        Err(e) => Err(e),
        Ok(shape) => match resource::desired_of(
            resource::id_of(c),
            shape.properties,
            resource::declaration_of(c, read, context),
        ) {
            Err(e) => Err(e),
            Ok(_) => match reason_for(unmet, resource::id_of(c)) {
                Some(why) => Err(why),
                None => Ok(()),
            },
        },
    }
}

/// Check a resource: its declaration against the schema of its provider, and then
/// what it requires.
///
/// One line per resource, whichever of the two is wrong with it: what a
/// declaration asks for and what it waits for are both the declaration.
pub fn check_resource(
    one: &Resource,
    providers: &Providers,
    learned: &Learned,
    context: &Datum,
    unmet: &Vec<(String, String)>,
) -> (r: Verdict)
    ensures
        r@ == (Finding {
            name: resource::id_of(one@),
            error: fault(
                resource_status(
                    one@,
                    providers@,
                    said(learned.ran),
                    said(learned.read),
                    context@,
                    pairs(unmet@),
                ),
            ),
        }),
{
    let id = one.id();
    let status = match one.check(
        providers,
        said_again(&learned.ran),
        said_again(&learned.read),
        context,
    ) {
        Err(e) => Err(e),
        Ok(_) => match find_reason(unmet, id.as_str()) {
            Some(why) => Err(why.to_owned()),
            None => Ok(()),
        },
    };
    checked(id.as_str(), status)
}

/// What was found of resources, by what was learned of each.
pub open spec fn resources_found(
    resources: Seq<&Resource>,
    providers: Map<Seq<char>, provider::Program>,
    learned: Seq<Learned>,
    context: Json,
    unmet: Seq<(Seq<char>, Seq<char>)>,
) -> Seq<Finding> {
    Seq::new(
        resources.len(),
        |i: int|
            Finding {
                name: resource::id_of(resources[i]@),
                error: fault(
                    resource_status(
                        resources[i]@,
                        providers,
                        said(learned[i].ran),
                        said(learned[i].read),
                        context,
                        unmet,
                    ),
                ),
            },
    )
}

/// Expand the declarations of resources, check them against the schema of their
/// provider, and say which of them a provider could not be handed.
///
/// Nothing is asked of the provider beyond its schema: what the system looks like right
/// now is a question for a dry run.
pub fn check_resources(
    resources: &Vec<&Resource>,
    providers: &Providers,
    learned: &Vec<Learned>,
    context: &Datum,
    unmet: &Vec<(String, String)>,
) -> (r: Vec<Verdict>)
    requires
        learned@.len() == resources@.len(),
    ensures
        findings(r@) == resources_found(
            resources@,
            providers@,
            learned@,
            context@,
            pairs(unmet@),
        ),
{
    let ghost want = resources_found(resources@, providers@, learned@, context@, pairs(unmet@));
    let mut r: Vec<Verdict> = Vec::new();
    let n: usize = resources.len();
    let mut i: usize = 0;
    assert(findings(r@) =~= want.take(0));
    while i < n
        invariant
            i <= n == resources@.len(),
            learned@.len() == n,
            want == resources_found(resources@, providers@, learned@, context@, pairs(unmet@)),
            findings(r@) == want.take(i as int),
        decreases n - i,
    {
        let ghost had = findings(r@);
        let verdict = check_resource(resources[i], providers, &learned[i], context, unmet);
        assert(verdict@ == want[i as int]);
        r.push(verdict);
        assert(findings(r@) =~= had.push(verdict@));
        assert(had.push(verdict@) =~= want.take(i + 1));
        i += 1;
    }
    assert(want.take(i as int) =~= want);
    r
}

/// What was found of the objects of each type, where they were looked at.
pub struct Verdicts {
    pub probes: Result<Vec<Verdict>, String>,
    pub templates: Result<Vec<Verdict>, String>,
    pub resources: Result<Vec<Verdict>, String>,
    pub providers: Result<Vec<Verdict>, String>,
    pub documents: Result<Vec<Verdict>, String>,
}

/// What was found of the objects of one type.
pub open spec fn found_of(v: Verdicts, kind: Type) -> Result<Seq<Finding>, Seq<char>> {
    let found = match kind {
        Type::Probe => v.probes,
        Type::Template => v.templates,
        Type::Resource => v.resources,
        Type::Provider => v.providers,
        Type::Variable => v.documents,
    };
    match found {
        Ok(s) => Ok(findings(s@)),
        Err(e) => Err(e@),
    }
}

/// The records of findings.
pub open spec fn check_records(s: Seq<Finding>) -> Seq<Saying> {
    Seq::new(s.len(), |i: int| Saying::Check { name: s[i].name, error: s[i].error })
}

/// How many of these objects cannot be instantiated.
pub open spec fn broken(s: Seq<Finding>) -> nat
    decreases s.len(),
{
    if s.len() == 0 {
        0
    } else {
        broken(s.drop_last()) + if s.last().error is Some {
            1nat
        } else {
            0nat
        }
    }
}

/// What was found of the objects of types, up to the first type that could not be
/// looked at.
pub open spec fn all_found(v: Verdicts, kinds: Seq<Type>) -> (Seq<Finding>, Option<Seq<char>>)
    decreases kinds.len(),
{
    if kinds.len() == 0 {
        (Seq::empty(), None)
    } else {
        let (before, e) = all_found(v, kinds.drop_last());
        match e {
            Some(e) => (before, Some(e)),
            None => match found_of(v, kinds.last()) {
                Err(e) => (before, Some(e)),
                Ok(more) => (before + more, None),
            },
        }
    }
}

/// The types that are checked, and that are applied: a single object is a template
/// unless the type says otherwise, as the configuration file is the usual way of
/// addressing it.
pub open spec fn meant(kind: Option<Type>, file: bool) -> Option<Type> {
    if kind is None && file {
        Some(Type::Template)
    } else {
        kind
    }
}

/// The types that are meant.
pub fn meant_kind(kind: Option<Type>, file: bool) -> (r: Option<Type>)
    ensures
        r == meant(kind, file),
{
    match kind {
        None => if file {
            Some(Type::Template)
        } else {
            None
        },
        Some(kind) => Some(kind),
    }
}

/// What checking the objects of a system says.
pub open spec fn check_speech(v: Verdicts, kind: Option<Type>, file: bool) -> Speech {
    let (all, e) = all_found(v, asked(meant(kind, file)));
    Speech {
        said: check_records(all),
        end: match e {
            Some(e) => Err(e),
            None => if broken(all) > 0 {
                Err(text::decimal(broken(all)) + " object(s) cannot be instantiated"@)
            } else {
                Ok(())
            },
        },
    }
}

proof fn lemma_found_stops(v: Verdicts, kinds: Seq<Type>, i: int)
    requires
        0 <= i <= kinds.len(),
        all_found(v, kinds.take(i)).1 is Some,
    ensures
        all_found(v, kinds) == all_found(v, kinds.take(i)),
    decreases kinds.len() - i,
{
    if i == kinds.len() {
        assert(kinds.take(i) =~= kinds);
    } else {
        assert(kinds.take(i + 1).drop_last() =~= kinds.take(i));
        lemma_found_stops(v, kinds, i + 1);
    }
}

/// Add the records of findings, and count those that are broken.
fn add_found(records: &mut Vec<Record>, failed: u64, found: &Vec<Verdict>, Ghost(all): Ghost<Seq<Finding>>) -> (r: u64)
    requires
        sayings(old(records)@) == check_records(all),
        failed == broken(all),
        failed <= old(records)@.len(),
    ensures
        sayings(final(records)@) == check_records(all + findings(found@)),
        r == broken(all + findings(found@)),
        r <= final(records)@.len(),
{
    let ghost new = findings(found@);
    let n: usize = found.len();
    let mut failed: u64 = failed;
    let mut i: usize = 0;
    assert(all + new.take(0) =~= all);
    while i < n
        invariant
            i <= n == found@.len(),
            new == findings(found@),
            sayings(records@) == check_records(all + new.take(i as int)),
            failed == broken(all + new.take(i as int)),
            failed <= records@.len(),
        decreases n - i,
    {
        let ghost had = sayings(records@);
        let ghost now = all + new.take(i + 1);
        assert(now.drop_last() =~= all + new.take(i as int));
        assert(now.last() == found@[i as int]@);
        let error = match &found[i].error {
            Some(e) => Some(e.clone()),
            None => None,
        };
        let wrong = error.is_some();
        let record = Record::Check { name: found[i].name.clone(), error };
        records.push(record);
        assert(sayings(records@) =~= had.push(record@));
        assert(had.push(record@) =~= check_records(now));
        let so_far: usize = records.len();
        assert(failed < so_far);
        if wrong {
            failed += 1;
        }
        i += 1;
    }
    assert(new.take(i as int) =~= new);
    failed
}

/// Report the objects of the system that cannot be instantiated, and fail if there
/// is any of them.
pub fn check(v: &Verdicts, kind: Option<Type>, file: bool) -> (r: Told)
    ensures
        r@ == check_speech(*v, kind, file),
{
    let kinds = asked_kinds(meant_kind(kind, file));
    let ghost all = kinds@;
    let ghost mut seen: Seq<Finding> = Seq::empty();
    let mut records: Vec<Record> = Vec::new();
    let mut failed: u64 = 0;
    let n: usize = kinds.len();
    let mut i: usize = 0;
    assert(sayings(records@) =~= check_records(seen));
    while i < n
        invariant
            i <= n == kinds@.len(),
            all == kinds@,
            all == asked(meant(kind, file)),
            all_found(*v, all.take(i as int)) == (seen, None::<Seq<char>>),
            sayings(records@) == check_records(seen),
            failed == broken(seen),
            failed <= records@.len(),
        decreases n - i,
    {
        proof {
            assert(all.take(i + 1).drop_last() =~= all.take(i as int));
            assert(all.take(i + 1).last() == kinds@[i as int]);
        }
        let found = match kinds[i] {
            Type::Probe => &v.probes,
            Type::Template => &v.templates,
            Type::Resource => &v.resources,
            Type::Provider => &v.providers,
            Type::Variable => &v.documents,
        };
        match found {
            Err(e) => {
                proof {
                    lemma_found_stops(*v, all, i + 1);
                }
                return Told { records, end: Err(e.clone()) };
            },
            Ok(found) => {
                failed = add_found(&mut records, failed, found, Ghost(seen));
                proof {
                    seen = seen + findings(found@);
                }
            },
        }
        i += 1;
    }
    assert(all.take(i as int) =~= all);
    if failed > 0 {
        let mut e = text::decimal_of(failed);
        e.append(" object(s) cannot be instantiated");
        return Told { records, end: Err(e) };
    }
    Told { records, end: Ok(()) }
}

/// The kinds of objects are listed in one order, and a kind that is asked for
/// is listed alone.
pub proof fn law_every_kind_is_listed_unless_one_is_asked_for(system: System, kind: Type, i: int)
    ensures
        asked(Some(kind)) == seq![kind],
        asked(None) == seq![
            Type::Probe,
            Type::Template,
            Type::Resource,
            Type::Provider,
            Type::Variable,
        ],
        listed(system, true, Some(kind)) == listed(system, true, None),
        listed(system, true, None).end is Ok,
        listed(system, true, None).said.len() == 5,
        0 <= i < 5 ==> listed(system, true, None).said[i] == Saying::Type(asked(None)[i]),
{
}

/// One kind of objects is listed by itself, and all of them one behind the
/// other, until one of them cannot be read.
pub proof fn law_kinds_are_listed_one_behind_the_other(system: System, kinds: Seq<Type>, kind: Type)
    ensures
        sections(system, Seq::empty()).said.len() == 0,
        sections(system, Seq::empty()).end is Ok,
        sections(system, kinds).end is Err ==> sections(system, kinds.push(kind)) == sections(
            system,
            kinds,
        ),
        sections(system, kinds).end is Ok && section(system, kind) is Err ==> sections(
            system,
            kinds.push(kind),
        ).end is Err && sections(system, kinds.push(kind)).said == sections(system, kinds).said,
        sections(system, kinds).end is Ok && section(system, kind) is Ok ==> sections(
            system,
            kinds.push(kind),
        ).end is Ok && sections(system, kinds.push(kind)).said == sections(system, kinds).said + section(
            system,
            kind,
        )->Ok_0,
{
    assert(kinds.push(kind).drop_last() =~= kinds);
}

/// An object is listed by its kind, the name that addresses it and the file
/// that it is in: a probe by its mount, a template by the file that it makes,
/// a resource by its type and name, a provider by its type, and a document by
/// its address.
pub proof fn law_an_object_is_listed_by_its_address(system: System, i: int)
    ensures
        system.probes matches Ok(s) ==> (section(system, Type::Probe) matches Ok(all) && all.len()
            == s@.len() && (0 <= i < all.len() ==> all[i] == (Saying::Object {
            kind: Type::Probe,
            name: s@[i].0@,
            source: s@[i].1@,
        }))),
        system.templates matches Ok(t) ==> (section(system, Type::Template) matches Ok(all)
            && all.len() == t@.templates.len() && (0 <= i < all.len() ==> all[i] == (Saying::Object {
            kind: Type::Template,
            name: t@.templates[i].target,
            source: t@.templates[i].source,
        }))),
        system.resources matches Ok(s) ==> (section(system, Type::Resource) matches Ok(all)
            && all.len() == s@.len() && (0 <= i < all.len() ==> all[i] == (Saying::Object {
            kind: Type::Resource,
            name: s@[i].kind + "/"@ + s@[i].name,
            source: s@[i].source,
        }))),
        system.providers matches Ok(m) ==> (section(system, Type::Provider) matches Ok(all)
            && all.len() == text::listing(m@.dom()).len() && (0 <= i < all.len() ==> all[i] == (
        Saying::Object {
            kind: Type::Provider,
            name: m@[text::listing(m@.dom())[i]].kind,
            source: m@[text::listing(m@.dom())[i]].path,
        }))),
        system.documents matches Ok(s) ==> (section(system, Type::Variable) matches Ok(all)
            && all.len() == s@.len() && (0 <= i < all.len() ==> all[i] == (Saying::Object {
            kind: Type::Variable,
            name: var::address(s@[i]),
            source: s@[i].source,
        }))),
{
}

proof fn lemma_first_that<A>(s: Seq<A>, holds: spec_fn(A) -> bool)
    ensures
        first_that(s, holds) is None <==> forall|i: int| 0 <= i < s.len() ==> !holds(#[trigger] s[i]),
        first_that(s, holds) matches Some(a) ==> exists|i: int|
            #![trigger s[i]]
            0 <= i < s.len() && s[i] == a && holds(a) && forall|j: int|
                0 <= j < i ==> !holds(#[trigger] s[j]),
    decreases s.len(),
{
    if s.len() > 0 {
        let less = s.drop_last();
        let n: int = s.len() - 1;
        lemma_first_that(less, holds);
        assert(forall|i: int| 0 <= i < n ==> #[trigger] less[i] == s[i]);
        match first_that(less, holds) {
            Some(a) => {
                let i = choose|i: int|
                    #![trigger less[i]]
                    0 <= i < less.len() && less[i] == a && holds(a) && forall|j: int|
                        0 <= j < i ==> !holds(#[trigger] less[j]);
                assert(s[i] == a);
                assert forall|j: int| 0 <= j < i implies !holds(#[trigger] s[j]) by {
                    assert(less[j] == s[j]);
                }
            },
            None => {
                assert forall|j: int| 0 <= j < n implies !holds(#[trigger] s[j]) by {
                    assert(less[j] == s[j]);
                }
                assert(s[n] == s.last());
            },
        }
    }
}

/// A template is found by the file that it makes: the first that makes it.
pub proof fn law_the_first_template_for_a_file_is_found(system: System, name: Seq<char>)
    requires
        system.templates is Ok,
    ensures
        template_for(system, name) is Ok,
        ({
            let t = system.templates->Ok_0@;
            &&& template_for(system, name)->Ok_0 is None <==> forall|i: int|
                0 <= i < t.templates.len() ==> !template::instantiates(
                    t.root,
                    #[trigger] t.templates[i],
                    name,
                )
            &&& template_for(system, name)->Ok_0 matches Some(sheet) ==> t.templates.contains(sheet)
                && template::instantiates(t.root, sheet, name)
        }),
{
    let t = system.templates->Ok_0@;
    let holds = writes_file(t.root, name);
    lemma_first_that(t.templates, holds);
    if first_that(t.templates, holds) is None {
        assert forall|i: int| 0 <= i < t.templates.len() implies !template::instantiates(
            t.root,
            #[trigger] t.templates[i],
            name,
        ) by {
            assert(!holds(t.templates[i]));
        }
    } else {
        let sheet = first_that(t.templates, holds)->0;
        let i = choose|i: int|
            #![trigger t.templates[i]]
            0 <= i < t.templates.len() && t.templates[i] == sheet && holds(sheet) && forall|j: int|
                0 <= j < i ==> !holds(#[trigger] t.templates[j]);
        assert(t.templates.contains(sheet));
        assert(template::instantiates(t.root, t.templates[i], name));
    }
}

/// A program is named by its label, by the end of its path, or by its path
/// without the root.
pub proof fn law_a_program_is_named_by_label_or_path(
    root: Seq<char>,
    name: Seq<char>,
    label: Seq<char>,
    program: Seq<char>,
)
    ensures
        names_program(root, label, label, program),
        path::ends_in(program, name) ==> names_program(root, name, label, program),
        path::same_route(program, template::rooted(root, name)) ==> names_program(
            root,
            name,
            label,
            program,
        ),
        names_program(root, name, label, program) ==> label == name || path::ends_in(program, name)
            || path::same_route(program, template::rooted(root, name)),
{
}

/// A probe is found when exactly one is named; two that are named alike are
/// an error, and none is nothing.
pub proof fn law_a_probe_is_found_when_one_is_named(
    system: System,
    name: Seq<char>,
    probes: Seq<(String, String)>,
    one: (String, String),
)
    ensures
        matched(system.root@, name, Seq::empty()).len() == 0,
        names_program(system.root@, name, one.0@, one.1@) ==> matched(
            system.root@,
            name,
            probes.push(one),
        ) == matched(system.root@, name, probes).push(one.1@),
        !names_program(system.root@, name, one.0@, one.1@) ==> matched(
            system.root@,
            name,
            probes.push(one),
        ) == matched(system.root@, name, probes),
        system.probes matches Ok(s) ==> ({
            let found = matched(system.root@, name, s@);
            &&& found.len() == 0 ==> probe_for(system, name) == Ok::<Option<Seq<char>>, Seq<char>>(None)
            &&& found.len() == 1 ==> probe_for(system, name) == Ok::<Option<Seq<char>>, Seq<char>>(
                Some(found[0]),
            )
            &&& found.len() > 1 ==> probe_for(system, name) is Err
        }),
        system.probes is Err ==> probe_for(system, name) is Err,
{
    assert(probes.push(one).drop_last() =~= probes);
}

/// A probe that is a file is itself, whatever the system has; a provider that
/// the system has goes before a file of that name.
pub proof fn law_a_file_may_be_named_in_place_of_a_program(system: System, name: Seq<char>)
    ensures
        probe_at(system, name, true) == Ok::<Seq<char>, Seq<char>>(name),
        probe_for(system, name) == Ok::<Option<Seq<char>>, Seq<char>>(None) ==> probe_at(
            system,
            name,
            false,
        ) is Err,
        probe_for(system, name) is Ok && probe_for(system, name)->Ok_0 is Some ==> probe_at(
            system,
            name,
            false,
        ) == Ok::<Seq<char>, Seq<char>>((probe_for(system, name)->Ok_0)->0),
        provider_for(system, name) is Ok && provider_for(system, name)->Ok_0 is Some ==> provider_at(
            system,
            name,
            true,
        ) == Ok::<Seq<char>, Seq<char>>((provider_for(system, name)->Ok_0)->0) && provider_at(
            system,
            name,
            false,
        ) == provider_at(system, name, true),
        provider_for(system, name) == Ok::<Option<Seq<char>>, Seq<char>>(None) ==> provider_at(
            system,
            name,
            true,
        ) == Ok::<Seq<char>, Seq<char>>(name) && provider_at(system, name, false) is Err,
{
}

/// A provider is found by its type or its path, the first in the order of the
/// types.
pub proof fn law_a_provider_is_found_by_its_type_or_path(system: System, name: Seq<char>)
    requires
        system.providers is Ok,
    ensures
        ({
            let all = in_order(system.providers->Ok_0@);
            let found = provider_for(system, name);
            &&& found is Ok
            &&& found->Ok_0 is None <==> forall|i: int|
                0 <= i < all.len() ==> !names_program(
                    system.root@,
                    name,
                    (#[trigger] all[i]).kind,
                    all[i].path,
                )
            &&& found->Ok_0 matches Some(p) ==> exists|i: int|
                0 <= i < all.len() && (#[trigger] all[i]).path == p && names_program(
                    system.root@,
                    name,
                    all[i].kind,
                    all[i].path,
                )
        }),
{
    let all = in_order(system.providers->Ok_0@);
    let holds = names_provider(system.root@, name);
    lemma_first_that(all, holds);
    if first_that(all, holds) is None {
        assert forall|i: int| 0 <= i < all.len() implies !names_program(
            system.root@,
            name,
            (#[trigger] all[i]).kind,
            all[i].path,
        ) by {
            assert(!holds(all[i]));
        }
    } else {
        let one = first_that(all, holds)->0;
        let i = choose|i: int|
            #![trigger all[i]]
            0 <= i < all.len() && all[i] == one && holds(one) && forall|j: int|
                0 <= j < i ==> !holds(#[trigger] all[j]);
        assert(names_program(system.root@, name, all[i].kind, all[i].path));
    }
}

/// An object that is asked for by its kind is of that kind, and one that is
/// asked for without is the first that there is: a probe, a template, a
/// resource, a provider or a document, in this order.
pub proof fn law_an_object_is_looked_for_in_order(system: System, name: Seq<char>, is_file: bool)
    ensures
        resolved(system, name, Some(Type::Probe), is_file) matches Ok(aim) ==> aim is Probe,
        resolved(system, name, Some(Type::Template), is_file) matches Ok(aim) ==> aim is Template,
        resolved(system, name, Some(Type::Resource), is_file) matches Ok(aim) ==> aim is Resource,
        resolved(system, name, Some(Type::Provider), is_file) matches Ok(aim) ==> aim is Provider,
        resolved(system, name, Some(Type::Variable), is_file) matches Ok(aim) ==> aim is Variable,
        ({
            let probe = probe_for(system, name);
            let sheet = template_for(system, name);
            let claim = resource_for(system, name);
            let program = provider_for(system, name);
            let document = document_for(system, name);
            let found = resolved(system, name, None, is_file);
            &&& probe matches Ok(Some(p)) ==> found == Ok::<Aim, Seq<char>>(Aim::Probe(p))
            &&& probe matches Ok(None) ==> (sheet matches Ok(Some(t)) ==> found == Ok::<
                Aim,
                Seq<char>,
            >(Aim::Template(t)))
            &&& probe matches Ok(None) ==> (sheet matches Ok(None) ==> (claim matches Ok(Some(c)) ==> found
                == Ok::<Aim, Seq<char>>(Aim::Resource(c))))
            &&& probe matches Ok(None) ==> (sheet matches Ok(None) ==> (claim matches Ok(None) ==> (
            program matches Ok(Some(p)) ==> found == Ok::<Aim, Seq<char>>(Aim::Provider(p)))))
            &&& probe matches Ok(None) ==> (sheet matches Ok(None) ==> (claim matches Ok(None) ==> (
            program matches Ok(None) ==> (document matches Ok(Some(w)) ==> found == Ok::<
                Aim,
                Seq<char>,
            >(Aim::Variable(w))))))
            &&& probe matches Ok(None) ==> (sheet matches Ok(None) ==> (claim matches Ok(None) ==> (
            program matches Ok(None) ==> (document matches Ok(None) ==> found is Err))))
        }),
{
}

/// What is asked of one object is asked of it alone, and of every object of a
/// kind when none is named; of providers it is asked of all of them.
pub proof fn law_one_object_is_selected_by_its_name(
    system: System,
    kind: Type,
    name: Seq<char>,
    is_file: bool,
)
    ensures
        selection(system, kind, None, is_file) == every(system, kind),
        kind == Type::Provider ==> selection(system, kind, Some(name), is_file) == every(system, kind),
        kind != Type::Provider ==> (selection(system, kind, Some(name), is_file) is Ok
            <==> typed_object(system, name, kind, is_file) is Ok),
        kind != Type::Provider && typed_object(system, name, kind, is_file) is Ok ==> selection(
            system,
            kind,
            Some(name),
            is_file,
        ) == Ok::<Seq<Aim>, Seq<char>>(seq![typed_object(system, name, kind, is_file)->Ok_0]),
{
}

/// Every object of a kind is selected, in the order in which they are listed.
pub proof fn law_every_object_of_a_kind_is_selected(system: System, kind: Type, i: int)
    ensures
        every(system, kind) is Ok <==> section(system, kind) is Ok,
        every(system, kind) matches Ok(all) ==> all.len() == section(system, kind)->Ok_0.len() && (
        0 <= i < all.len() ==> (section(system, kind)->Ok_0[i] matches Saying::Object {
            kind: k,
            source,
            ..
        } && k == kind && source == source_of(all[i]))),
{
}

/// The file of an object is its source, and a program is its own.
pub proof fn law_an_object_is_in_its_file(sheet: Sheet, claim: Claim, program: Seq<char>, w: Writing)
    ensures
        source_of(Aim::Template(sheet)) == sheet.source,
        source_of(Aim::Resource(claim)) == claim.source,
        source_of(Aim::Probe(program)) == program,
        source_of(Aim::Provider(program)) == program,
        source_of(Aim::Variable(w)) == w.source,
{
}

/// An object is shown as it is written where that is asked for, and otherwise
/// as it comes out; programs and documents are always shown as written.
pub proof fn law_an_object_is_shown_raw_or_rendered(
    sheet: Sheet,
    claim: Claim,
    w: Writing,
    t: Seq<char>,
    content: Result<Vec<u8>, String>,
    context: Json,
    raw: bool,
)
    ensures
        shown(Aim::Template(sheet), true, Ok(t), content, Ok(context)) == Ok::<Seq<char>, Seq<char>>(t),
        shown(Aim::Template(sheet), false, Ok(t), content, Ok(context)) == template::instance(
            sheet,
            Ok(t),
            context,
        ),
        shown(Aim::Resource(claim), true, Ok(t), content, Ok(context)) == Ok::<Seq<char>, Seq<char>>(t),
        shown(Aim::Resource(claim), false, Ok(t), content, Ok(context)) == resource::expansion_of(
            claim,
            Ok(t),
            context,
        ),
        shown(Aim::Variable(w), raw, Ok(t), content, Ok(context)) == Ok::<Seq<char>, Seq<char>>(t),
        content is Ok && text::decoded(content->Ok_0@) is Some ==> shown(
            Aim::Probe(t),
            raw,
            Ok(t),
            content,
            Ok(context),
        ) == Ok::<Seq<char>, Seq<char>>(text::decoded(content->Ok_0@)->0) && shown(
            Aim::Provider(t),
            raw,
            Ok(t),
            content,
            Ok(context),
        ) == Ok::<Seq<char>, Seq<char>>(text::decoded(content->Ok_0@)->0),
        content is Ok && text::decoded(content->Ok_0@) is None ==> shown(
            Aim::Probe(t),
            raw,
            Ok(t),
            content,
            Ok(context),
        ) is Err,
        content is Err ==> shown(Aim::Provider(t), raw, Ok(t), content, Ok(context)) is Err,
{
}

/// A provider is documented with its schema behind what it says, set off, and
/// any other object with what it says alone.
pub proof fn law_a_provider_is_documented_with_its_schema(
    object: Aim,
    content: Result<Vec<u8>, String>,
    schema: Result<Seq<char>, Seq<char>>,
    lines: Seq<Seq<char>>,
    line: Seq<char>,
)
    ensures
        !(object is Provider) ==> described(object, content, schema) == doc::documented(
            source_of(object),
            content,
        ),
        doc::documented(source_of(object), content) is Err ==> described(object, content, schema) is Err,
        object is Provider && schema is Ok && doc::documented(source_of(object), content) is Ok
            ==> described(object, content, schema) == Ok::<Seq<char>, Seq<char>>(
            doc::documented(source_of(object), content)->Ok_0 + "\n## Schema\n\n"@ + block(
                text::lines(schema->Ok_0),
            ),
        ),
        block(Seq::empty()).len() == 0,
        line.len() > 0 ==> block(lines.push(line)) == block(lines) + ("    "@ + line + "\n"@),
        line.len() == 0 ==> block(lines.push(line)) == block(lines) + "\n"@,
{
    assert(lines.push(line).drop_last() =~= lines);
}

/// A probe is sound when it reports what can be read, a document when it can
/// be read and names no strategy that there is none of, and a provider when
/// its schema can be.
pub proof fn law_an_object_is_sound_when_it_can_be_read(body: Seq<char>, e: Seq<char>, kind: Seq<char>)
    ensures
        probe_status(Ok(body)) is Ok <==> var::document_in(body) is Ok,
        probe_status(Err(e)) is Err,
        document_status(Ok(body)) is Ok <==> var::document_in(body) is Ok && var::declared_merge(
            var::document_in(body)->Ok_0,
        ).1 is Ok,
        document_status(Err(e)) is Err,
        provider_status(kind, Err(e)) is Err,
        provider_status(kind, Ok(body)) is Ok <==> var::document_in(body) is Ok
            && provider::schema_in(var::document_in(body)->Ok_0) is Ok,
        provider_status(kind, Ok(body)) matches Ok(shape) ==> provider::schema_in(
            var::document_in(body)->Ok_0,
        ) == Ok::<provider::Shape, Seq<char>>(shape),
{
}

/// A resource is sound when its type is installed and says its schema, when
/// what it declares is valid, and when what it requires is there and comes
/// earlier.
pub proof fn law_a_resource_is_sound_when_it_could_be_applied(
    c: Claim,
    providers: Map<Seq<char>, provider::Program>,
    ran: Result<Seq<char>, Seq<char>>,
    read: Result<Seq<char>, Seq<char>>,
    context: Json,
    unmet: Seq<(Seq<char>, Seq<char>)>,
)
    ensures
        resource_status(c, providers, ran, read, context, unmet) is Ok <==> {
            &&& providers.dom().contains(c.kind)
            &&& provider_status(providers[c.kind].kind, ran) is Ok
            &&& resource::declaration_of(c, read, context) is Ok
            &&& provider::validated(
                provider_status(providers[c.kind].kind, ran)->Ok_0.properties,
                resource::declaration_of(c, read, context)->Ok_0.state,
            ) is Ok
            &&& forall|i: int| 0 <= i < unmet.len() ==> (#[trigger] unmet[i]).0 != c.kind + "/"@ + c.name
        },
{
    lemma_reason_for(unmet, resource::id_of(c));
}

proof fn lemma_reason_for(s: Seq<(Seq<char>, Seq<char>)>, id: Seq<char>)
    ensures
        reason_for(s, id) is None <==> forall|i: int| 0 <= i < s.len() ==> (#[trigger] s[i]).0 != id,
    decreases s.len(),
{
    if s.len() > 0 {
        let less = s.drop_last();
        lemma_reason_for(less, id);
        assert(forall|i: int| 0 <= i < less.len() ==> #[trigger] less[i] == s[i]);
        assert(s[s.len() - 1] == s.last());
        if reason_for(s, id) is None {
            assert forall|i: int| 0 <= i < s.len() implies (#[trigger] s[i]).0 != id by {
                if i < less.len() {
                    assert(less[i] == s[i]);
                }
            }
        }
    }
}

/// What a template needs is nothing, and it comes at fifty; what a resource
/// needs is what it declares, and one that cannot be worked out is broken.
pub proof fn law_needs_are_what_is_declared(
    root: Seq<char>,
    s: Seq<Sheet>,
    i: int,
    c: Claim,
    providers: Map<Seq<char>, provider::Program>,
    ran: Result<Seq<char>, Seq<char>>,
    read: Result<Seq<char>, Seq<char>>,
    context: Json,
)
    ensures
        0 <= i < s.len() ==> template_needs(root, s)[i] == (apply::Need {
            id: "template/"@ + apply::key_of(root, s[i].target),
            order: 50,
            requires: Seq::empty(),
            broken: false,
        }),
        template_needs(root, s).len() == s.len(),
        ({
            let need = resource_need(c, providers, ran, read, context);
            let sound = providers.dom().contains(c.kind) && provider_status(
                providers[c.kind].kind,
                ran,
            ) is Ok && resource::declaration_of(c, read, context) is Ok;
            &&& need.id == c.kind + "/"@ + c.name
            &&& need.broken <==> !sound
            &&& sound ==> need.requires == resource::declaration_of(c, read, context)->Ok_0.requires
                && need.order == resource::order_for(
                provider_status(providers[c.kind].kind, ran)->Ok_0,
                resource::declaration_of(c, read, context)->Ok_0,
            )
        }),
{
}

/// What is unmet is every object that there is an objection to, under its
/// address, with the objection.
pub proof fn law_unmet_needs_are_those_objected_to(needs: Seq<apply::Need>, i: int)
    requires
        0 <= i < needs.len(),
    ensures
        apply::objection(needs, needs[i], true) matches Some(why) ==> unmet_needs(needs).contains(
            (needs[i].id, why),
        ),
        forall|k: int|
            0 <= k < unmet_needs(needs).len() ==> exists|j: int|
                #![trigger needs[j]]
                0 <= j < needs.len() && #[trigger] unmet_needs(needs)[k].0 == needs[j].id
                    && apply::objection(needs, needs[j], true) == Some(unmet_needs(needs)[k].1),
{
    lemma_offenders(needs, needs.len());
    let all = apply::offenders(needs, true, needs.len());
    let unmet = unmet_needs(needs);
    if apply::objection(needs, needs[i], true) is Some {
        let why = apply::objection(needs, needs[i], true)->0;
        let k = choose|k: int| 0 <= k < all.len() && all[k] == (i, why);
        assert(all.contains((i, why)));
        assert(unmet[k] == (needs[i].id, why));
    }
    assert forall|k: int| 0 <= k < unmet.len() implies exists|j: int|
        #![trigger needs[j]]
        0 <= j < needs.len() && #[trigger] unmet[k].0 == needs[j].id && apply::objection(
            needs,
            needs[j],
            true,
        ) == Some(unmet[k].1) by {
        assert(0 <= all[k].0 < needs.len());
        let j = all[k].0;
        assert(unmet[k].0 == needs[j].id);
    }
}

proof fn lemma_offenders(needs: Seq<apply::Need>, n: nat)
    requires
        n <= needs.len(),
    ensures
        forall|k: int|
            0 <= k < apply::offenders(needs, true, n).len() ==> {
                let one = #[trigger] apply::offenders(needs, true, n)[k];
                &&& 0 <= one.0 < n
                &&& apply::objection(needs, needs[one.0], true) == Some(one.1)
            },
        forall|i: int|
            0 <= i < n && apply::objection(needs, #[trigger] needs[i], true) is Some
                ==> apply::offenders(needs, true, n).contains(
                (i, apply::objection(needs, needs[i], true)->0),
            ),
    decreases n,
{
    if n > 0 {
        let m: nat = (n - 1) as nat;
        lemma_offenders(needs, m);
        let before = apply::offenders(needs, true, m);
        let all = apply::offenders(needs, true, n);
        assert forall|k: int| 0 <= k < all.len() implies {
            let one = #[trigger] all[k];
            &&& 0 <= one.0 < n
            &&& apply::objection(needs, needs[one.0], true) == Some(one.1)
        } by {
            if k < before.len() {
                assert(all[k] == before[k]);
            }
        }
        assert forall|i: int|
            0 <= i < n && apply::objection(needs, #[trigger] needs[i], true) is Some implies all.contains(
            (i, apply::objection(needs, needs[i], true)->0),
        ) by {
            let one = (i, apply::objection(needs, needs[i], true)->0);
            if i < m {
                assert(before.contains(one));
                let k = choose|k: int| 0 <= k < before.len() && before[k] == one;
                assert(all[k] == one);
            } else {
                assert(all[before.len() as int] == one);
            }
        }
    }
}

/// A check says every object that it looked at, in its place, and fails when
/// one of them is unsound or cannot be found.
pub proof fn law_a_check_fails_when_anything_is_unsound(v: Verdicts, kind: Option<Type>, file: bool, i: int)
    ensures
        ({
            let (all, e) = all_found(v, asked(meant(kind, file)));
            let speech = check_speech(v, kind, file);
            &&& speech.said.len() == all.len()
            &&& 0 <= i < all.len() ==> speech.said[i] == (Saying::Check {
                name: all[i].name,
                error: all[i].error,
            })
            &&& speech.end is Ok <==> e is None && forall|k: int|
                0 <= k < all.len() ==> (#[trigger] all[k]).error is None
        }),
        meant(None, true) == Some(Type::Template),
        meant(None, false) is None,
        meant(Some(Type::Resource), file) == Some(Type::Resource),
        meant(Some(Type::Probe), file) == Some(Type::Probe),
{
    lemma_broken(all_found(v, asked(meant(kind, file))).0);
}

proof fn lemma_broken(s: Seq<Finding>)
    ensures
        broken(s) == 0 <==> forall|k: int| 0 <= k < s.len() ==> (#[trigger] s[k]).error is None,
    decreases s.len(),
{
    if s.len() > 0 {
        let less = s.drop_last();
        lemma_broken(less);
        assert(forall|k: int| 0 <= k < less.len() ==> #[trigger] less[k] == s[k]);
        assert(s[s.len() - 1] == s.last());
        if broken(s) == 0 {
            assert forall|k: int| 0 <= k < s.len() implies (#[trigger] s[k]).error is None by {
                if k < less.len() {
                    assert(less[k] == s[k]);
                }
            }
        }
    }
}

/// Every kind that is checked gives its findings, one kind behind the other,
/// until one cannot be looked at.
pub proof fn law_kinds_are_checked_one_behind_the_other(v: Verdicts, kinds: Seq<Type>, kind: Type)
    ensures
        all_found(v, Seq::empty()) == (Seq::<Finding>::empty(), None::<Seq<char>>),
        all_found(v, kinds).1 is Some ==> all_found(v, kinds.push(kind)) == all_found(v, kinds),
        all_found(v, kinds).1 is None && found_of(v, kind) is Err ==> all_found(v, kinds.push(kind)).1 is Some
            && all_found(v, kinds.push(kind)).0 == all_found(v, kinds).0,
        all_found(v, kinds).1 is None && found_of(v, kind) is Ok ==> all_found(v, kinds.push(kind))
            == (all_found(v, kinds).0 + found_of(v, kind)->Ok_0, None::<Seq<char>>),
        v.probes matches Ok(s) ==> found_of(v, Type::Probe) == Ok::<Seq<Finding>, Seq<char>>(findings(s@)),
        v.templates matches Ok(s) ==> found_of(v, Type::Template) == Ok::<Seq<Finding>, Seq<char>>(
            findings(s@),
        ),
        v.resources matches Ok(s) ==> found_of(v, Type::Resource) == Ok::<Seq<Finding>, Seq<char>>(
            findings(s@),
        ),
        v.providers matches Ok(s) ==> found_of(v, Type::Provider) == Ok::<Seq<Finding>, Seq<char>>(
            findings(s@),
        ),
        v.documents matches Ok(s) ==> found_of(v, Type::Variable) == Ok::<Seq<Finding>, Seq<char>>(
            findings(s@),
        ),
{
    assert(kinds.push(kind).drop_last() =~= kinds);
}

/// What is looked at is found sound or not, each object in its place and under
/// the name that it is listed by.
pub proof fn law_every_object_is_found_sound_or_not(
    files: Seq<String>,
    bodies: Seq<Read>,
    documents: Seq<&Document>,
    templates: Seq<&Template>,
    context: Json,
    i: int,
)
    ensures
        probes_found(files, bodies).len() == files.len(),
        0 <= i < files.len() ==> probes_found(files, bodies)[i].name == files[i]@ && (probes_found(
            files,
            bodies,
        )[i].error is None <==> probe_status(said(bodies[i])) is Ok),
        documents_found(documents, bodies).len() == documents.len(),
        0 <= i < documents.len() ==> documents_found(documents, bodies)[i].name == var::address(
            documents[i]@,
        ) && (documents_found(documents, bodies)[i].error is None <==> document_status(
            said(bodies[i]),
        ) is Ok),
        templates_found(templates, bodies, context).len() == templates.len(),
        0 <= i < templates.len() ==> templates_found(templates, bodies, context)[i].name
            == templates[i]@.target && (templates_found(templates, bodies, context)[i].error is None
            <==> template::instance(templates[i]@, said(bodies[i]), context) is Ok),
{
}

/// So are the providers and the resources.
pub proof fn law_every_provider_and_resource_is_found_sound_or_not(
    programs: Seq<&provider::Provider>,
    ran: Seq<Read>,
    resources: Seq<&Resource>,
    providers: Map<Seq<char>, provider::Program>,
    learned: Seq<Learned>,
    context: Json,
    unmet: Seq<(Seq<char>, Seq<char>)>,
    i: int,
)
    ensures
        providers_found(programs, ran).len() == programs.len(),
        0 <= i < programs.len() ==> providers_found(programs, ran)[i].name == programs[i]@.kind && (
        providers_found(programs, ran)[i].error is None <==> provider_status(
            programs[i]@.kind,
            said(ran[i]),
        ) is Ok),
        resources_found(resources, providers, learned, context, unmet).len() == resources.len(),
        0 <= i < resources.len() ==> {
            let one = resources_found(resources, providers, learned, context, unmet)[i];
            &&& one.name == resources[i]@.kind + "/"@ + resources[i]@.name
            &&& one.error is None <==> resource_status(
                resources[i]@,
                providers,
                said(learned[i].ran),
                said(learned[i].read),
                context,
                unmet,
            ) is Ok
        },
{
}

/// A preview is made with nothing published, and what is needed is what the
/// templates need and then what the resources do.
pub proof fn law_a_preview_publishes_nothing(
    j: Json,
    e: Seq<char>,
    root: Seq<char>,
    templates: Seq<Sheet>,
    resources: Seq<Claim>,
    providers: Map<Seq<char>, provider::Program>,
    learned: Seq<Learned>,
    context: Json,
    i: int,
)
    ensures
        previewed(Err(e)) == Err::<Json, Seq<char>>(e),
        previewed(Ok(j)) == apply::published_in(j, Map::empty()),
        ({
            let all = all_needs(root, templates, resources, providers, learned, context);
            &&& all.len() == templates.len() + resources.len()
            &&& 0 <= i < templates.len() ==> all[i] == template_needs(root, templates)[i]
            &&& 0 <= i < resources.len() ==> all[templates.len() + i] == resource_need(
                resources[i],
                providers,
                said(learned[i].ran),
                said(learned[i].read),
                context,
            )
        }),
{
}

} // verus!
