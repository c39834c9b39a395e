//! Values: the documents that the system is described with.

use vstd::prelude::*;

use crate::text;

verus! {

/// `serde_json::Number` is carried through as it is.
#[verifier::external_type_specification]
#[verifier::external_body]
pub struct ExNumber(serde_json::Number);

/// A number: a natural one, a negative one, or one that is not whole, by the
/// text it is written as.
pub enum Figure {
    Natural(u64),
    Negative(i64),
    Fraction(Seq<char>),
}

/// A document, as a mathematical value.
pub enum Json {
    Null,
    Bool(bool),
    Number(Figure),
    Text(Seq<char>),
    Array(Seq<Json>),
    Object(Map<Seq<char>, Json>),
}

/// What a `serde_json::Number` holds.
pub uninterp spec fn figure(n: serde_json::Number) -> Figure;

/// A document.  Of two members of an object with the same name, the later one
/// counts.
pub enum Datum {
    Null,
    Bool(bool),
    Number(serde_json::Number),
    String(String),
    Array(Vec<Datum>),
    Object(Vec<(String, Datum)>),
}

/// The documents in a list.
pub open spec fn items(s: Seq<Datum>) -> Seq<Json>
    decreases s,
{
    if s.len() == 0 {
        Seq::empty()
    } else {
        items(s.drop_last()).push(s.last().json())
    }
}

/// The members of an object.
pub open spec fn members(s: Seq<(String, Datum)>) -> Map<Seq<char>, Json>
    decreases s,
{
    if s.len() == 0 {
        Map::empty()
    } else {
        members(s.drop_last()).insert(s.last().0@, s.last().1.json())
    }
}

impl Datum {
    pub open spec fn json(self) -> Json
        decreases self,
    {
        match self {
            Datum::Null => Json::Null,
            Datum::Bool(b) => Json::Bool(b),
            Datum::Number(n) => Json::Number(figure(n)),
            Datum::String(s) => Json::Text(s@),
            Datum::Array(v) => Json::Array(items(v@)),
            Datum::Object(v) => Json::Object(members(v@)),
        }
    }
}

impl View for Datum {
    type V = Json;

    open spec fn view(&self) -> Json {
        self.json()
    }
}

/// The value of a member, when there is one.
pub open spec fn member(m: Map<Seq<char>, Json>, name: Seq<char>) -> Option<Json> {
    if m.dom().contains(name) {
        Some(m[name])
    } else {
        None
    }
}

/// `target` with `patch` merged into it: objects are merged member by member,
/// anything else is replaced, and a member whose new value is null is taken
/// away.
pub open spec fn patched(target: Json, patch: Json) -> Json
    decreases patch,
{
    match patch {
        Json::Object(p) => {
            let t = match target {
                Json::Object(t) => t,
                _ => Map::empty(),
            };
            Json::Object(
                Map::new(
                    |k: Seq<char>|
                        if p.dom().contains(k) {
                            p[k] != Json::Null
                        } else {
                            t.dom().contains(k)
                        },
                    |k: Seq<char>|
                        if p.dom().contains(k) {
                            patched(
                                if t.dom().contains(k) {
                                    t[k]
                                } else {
                                    Json::Null
                                },
                                p[k],
                            )
                        } else {
                            t[k]
                        },
                ),
            )
        },
        _ => patch,
    }
}

/// `serde_json::Number::as_i64` gives the number where it is whole and fits.
pub assume_specification[ serde_json::Number::as_i64 ](n: &serde_json::Number) -> (r: Option<i64>)
    ensures
        r == (match figure(*n) {
            Figure::Natural(u) => if u <= i64::MAX {
                Some(u as i64)
            } else {
                None
            },
            Figure::Negative(i) => Some(i),
            Figure::Fraction(_) => None,
        }),
;

/// `serde_json::Number::is_u64` tells the natural numbers apart.
pub assume_specification[ serde_json::Number::is_u64 ](n: &serde_json::Number) -> (r: bool)
    ensures
        r == (figure(*n) is Natural),
;

/// A copy of a `serde_json::Number` holds the same number.
pub assume_specification[ <serde_json::Number as Clone>::clone ](n: &serde_json::Number) -> (r: serde_json::Number)
    ensures
        figure(r) == figure(*n),
;

/// Whether two numbers that are not whole are equal, by the texts they are
/// written as.
pub uninterp spec fn same_fraction(a: Seq<char>, b: Seq<char>) -> bool;

/// Whether two numbers are equal.  A whole number never equals one that is
/// not written as whole.
pub open spec fn same_figure(a: Figure, b: Figure) -> bool {
    match (a, b) {
        (Figure::Fraction(a), Figure::Fraction(b)) => same_fraction(a, b),
        (Figure::Fraction(_), _) => false,
        (_, Figure::Fraction(_)) => false,
        _ => a == b,
    }
}

/// `==` of `serde_json::Number` compares what the two numbers hold.
pub assume_specification[ <serde_json::Number as PartialEq>::eq ](
    a: &serde_json::Number,
    b: &serde_json::Number,
) -> (r: bool)
    ensures
        r == (match (figure(*a), figure(*b)) {
            (Figure::Fraction(a), Figure::Fraction(b)) => same_fraction(a, b),
            (Figure::Fraction(_), _) => false,
            (_, Figure::Fraction(_)) => false,
            (a, b) => a == b,
        }),
;

/// Whether two documents are equal.
pub open spec fn alike(a: Json, b: Json) -> bool
    decreases a,
{
    match (a, b) {
        (Json::Null, Json::Null) => true,
        (Json::Bool(a), Json::Bool(b)) => a == b,
        (Json::Number(a), Json::Number(b)) => same_figure(a, b),
        (Json::Text(a), Json::Text(b)) => a == b,
        (Json::Array(a), Json::Array(b)) => {
            &&& a.len() == b.len()
            &&& forall|i: int| 0 <= i < a.len() ==> alike(#[trigger] a[i], b[i])
        },
        (Json::Object(a), Json::Object(b)) => {
            &&& a.dom() == b.dom()
            &&& forall|k: Seq<char>| #[trigger] a.dom().contains(k) ==> alike(a[k], b[k])
        },
        _ => false,
    }
}

pub proof fn lemma_items(s: Seq<Datum>)
    ensures
        items(s).len() == s.len(),
        forall|i: int| 0 <= i < s.len() ==> #[trigger] items(s)[i] == s[i].json(),
    decreases s.len(),
{
    if s.len() > 0 {
        lemma_items(s.drop_last());
        assert forall|i: int| 0 <= i < s.len() implies #[trigger] items(s)[i] == s[i].json() by {
            if i < s.len() - 1 {
                assert(items(s)[i] == items(s.drop_last())[i]);
            }
        }
    }
}

pub proof fn lemma_item_smaller(v: Json, i: int)
    requires
        v is Array,
        0 <= i < v->Array_0.len(),
    ensures
        decreases_to!(v => v->Array_0[i]),
{
    let s = v->Array_0;
    assert(decreases_to!(v => v->Array_0));
    assert(decreases_to!(s => s[i]));
}

pub proof fn lemma_member_smaller(v: Json, k: Seq<char>)
    requires
        v is Object,
        v->Object_0.dom().finite(),
        v->Object_0.dom().contains(k),
    ensures
        decreases_to!(v => v->Object_0[k]),
{
    let m = v->Object_0;
    assert(decreases_to!(v => v->Object_0));
    assert(decreases_to!(m => m[k]));
}

/// Whether the member at `i` is the one that counts for its name.
pub open spec fn decides(s: Seq<(String, Datum)>, i: int) -> bool {
    &&& 0 <= i < s.len()
    &&& forall|j: int| i < j < s.len() ==> (#[trigger] s[j]).0@ != s[i].0@
}

pub proof fn lemma_decides(s: Seq<(String, Datum)>, i: int)
    requires
        decides(s, i),
    ensures
        members(s).dom().contains(s[i].0@),
        members(s)[s[i].0@] == s[i].1.json(),
    decreases s.len(),
{
    if i < s.len() - 1 {
        assert(s[s.len() - 1].0@ != s[i].0@);
        assert forall|j: int| i < j < s.drop_last().len() implies (#[trigger] s.drop_last()[j]).0@
            != s.drop_last()[i].0@ by {
            assert(s.drop_last()[j] == s[j]);
        }
        lemma_decides(s.drop_last(), i);
    }
}

pub proof fn lemma_members_from(s: Seq<(String, Datum)>, name: Seq<char>)
    ensures
        members(s).dom().contains(name) <==> exists|i: int|
            0 <= i < s.len() && (#[trigger] s[i]).0@ == name,
        members(s).dom().finite(),
    decreases s.len(),
{
    if s.len() > 0 {
        lemma_members_from(s.drop_last(), name);
        if exists|i: int| 0 <= i < s.len() && (#[trigger] s[i]).0@ == name {
            let i = choose|i: int| 0 <= i < s.len() && (#[trigger] s[i]).0@ == name;
            if i < s.len() - 1 {
                assert(s.drop_last()[i].0@ == name);
            }
        }
        if exists|i: int| 0 <= i < s.drop_last().len() && (#[trigger] s.drop_last()[i]).0@ == name {
            let i = choose|i: int|
                0 <= i < s.drop_last().len() && (#[trigger] s.drop_last()[i]).0@ == name;
            assert(s[i].0@ == name);
        }
        if s.last().0@ == name {
            assert(s[s.len() - 1].0@ == name);
        }
    }
}

/// The value of a member is a document of its own.
pub proof fn lemma_member_is_document(s: Seq<(String, Datum)>, name: Seq<char>) -> (d: Datum)
    requires
        members(s).dom().contains(name),
    ensures
        d@ == members(s)[name],
    decreases s.len(),
{
    if s.last().0@ == name {
        s.last().1
    } else {
        lemma_member_is_document(s.drop_last(), name)
    }
}

proof fn lemma_members_remove(s: Seq<(String, Datum)>, i: int, name: Seq<char>)
    requires
        0 <= i < s.len(),
        s[i].0@ != name,
    ensures
        member(members(s.remove(i)), name) == member(members(s), name),
    decreases s.len(),
{
    if i == s.len() - 1 {
        assert(s.remove(i) =~= s.drop_last());
    } else {
        lemma_members_remove(s.drop_last(), i, name);
        assert(s.remove(i).drop_last() =~= s.drop_last().remove(i));
        assert(s.remove(i).last() == s.last());
    }
}

/// Where the member that counts for a name is.
pub fn position(entries: &Vec<(String, Datum)>, name: &str) -> (r: Option<usize>)
    ensures
        match r {
            Some(i) => decides(entries@, i as int) && entries@[i as int].0@ == name@ && member(
                members(entries@),
                name@,
            ) == Some(entries@[i as int].1@),
            None => member(members(entries@), name@) is None && forall|i: int|
                0 <= i < entries@.len() ==> (#[trigger] entries@[i]).0@ != name@,
        },
{
    let mut i: usize = entries.len();
    while i > 0
        invariant
            i <= entries@.len(),
            forall|j: int| i <= j < entries@.len() ==> (#[trigger] entries@[j]).0@ != name@,
        decreases i,
    {
        i -= 1;
        if text::equal(entries[i].0.as_str(), name) {
            proof {
                lemma_decides(entries@, i as int);
            }
            return Some(i);
        }
    }
    proof {
        lemma_members_from(entries@, name@);
    }
    None
}

/// The value of a member, when there is one.
pub fn get<'a>(entries: &'a Vec<(String, Datum)>, name: &str) -> (r: Option<&'a Datum>)
    ensures
        match r {
            Some(v) => member(members(entries@), name@) == Some(v@),
            None => member(members(entries@), name@) is None,
        },
{
    match position(entries, name) {
        Some(i) => Some(&entries[i].1),
        None => None,
    }
}

/// Take a member away.
pub fn drop_member(entries: &mut Vec<(String, Datum)>, name: &str) -> (r: Option<Datum>)
    ensures
        members(final(entries)@) == members(old(entries)@).remove(name@),
        match r {
            Some(v) => member(members(old(entries)@), name@) == Some(v@),
            None => member(members(old(entries)@), name@) is None,
        },
        r is None ==> final(entries)@ == old(entries)@,
{
    let ghost was = members(entries@);
    let mut taken: Option<Datum> = None;
    let mut next = position(entries, name);
    let ghost before = entries@;
    while next.is_some()
        invariant
            match next {
                Some(i) => i < entries@.len() && entries@[i as int].0@ == name@ && member(
                    members(entries@),
                    name@,
                ) == Some(entries@[i as int].1@),
                None => member(members(entries@), name@) is None,
            },
            forall|k: Seq<char>| k != name@ ==> #[trigger] member(members(entries@), k) == member(was, k),
            match taken {
                Some(v) => member(was, name@) == Some(v@),
                None => member(members(entries@), name@) == member(was, name@) && entries@ == before,
            },
        decreases entries@.len(),
    {
        let i: usize = next.unwrap();
        let ghost s = entries@;
        let gone = entries.remove(i);
        proof {
            assert(entries@ =~= s.remove(i as int));
            assert forall|k: Seq<char>| k != name@ implies #[trigger] member(members(entries@), k) == member(
                was,
                k,
            ) by {
                lemma_members_remove(s, i as int, k);
                assert(member(members(s), k) == member(was, k));
            }
        }
        if taken.is_none() {
            taken = Some(gone.1);
        }
        next = position(entries, name);
    }
    proof {
        assert forall|k: Seq<char>| member(members(entries@), k) == #[trigger] member(was.remove(name@), k) by {}
        assert forall|k: Seq<char>| members(entries@).dom().contains(k) == was.remove(name@).dom().contains(k) by {
            assert(member(members(entries@), k) == member(was.remove(name@), k));
        }
        assert forall|k: Seq<char>| #[trigger] members(entries@).dom().contains(k) implies members(entries@)[k]
            == was.remove(name@)[k] by {
            assert(member(members(entries@), k) == member(was.remove(name@), k));
        }
        assert(members(entries@) =~= was.remove(name@));
    }
    taken
}

/// Set a member, in the place of the one with its name.
pub fn put(entries: &mut Vec<(String, Datum)>, name: String, value: Datum)
    ensures
        members(final(entries)@) == members(old(entries)@).insert(name@, value@),
{
    let ghost was = members(entries@);
    drop_member(entries, name.as_str());
    let ghost s = entries@;
    entries.push((name, value));
    proof {
        assert(entries@.drop_last() =~= s);
        assert(was.remove(name@).insert(name@, value@) =~= was.insert(name@, value@));
    }
}

/// The names of the members, in their order.
pub fn names(entries: &Vec<(String, Datum)>) -> (r: Vec<String>)
    ensures
        text::ascending(text::texts(r@)),
        text::texts(r@).to_set() == members(entries@).dom(),
        text::texts(r@) == text::listing(members(entries@).dom()),
{
    let mut r: Vec<String> = Vec::new();
    let mut i: usize = 0;
    assert(text::texts(r@).to_set() =~= members(entries@.take(0)).dom());
    while i < entries.len()
        invariant
            i <= entries@.len(),
            text::ascending(text::texts(r@)),
            text::texts(r@).to_set() == members(entries@.take(i as int)).dom(),
        decreases entries@.len() - i,
    {
        assert(entries@.take(i + 1).drop_last() =~= entries@.take(i as int));
        text::enlist(&mut r, entries[i].0.as_str());
        i += 1;
    }
    assert(entries@.take(i as int) =~= entries@);
    proof {
        text::lemma_listing(text::texts(r@));
    }
    r
}

impl Datum {
    /// A copy of a document.
    pub fn copy(&self) -> (r: Datum)
        ensures
            r@ == self@,
        decreases self@,
    {
        match self {
            Datum::Null => Datum::Null,
            Datum::Bool(b) => Datum::Bool(*b),
            Datum::Number(n) => Datum::Number(n.clone()),
            Datum::String(s) => Datum::String(s.clone()),
            Datum::Array(v) => {
                let mut r: Vec<Datum> = Vec::new();
                let mut i: usize = 0;
                assert(items(r@) =~= items(v@.take(0)));
                while i < v.len()
                    invariant
                        i <= v@.len(),
                        self == Datum::Array(*v),
                        items(r@) == items(v@.take(i as int)),
                    decreases v@.len() - i,
                {
                    let ghost was = r@;
                    assert(v@.take(i + 1).drop_last() =~= v@.take(i as int));
                    proof {
                        lemma_items(v@);
                        lemma_item_smaller(self@, i as int);
                    }
                    r.push(v[i].copy());
                    assert(r@.drop_last() =~= was);
                    i += 1;
                }
                assert(v@.take(i as int) =~= v@);
                Datum::Array(r)
            },
            Datum::Object(v) => {
                let all = names(v);
                let mut r: Vec<(String, Datum)> = Vec::new();
                let mut i: usize = 0;
                assert(members(r@) =~= members(v@).restrict(
                    text::texts(all@).take(0).to_set(),
                ));
                while i < all.len()
                    invariant
                        i <= all@.len(),
                        self@ == Json::Object(members(v@)),
                        members(r@) == members(v@).restrict(
                            text::texts(all@).take(i as int).to_set(),
                        ),
                        text::texts(all@).to_set() == members(v@).dom(),
                    decreases all@.len() - i,
                {
                    let ghost was = r@;
                    let ghost done = text::texts(all@).take(i as int).to_set();
                    let ghost k = all@[i as int]@;
                    assert(text::texts(all@)[i as int] == k);
                    proof {
                        text::lemma_take_set(text::texts(all@), i as int);
                    }
                    match get(v, all[i].as_str()) {
                        Some(value) => {
                            proof {
                                lemma_members_from(v@, k);
                                lemma_member_smaller(self@, k);
                            }
                            r.push((all[i].clone(), value.copy()));
                            assert(r@.drop_last() =~= was);
                            assert(members(r@) =~= members(v@).restrict(done.insert(k)));
                        },
                        None => {
                            assert(members(v@).dom().contains(k));
                        },
                    }
                    i += 1;
                }
                assert(text::texts(all@).take(i as int) =~= text::texts(all@));
                assert(members(r@) =~= members(v@));
                Datum::Object(r)
            },
        }
    }

    /// Whether two documents are equal.
    pub fn same(&self, other: &Datum) -> (r: bool)
        ensures
            r == alike(self@, other@),
        decreases self@,
    {
        match (self, other) {
            (Datum::Null, Datum::Null) => true,
            (Datum::Bool(a), Datum::Bool(b)) => *a == *b,
            (Datum::Number(a), Datum::Number(b)) => *a == *b,
            (Datum::String(a), Datum::String(b)) => text::equal(a.as_str(), b.as_str()),
            (Datum::Array(a), Datum::Array(b)) => {
                proof {
                    lemma_items(a@);
                    lemma_items(b@);
                }
                if a.len() != b.len() {
                    return false;
                }
                let mut i: usize = 0;
                while i < a.len()
                    invariant
                        i <= a@.len() == b@.len(),
                        self@ == Json::Array(items(a@)),
                        other@ == Json::Array(items(b@)),
                        items(a@).len() == a@.len(),
                        items(b@).len() == b@.len(),
                        forall|j: int| 0 <= j < a@.len() ==> #[trigger] items(a@)[j] == a@[j].json(),
                        forall|j: int| 0 <= j < b@.len() ==> #[trigger] items(b@)[j] == b@[j].json(),
                        forall|j: int|
                            0 <= j < i ==> alike(#[trigger] items(a@)[j], items(b@)[j]),
                    decreases a@.len() - i,
                {
                    assert(items(a@)[i as int] == a@[i as int]@);
                    assert(items(b@)[i as int] == b@[i as int]@);
                    proof {
                        lemma_item_smaller(self@, i as int);
                    }
                    if !a[i].same(&b[i]) {
                        return false;
                    }
                    i += 1;
                }
                true
            },
            (Datum::Object(a), Datum::Object(b)) => {
                let x = names(a);
                let y = names(b);
                let ghost m = members(a@);
                let ghost n = members(b@);
                if x.len() != y.len() {
                    assert(text::texts(x@) != text::texts(y@));
                    return false;
                }
                let mut i: usize = 0;
                while i < x.len()
                    invariant
                        i <= x@.len() == y@.len(),
                        self@ == Json::Object(m),
                        other@ == Json::Object(n),
                        m == members(a@),
                        n == members(b@),
                        text::texts(x@).to_set() == m.dom(),
                        text::texts(y@).to_set() == n.dom(),
                        text::texts(x@) == text::listing(m.dom()),
                        text::texts(y@) == text::listing(n.dom()),
                        forall|j: int|
                            0 <= j < i ==> text::texts(x@)[j] == #[trigger] text::texts(y@)[j],
                        forall|j: int|
                            0 <= j < i ==> alike(
                                m[#[trigger] text::texts(x@)[j]],
                                n[text::texts(x@)[j]],
                            ),
                    decreases x@.len() - i,
                {
                    let ghost k = text::texts(x@)[i as int];
                    assert(k == x@[i as int]@);
                    assert(text::texts(y@)[i as int] == y@[i as int]@);
                    assert(m.dom().contains(k));
                    if !text::equal(x[i].as_str(), y[i].as_str()) {
                        assert(m.dom() != n.dom());
                        return false;
                    }
                    assert(n.dom().contains(k));
                    match (get(a, x[i].as_str()), get(b, x[i].as_str())) {
                        (Some(p), Some(q)) => {
                            proof {
                                lemma_members_from(a@, k);
                                lemma_member_smaller(self@, k);
                            }
                            if !p.same(q) {
                                assert(!alike(m[k], n[k]));
                                return false;
                            }
                        },
                        _ => {
                            return false;
                        },
                    }
                    i += 1;
                }
                proof {
                    assert(text::texts(x@) =~= text::texts(y@));
                    assert forall|k: Seq<char>| #[trigger] m.dom().contains(k) implies alike(m[k], n[k]) by {
                        let j = choose|j: int| 0 <= j < text::texts(x@).len() && text::texts(x@)[j] == k;
                        assert(alike(m[text::texts(x@)[j]], n[text::texts(x@)[j]]));
                    }
                }
                true
            },
            _ => false,
        }
    }
}

/// `a` with `b` merged into it all the way down: objects are merged member by
/// member, arrays are put one after the other, and anything else is replaced.
pub open spec fn combined(a: Json, b: Json) -> Json
    decreases b,
{
    match (a, b) {
        (Json::Object(x), Json::Object(y)) => Json::Object(
            Map::new(
                |k: Seq<char>| x.dom().contains(k) || y.dom().contains(k),
                |k: Seq<char>|
                    if y.dom().contains(k) {
                        combined(
                            if x.dom().contains(k) {
                                x[k]
                            } else {
                                Json::Null
                            },
                            y[k],
                        )
                    } else {
                        x[k]
                    },
            ),
        ),
        (Json::Array(x), Json::Array(y)) => Json::Array(x + y),
        _ => b,
    }
}

/// `a` with the members of `b` in the place of its own, whatever they hold.
pub open spec fn overlaid(a: Json, b: Json) -> Json {
    match (a, b) {
        (Json::Object(x), Json::Object(y)) => Json::Object(x.union_prefer_right(y)),
        _ => b,
    }
}

/// What a member of `t` becomes under the patch `p`.
pub open spec fn old_member(t: Map<Seq<char>, Json>, k: Seq<char>) -> Json {
    if t.dom().contains(k) {
        t[k]
    } else {
        Json::Null
    }
}

spec fn patched_part(
    t: Map<Seq<char>, Json>,
    p: Map<Seq<char>, Json>,
    done: Set<Seq<char>>,
) -> Map<Seq<char>, Json> {
    Map::new(
        |k: Seq<char>|
            if done.contains(k) {
                p[k] != Json::Null
            } else {
                t.dom().contains(k)
            },
        |k: Seq<char>|
            if done.contains(k) {
                patched(old_member(t, k), p[k])
            } else {
                t[k]
            },
    )
}

spec fn combined_part(
    t: Map<Seq<char>, Json>,
    p: Map<Seq<char>, Json>,
    done: Set<Seq<char>>,
) -> Map<Seq<char>, Json> {
    Map::new(
        |k: Seq<char>| t.dom().contains(k) || done.contains(k),
        |k: Seq<char>|
            if done.contains(k) {
                combined(old_member(t, k), p[k])
            } else {
                t[k]
            },
    )
}

/// `target` with `patch` merged into it.
pub fn patch(target: Datum, change: &Datum) -> (r: Datum)
    ensures
        r@ == patched(target@, change@),
    decreases change@,
{
    let p = match change {
        Datum::Object(p) => p,
        _ => {
            return change.copy();
        },
    };
    let mut entries: Vec<(String, Datum)> = match target {
        Datum::Object(t) => t,
        _ => Vec::new(),
    };
    let ghost t = match target@ {
        Json::Object(t) => t,
        _ => Map::empty(),
    };
    let ghost m = members(p@);
    let all = names(p);
    let mut i: usize = 0;
    proof {
        let none = text::texts(all@).take(0).to_set();
        assert(none =~= Set::empty());
        assert(members(entries@) =~= patched_part(t, m, none));
    }
    while i < all.len()
        invariant
            i <= all@.len(),
            change@ == Json::Object(m),
            m == members(p@),
            text::texts(all@).to_set() == m.dom(),
            text::ascending(text::texts(all@)),
            members(entries@) == patched_part(t, m, text::texts(all@).take(i as int).to_set()),
        decreases all@.len() - i,
    {
        let ghost done = text::texts(all@).take(i as int).to_set();
        let ghost k = all@[i as int]@;
        assert(text::texts(all@)[i as int] == k);
        assert(m.dom().contains(k));
        proof {
            text::lemma_take_set(text::texts(all@), i as int);
            if done.contains(k) {
                let j = choose|j: int| 0 <= j < i && text::texts(all@).take(i as int)[j] == k;
                assert(text::before(text::texts(all@)[j], text::texts(all@)[i as int]));
                text::lemma_before_irreflexive(k);
            }
        }
        let old = drop_member(&mut entries, all[i].as_str());
        match get(p, all[i].as_str()) {
            Some(Datum::Null) => {
                assert(members(entries@) =~= patched_part(t, m, done.insert(k)));
            },
            Some(value) => {
                let old = match old {
                    Some(old) => old,
                    None => Datum::Null,
                };
                proof {
                    lemma_members_from(p@, k);
                    lemma_member_smaller(change@, k);
                    assert(old@ == old_member(t, k));
                }
                let merged = patch(old, value);
                put(&mut entries, all[i].clone(), merged);
                assert(value@ != Json::Null);
                assert(members(entries@) =~= patched_part(t, m, done.insert(k)));
            },
            None => {},
        }
        i += 1;
    }
    proof {
        assert(text::texts(all@).take(i as int) =~= text::texts(all@));
        let w = patched(target@, change@)->Object_0;
        assert(members(entries@) =~= w);
    }
    Datum::Object(entries)
}

/// `a` with `b` merged into it all the way down.
pub fn combine(a: Datum, b: &Datum) -> (r: Datum)
    ensures
        r@ == combined(a@, b@),
    decreases b@,
{
    match (a, b) {
        (Datum::Object(x), Datum::Object(y)) => {
            let mut entries = x;
            let ghost t = members(x@);
            let ghost m = members(y@);
            let all = names(y);
            let mut i: usize = 0;
            proof {
                let none = text::texts(all@).take(0).to_set();
                assert(none =~= Set::empty());
                assert(members(entries@) =~= combined_part(t, m, none));
            }
            while i < all.len()
                invariant
                    i <= all@.len(),
                    b@ == Json::Object(m),
                    m == members(y@),
                    text::texts(all@).to_set() == m.dom(),
                    text::ascending(text::texts(all@)),
                    members(entries@) == combined_part(
                        t,
                        m,
                        text::texts(all@).take(i as int).to_set(),
                    ),
                decreases all@.len() - i,
            {
                let ghost done = text::texts(all@).take(i as int).to_set();
                let ghost k = all@[i as int]@;
                assert(text::texts(all@)[i as int] == k);
                assert(m.dom().contains(k));
                proof {
                    text::lemma_take_set(text::texts(all@), i as int);
                    if done.contains(k) {
                        let j = choose|j: int|
                            0 <= j < i && text::texts(all@).take(i as int)[j] == k;
                        assert(text::before(text::texts(all@)[j], text::texts(all@)[i as int]));
                        text::lemma_before_irreflexive(k);
                    }
                }
                let old = match drop_member(&mut entries, all[i].as_str()) {
                    Some(old) => old,
                    None => Datum::Null,
                };
                match get(y, all[i].as_str()) {
                    Some(value) => {
                        proof {
                            lemma_members_from(y@, k);
                            lemma_member_smaller(b@, k);
                            assert(old@ == old_member(t, k));
                        }
                        let merged = combine(old, value);
                        put(&mut entries, all[i].clone(), merged);
                        assert(members(entries@) =~= combined_part(t, m, done.insert(k)));
                    },
                    None => {},
                }
                i += 1;
            }
            proof {
                assert(text::texts(all@).take(i as int) =~= text::texts(all@));
                let w = combined(a@, b@)->Object_0;
                assert(members(entries@) =~= w);
            }
            Datum::Object(entries)
        },
        (Datum::Array(x), Datum::Array(y)) => {
            let mut r = x;
            let mut i: usize = 0;
            let ghost t = items(x@);
            proof {
                lemma_items(y@);
            }
            assert(t + items(y@).take(0) =~= t);
            while i < y.len()
                invariant
                    i <= y@.len(),
                    items(y@).len() == y@.len(),
                    forall|j: int| 0 <= j < y@.len() ==> #[trigger] items(y@)[j] == y@[j].json(),
                    items(r@) == t + items(y@).take(i as int),
                decreases y@.len() - i,
            {
                let ghost was = r@;
                r.push(y[i].copy());
                assert(r@.drop_last() =~= was);
                assert(items(y@)[i as int] == y@[i as int].json());
                assert(t + items(y@).take(i + 1) =~= (t + items(y@).take(i as int)).push(
                    items(y@)[i as int],
                ));
                i += 1;
            }
            assert(items(y@).take(i as int) =~= items(y@));
            Datum::Array(r)
        },
        _ => b.copy(),
    }
}

/// `a` with the members of `b` in the place of its own.
pub fn overlay(a: Datum, b: &Datum) -> (r: Datum)
    ensures
        r@ == overlaid(a@, b@),
{
    match (a, b) {
        (Datum::Object(x), Datum::Object(y)) => {
            let mut entries = x;
            let mut i: usize = 0;
            let ghost t = members(x@);
            assert(t.union_prefer_right(members(y@.take(0))) =~= t);
            while i < y.len()
                invariant
                    i <= y@.len(),
                    members(entries@) == t.union_prefer_right(members(y@.take(i as int))),
                decreases y@.len() - i,
            {
                assert(y@.take(i + 1).drop_last() =~= y@.take(i as int));
                let ghost was = members(entries@);
                put(&mut entries, y[i].0.clone(), y[i].1.copy());
                assert(members(entries@) =~= t.union_prefer_right(members(y@.take(i + 1))));
                i += 1;
            }
            assert(y@.take(i as int) =~= y@);
            Datum::Object(entries)
        },
        _ => b.copy(),
    }
}

/// Take a document out of its place, and leave null there.
pub fn take(d: &mut Datum) -> (r: Datum)
    ensures
        r@ == old(d)@,
        final(d)@ == Json::Null,
{
    let mut r = Datum::Null;
    std::mem::swap(d, &mut r);
    r
}

/// A copy of the members of an object.
pub fn copied(entries: &Vec<(String, Datum)>) -> (r: Vec<(String, Datum)>)
    ensures
        members(r@) == members(entries@),
{
    let mut r: Vec<(String, Datum)> = Vec::new();
    let mut i: usize = 0;
    assert(entries@.take(0) =~= Seq::empty());
    while i < entries.len()
        invariant
            i <= entries@.len(),
            members(r@) == members(entries@.take(i as int)),
        decreases entries@.len() - i,
    {
        assert(entries@.take(i + 1).drop_last() =~= entries@.take(i as int));
        let ghost was = r@;
        r.push((entries[i].0.clone(), entries[i].1.copy()));
        assert(r@.drop_last() =~= was);
        i += 1;
    }
    assert(entries@.take(i as int) =~= entries@);
    r
}

/// Whether a document holds no number with a fraction, at any depth.
pub open spec fn without_fractions(v: Json) -> bool
    decreases v,
{
    match v {
        Json::Number(f) => !(f is Fraction),
        Json::Array(s) => forall|i: int| 0 <= i < s.len() ==> without_fractions(#[trigger] s[i]),
        Json::Object(m) => {
            &&& m.dom().finite()
            &&& forall|k: Seq<char>| #[trigger] m.dom().contains(k) ==> without_fractions(m[k])
        },
        _ => true,
    }
}

/// Two documents are equal when they are the same document: only numbers with
/// a fraction are compared by anything but what they are.
pub proof fn law_equal_documents_are_the_same(a: Json, b: Json)
    requires
        without_fractions(a),
    ensures
        alike(a, b) <==> a == b,
    decreases a,
{
    match (a, b) {
        (Json::Array(x), Json::Array(y)) => {
            assert forall|i: int| 0 <= i < x.len() && i < y.len() implies (alike(#[trigger] x[i], y[i])
                <==> x[i] == y[i]) by {
                lemma_item_smaller(a, i);
                law_equal_documents_are_the_same(x[i], y[i]);
            }
            if alike(a, b) {
                assert(x =~= y);
            }
        },
        (Json::Object(x), Json::Object(y)) => {
            assert forall|k: Seq<char>| #[trigger] x.dom().contains(k) implies (alike(x[k], y[k])
                <==> x[k] == y[k]) by {
                lemma_member_smaller(a, k);
                law_equal_documents_are_the_same(x[k], y[k]);
            }
            if alike(a, b) {
                assert(x =~= y);
            }
        },
        _ => {},
    }
}

/// Equal lists have the same length and equal elements at every place, equal
/// objects have the same names with equal values under each, and everything
/// that is neither is equal to its own kind alone.
pub proof fn law_equal_documents_are_equal_throughout(a: Json, b: Json)
    requires
        alike(a, b),
    ensures
        a is Null <==> b is Null,
        a is Bool <==> b is Bool,
        a is Number <==> b is Number,
        a is Text <==> b is Text,
        a is Array <==> b is Array,
        a is Object <==> b is Object,
        a is Bool ==> a->Bool_0 == b->Bool_0,
        a is Text ==> a->Text_0 == b->Text_0,
        a is Array ==> a->Array_0.len() == b->Array_0.len(),
        a is Array ==> forall|i: int|
            0 <= i < a->Array_0.len() ==> alike(#[trigger] a->Array_0[i], b->Array_0[i]),
        a is Object ==> forall|k: Seq<char>|
            a->Object_0.dom().contains(k) <==> #[trigger] b->Object_0.dom().contains(k),
        a is Object ==> forall|k: Seq<char>| #[trigger]
            a->Object_0.dom().contains(k) ==> alike(a->Object_0[k], b->Object_0[k]),
{
}

/// The full merge of two lists is the first list with the second behind it.
pub proof fn law_lists_are_put_one_after_the_other(x: Seq<Json>, y: Seq<Json>)
    ensures
        combined(Json::Array(x), Json::Array(y)) matches Json::Array(z) && {
            &&& z.len() == x.len() + y.len()
            &&& forall|i: int| 0 <= i < x.len() ==> #[trigger] z[i] == x[i]
            &&& forall|i: int| 0 <= i < y.len() ==> z[x.len() + i] == #[trigger] y[i]
        },
{
}

/// The full merge of two objects has the members of both. What one of them
/// alone has is kept as it is, and what both have is merged in the same way.
pub proof fn law_objects_are_combined_member_by_member(
    x: Map<Seq<char>, Json>,
    y: Map<Seq<char>, Json>,
    k: Seq<char>,
)
    requires
        y.dom().finite(),
    ensures
        combined(Json::Object(x), Json::Object(y)) matches Json::Object(z) && {
            &&& z.dom().contains(k) <==> x.dom().contains(k) || y.dom().contains(k)
            &&& x.dom().contains(k) && !y.dom().contains(k) ==> z[k] == x[k]
            &&& x.dom().contains(k) && y.dom().contains(k) ==> z[k] == combined(x[k], y[k])
            &&& !x.dom().contains(k) && y.dom().contains(k) ==> z[k] == combined(Json::Null, y[k])
        },
{
}

/// Whether a document is nothing but what it says at its top: no list and no
/// object.
pub open spec fn is_scalar(v: Json) -> bool {
    v is Null || v is Bool || v is Number || v is Text
}

/// A full merge of two values of which one is a list and the other is not, or
/// one an object and the other not, or neither is either, is the second.
pub proof fn law_what_cannot_be_combined_is_replaced(a: Json, b: Json)
    requires
        !(a is Array && b is Array),
        !(a is Object && b is Object),
    ensures
        combined(a, b) == b,
{
}

/// A merge patch keeps every member that it does not name, takes away those
/// that it names with null, and puts the others in, merging objects in the
/// same way; a list is replaced whole.
pub proof fn law_a_patch_changes_what_it_names(
    t: Map<Seq<char>, Json>,
    p: Map<Seq<char>, Json>,
    k: Seq<char>,
)
    requires
        p.dom().finite(),
    ensures
        patched(Json::Object(t), Json::Object(p)) matches Json::Object(z) && {
            &&& !p.dom().contains(k) ==> (z.dom().contains(k) <==> t.dom().contains(k))
            &&& !p.dom().contains(k) && t.dom().contains(k) ==> z[k] == t[k]
            &&& p.dom().contains(k) ==> (z.dom().contains(k) <==> !(p[k] is Null))
            &&& p.dom().contains(k) && (is_scalar(p[k]) || p[k] is Array) && !(p[k] is Null)
                ==> z[k] == p[k]
            &&& p.dom().contains(k) && p[k] is Object && t.dom().contains(k) ==> z[k] == patched(
                t[k],
                p[k],
            )
            &&& p.dom().contains(k) && p[k] is Object && !t.dom().contains(k) ==> z[k] == patched(
                Json::Object(Map::empty()),
                p[k],
            )
        },
{
    if p.dom().contains(k) && p[k] is Object && !t.dom().contains(k) {
        assert(patched(Json::Null, p[k]) == patched(Json::Object(Map::empty()), p[k]));
    }
}

/// A patch that is not an object takes the place of what it is put on, and an
/// object that is put on anything else is put on an empty object.
pub proof fn law_a_patch_replaces_what_is_no_object(t: Json, p: Json)
    ensures
        !(p is Object) ==> patched(t, p) == p,
        p is Object && !(t is Object) ==> patched(t, p) == patched(Json::Object(Map::empty()), p),
{
}

/// A replacing merge of two objects takes the members of the second whole and
/// keeps the members of the first that the second does not have; of anything
/// else it is the second.
pub proof fn law_a_replacement_is_whole(a: Json, b: Json, k: Seq<char>)
    ensures
        !(a is Object && b is Object) ==> overlaid(a, b) == b,
        a is Object && b is Object ==> {
            &&& overlaid(a, b) is Object
            &&& overlaid(a, b)->Object_0.dom().contains(k) <==> a->Object_0.dom().contains(k)
                || b->Object_0.dom().contains(k)
            &&& b->Object_0.dom().contains(k) ==> overlaid(a, b)->Object_0[k] == b->Object_0[k]
            &&& a->Object_0.dom().contains(k) && !b->Object_0.dom().contains(k) ==> overlaid(
                a,
                b,
            )->Object_0[k] == a->Object_0[k]
        },
{
}

/// Of two members with one name the later one counts.
pub proof fn law_the_last_member_of_a_name_counts(s: Seq<(String, Datum)>, one: (String, Datum))
    ensures
        members(Seq::empty()) == Map::<Seq<char>, Json>::empty(),
        members(s.push(one)) == members(s).insert(one.0@, one.1@),
{
    assert(s.push(one).drop_last() =~= s);
}

} // verus!
