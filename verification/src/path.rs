//! Paths as the names they are made of.
//!
//! A path is text.  What it addresses is decided by the names between its
//! separators: a separator that is repeated or that ends the path says
//! nothing, and neither does a `.` anywhere but at the start of a relative
//! path.

use vstd::prelude::*;

use crate::text;

verus! {

/// Whether a piece of a path stands for a name.
pub open spec fn counts(pieces: Seq<Seq<char>>, i: int) -> bool {
    &&& pieces[i].len() > 0
    &&& pieces[i] != seq!['.'] || i == 0
}

/// The names among the first `n` pieces of a path.
pub open spec fn names_of(pieces: Seq<Seq<char>>, n: nat) -> Seq<Seq<char>>
    decreases n,
{
    if n == 0 {
        Seq::empty()
    } else {
        let before = names_of(pieces, (n - 1) as nat);
        if counts(pieces, n - 1) {
            before.push(pieces[n - 1])
        } else {
            before
        }
    }
}

/// Whether a path starts at the root of the file system.
pub open spec fn is_rooted(path: Seq<char>) -> bool {
    path.len() > 0 && path[0] == '/'
}

/// The names that a path goes through.
pub open spec fn names(path: Seq<char>) -> Seq<Seq<char>> {
    let pieces = text::split(path, '/');
    names_of(pieces, pieces.len())
}

/// Whether two paths address the same file.
pub open spec fn same_route(a: Seq<char>, b: Seq<char>) -> bool {
    &&& is_rooted(a) == is_rooted(b)
    &&& names(a) == names(b)
}

/// `path` as seen from `base`: the path itself when it starts at the root,
/// and otherwise the path below the base.
pub open spec fn joined(base: Seq<char>, path: Seq<char>) -> Seq<char> {
    if is_rooted(path) || base.len() == 0 {
        path
    } else if base.last() == '/' {
        base + path
    } else {
        base + seq!['/'] + path
    }
}

/// A path spelled out of the names it goes through.
pub open spec fn spelled(names: Seq<Seq<char>>) -> Seq<char> {
    text::join(names, seq!['/'])
}

/// Whether a path goes back up somewhere on its way.
pub open spec fn climbs(path: Seq<char>) -> bool {
    names(path).contains(".."@)
}

/// Whether a path lies at or below `base`.
pub open spec fn lies_in(path: Seq<char>, base: Seq<char>) -> bool {
    &&& names(base).len() <= names(path).len()
    &&& names(path).take(names(base).len() as int) == names(base)
    &&& is_rooted(base) ==> is_rooted(path)
    &&& is_rooted(path) && !is_rooted(base) ==> names(base).len() == 0
}

/// What is left of a path below `base`: the names that the base does not go
/// through, spelled out.  A base that says nothing leaves the path as it is.
pub open spec fn below(path: Seq<char>, base: Seq<char>) -> Option<Seq<char>> {
    if !lies_in(path, base) {
        None
    } else if is_rooted(path) && !is_rooted(base) {
        Some(seq!['/'] + spelled(names(path)))
    } else {
        Some(spelled(names(path).skip(names(base).len() as int)))
    }
}

/// Whether the last names of a path are those of `tail`.
pub open spec fn ends_in(path: Seq<char>, tail: Seq<char>) -> bool {
    if is_rooted(tail) {
        same_route(path, tail)
    } else {
        &&& names(tail).len() <= names(path).len()
        &&& names(path).skip(names(path).len() - names(tail).len()) == names(tail)
    }
}

/// The order of paths: the first name that differs decides, and a path comes
/// before everything below it.
pub open spec fn route_before(a: Seq<Seq<char>>, b: Seq<Seq<char>>) -> bool
    decreases a.len(),
{
    if b.len() == 0 {
        false
    } else if a.len() == 0 {
        true
    } else if a[0] == b[0] {
        route_before(a.drop_first(), b.drop_first())
    } else {
        text::before(a[0], b[0])
    }
}

/// Whether a string starts at the root of the file system.
pub fn rooted(path: &str) -> (r: bool)
    ensures
        r == is_rooted(path@),
{
    let cs = text::chars_of(path);
    cs.len() > 0 && cs[0] == '/'
}

/// The names that a path goes through.
pub fn parts(path: &str) -> (r: Vec<String>)
    ensures
        text::texts(r@) == names(path@),
{
    let pieces = text::pieces(path, '/');
    let ghost all = text::split(path@, '/');
    let mut r: Vec<String> = Vec::new();
    let mut i: usize = 0;
    assert(text::texts(r@) =~= names_of(all, 0));
    while i < pieces.len()
        invariant
            i <= pieces@.len(),
            all == text::texts(pieces@),
            text::texts(r@) == names_of(all, i as nat),
        decreases pieces@.len() - i,
    {
        let ghost was = r@;
        assert(all[i as int] == pieces@[i as int]@);
        proof {
            reveal_strlit(".");
            assert("."@ =~= seq!['.']);
        }
        if !text::equal(pieces[i].as_str(), "") && (i == 0 || !text::equal(pieces[i].as_str(), ".")) {
            proof {
                reveal_strlit("");
                if pieces@[i as int]@.len() == 0 {
                    assert(pieces@[i as int]@ =~= ""@);
                }
            }
            r.push(pieces[i].clone());
            assert(text::texts(r@) =~= text::texts(was).push(all[i as int]));
        } else {
            proof {
                reveal_strlit("");
            }
        }
        i += 1;
    }
    r
}

/// Whether two sequences of names are the same.
pub fn same_names(a: &Vec<String>, b: &Vec<String>) -> (r: bool)
    ensures
        r == (text::texts(a@) == text::texts(b@)),
{
    if a.len() != b.len() {
        assert(text::texts(a@).len() != text::texts(b@).len());
        return false;
    }
    names_at(a, 0, b)
}

/// Whether the names of `b` stand in `a` from position `at` on.
pub fn names_at(a: &Vec<String>, at: usize, b: &Vec<String>) -> (r: bool)
    requires
        at + b@.len() <= a@.len(),
    ensures
        r == (text::texts(a@).subrange(at as int, at + b@.len()) == text::texts(b@)),
        at == 0 && a@.len() == b@.len() ==> r == (text::texts(a@) == text::texts(b@)),
{
    let ghost part = text::texts(a@).subrange(at as int, at + b@.len());
    proof {
        if at == 0 && a@.len() == b@.len() {
            assert(part =~= text::texts(a@));
        }
    }
    let mut i: usize = 0;
    while i < b.len()
        invariant
            i <= b@.len(),
            at + b@.len() <= a.len(),
            part == text::texts(a@).subrange(at as int, at + b@.len()),
            forall|j: int| 0 <= j < i ==> part[j] == text::texts(b@)[j],
        decreases b@.len() - i,
    {
        if !text::equal(a[at + i].as_str(), b[i].as_str()) {
            assert(part[i as int] != text::texts(b@)[i as int]);
            return false;
        }
        assert(part[i as int] == text::texts(b@)[i as int]);
        i += 1;
    }
    assert(part =~= text::texts(b@));
    true
}

/// `path` as seen from `base`.
pub fn join(base: &str, path: &str) -> (r: String)
    ensures
        r@ == joined(base@, path@),
{
    let cs = text::chars_of(base);
    if rooted(path) || cs.len() == 0 {
        path.to_owned()
    } else {
        let mut r = base.to_owned();
        if cs[cs.len() - 1] != '/' {
            r.push('/');
            assert(r@ =~= base@ + seq!['/']);
        }
        r.append(path);
        r
    }
}

/// The names from position `from` on, spelled as a path.
pub fn spell(names: &Vec<String>, from: usize) -> (r: String)
    requires
        from <= names@.len(),
    ensures
        r@ == spelled(text::texts(names@).skip(from as int)),
{
    let mut tail: Vec<String> = Vec::new();
    let mut i: usize = from;
    while i < names.len()
        invariant
            from <= i <= names@.len(),
            tail@.len() == i - from,
            forall|j: int| 0 <= j < tail@.len() ==> (#[trigger] tail@[j])@ == names@[from + j]@,
        decreases names@.len() - i,
    {
        tail.push(names[i].clone());
        i += 1;
    }
    assert(text::texts(tail@) =~= text::texts(names@).skip(from as int));
    proof {
        reveal_strlit("/");
        assert("/"@ =~= seq!['/']);
    }
    text::joined(&tail, "/")
}

/// What is left of a path below `base`, when it lies there.
pub fn strip(path: &str, base: &str) -> (r: Option<String>)
    ensures
        text::text_of(r) == below(path@, base@),
{
    let names = parts(path);
    let prefix = parts(base);
    let ghost all = self::names(path@);
    let ghost ahead = self::names(base@);
    assert(all.len() == names@.len());
    assert(ahead.len() == prefix@.len());
    if prefix.len() > names.len() {
        return None;
    }
    assert(all.take(prefix@.len() as int) =~= all.subrange(0, prefix@.len() as int));
    if !names_at(&names, 0, &prefix) {
        return None;
    }
    if rooted(base) && !rooted(path) {
        return None;
    }
    if rooted(path) && !rooted(base) {
        if prefix.len() > 0 {
            return None;
        }
        let mut r = String::new();
        r.push('/');
        r.append(spell(&names, 0).as_str());
        assert(all.skip(0) =~= all);
        assert(r@ =~= seq!['/'] + spelled(all));
        return Some(r);
    }
    Some(spell(&names, prefix.len()))
}

/// Whether two paths address the same file.
pub fn same(a: &str, b: &str) -> (r: bool)
    ensures
        r == same_route(a@, b@),
{
    rooted(a) == rooted(b) && same_names(&parts(a), &parts(b))
}

/// Whether the last names of a path are those of `tail`.
pub fn ends(path: &str, tail: &str) -> (r: bool)
    ensures
        r == ends_in(path@, tail@),
{
    if rooted(tail) {
        return same(path, tail);
    }
    let all = parts(path);
    let last = parts(tail);
    assert(names(path@).len() == all@.len());
    assert(names(tail@).len() == last@.len());
    if last.len() > all.len() {
        return false;
    }
    let at: usize = all.len() - last.len();
    assert(names(path@).skip(at as int) =~= names(path@).subrange(at as int, at + last@.len()));
    names_at(&all, at, &last)
}

/// Whether a path goes back up somewhere on its way.
pub fn climbing(path: &str) -> (r: bool)
    ensures
        r == climbs(path@),
{
    text::listed(&parts(path), "..")
}

/// Whether one sequence of names comes before another.
pub fn names_before(a: &Vec<String>, b: &Vec<String>) -> (r: bool)
    ensures
        r == route_before(text::texts(a@), text::texts(b@)),
{
    let ghost x = text::texts(a@);
    let ghost y = text::texts(b@);
    let mut i: usize = 0;
    assert(x.skip(0) =~= x);
    assert(y.skip(0) =~= y);
    while i < a.len() && i < b.len() && text::equal(a[i].as_str(), b[i].as_str())
        invariant
            x == text::texts(a@),
            y == text::texts(b@),
            i <= a@.len(),
            i <= b@.len(),
            route_before(x.skip(i as int), y.skip(i as int)) == route_before(x, y),
        decreases a@.len() - i,
    {
        assert(x.skip(i as int)[0] == x[i as int]);
        assert(y.skip(i as int)[0] == y[i as int]);
        assert(x.skip(i as int).drop_first() =~= x.skip(i + 1));
        assert(y.skip(i as int).drop_first() =~= y.skip(i + 1));
        i += 1;
    }
    if i == b.len() {
        false
    } else if i == a.len() {
        true
    } else {
        assert(x.skip(i as int)[0] == x[i as int]);
        assert(y.skip(i as int)[0] == y[i as int]);
        text::less(a[i].as_str(), b[i].as_str())
    }
}

pub proof fn lemma_route_before_irreflexive(a: Seq<Seq<char>>)
    ensures
        !route_before(a, a),
    decreases a.len(),
{
    if a.len() > 0 {
        lemma_route_before_irreflexive(a.drop_first());
    }
}

pub proof fn lemma_route_before_transitive(a: Seq<Seq<char>>, b: Seq<Seq<char>>, c: Seq<Seq<char>>)
    requires
        route_before(a, b),
        route_before(b, c),
    ensures
        route_before(a, c),
    decreases a.len(),
{
    if a.len() > 0 && b.len() > 0 && c.len() > 0 {
        if a[0] == b[0] && b[0] == c[0] {
            lemma_route_before_transitive(a.drop_first(), b.drop_first(), c.drop_first());
        } else if a[0] != b[0] && b[0] != c[0] {
            text::lemma_before_transitive(a[0], b[0], c[0]);
            text::lemma_before_irreflexive(a[0]);
        }
    }
}

pub proof fn lemma_route_before_total(a: Seq<Seq<char>>, b: Seq<Seq<char>>)
    requires
        a != b,
    ensures
        route_before(a, b) || route_before(b, a),
    decreases a.len(),
{
    if a.len() == 0 {
        if b.len() == 0 {
            assert(a =~= b);
        }
    } else if b.len() > 0 {
        if a[0] == b[0] {
            if a.drop_first() == b.drop_first() {
                assert(a =~= seq![a[0]] + a.drop_first());
                assert(b =~= seq![b[0]] + b.drop_first());
            }
            lemma_route_before_total(a.drop_first(), b.drop_first());
        } else {
            text::lemma_before_total(a[0], b[0]);
        }
    }
}

/// The name of the file that a path addresses, when it ends in one.
pub open spec fn last_name(path: Seq<char>) -> Option<Seq<char>> {
    let all = names(path);
    if all.len() == 0 || all.last() == ".."@ || all.last() == "."@ {
        None
    } else {
        Some(all.last())
    }
}

/// The name of the file that a path addresses, when it ends in one.
pub fn file_name(path: &str) -> (r: Option<String>)
    ensures
        text::text_of(r) == last_name(path@),
{
    let all = parts(path);
    assert(names(path@).len() == all@.len());
    if all.len() == 0 {
        return None;
    }
    let i: usize = all.len() - 1;
    assert(names(path@).last() == all@[i as int]@);
    if text::equal(all[i].as_str(), "..") || text::equal(all[i].as_str(), ".") {
        None
    } else {
        Some(all[i].clone())
    }
}

/// Whether paths stand in their order, each of them once.
pub open spec fn in_path_order(s: Seq<Seq<char>>) -> bool {
    forall|i: int, j: int|
        0 <= i < j < s.len() ==> route_before(names(#[trigger] s[i]), names(#[trigger] s[j]))
}

/// Whether a list of paths holds one that goes through the same names.
pub open spec fn holds_route(s: Seq<Seq<char>>, path: Seq<char>) -> bool {
    exists|i: int| 0 <= i < s.len() && names(#[trigger] s[i]) == names(path)
}

/// Paths in their order, and one more in its place unless it is there already.
pub open spec fn with_path(s: Seq<Seq<char>>, path: Seq<char>) -> Seq<Seq<char>>
    decreases s.len(),
{
    if s.len() == 0 {
        seq![path]
    } else if names(s[0]) == names(path) {
        s
    } else if route_before(names(path), names(s[0])) {
        seq![path] + s
    } else {
        seq![s[0]] + with_path(s.drop_first(), path)
    }
}

/// Paths put in their order, each of them once.
pub open spec fn path_set(s: Seq<Seq<char>>) -> Seq<Seq<char>>
    decreases s.len(),
{
    if s.len() == 0 {
        Seq::empty()
    } else {
        with_path(path_set(s.drop_last()), s.last())
    }
}

/// The paths of a list that another does not hold.
pub open spec fn without_paths(s: Seq<Seq<char>>, other: Seq<Seq<char>>) -> Seq<Seq<char>>
    decreases s.len(),
{
    if s.len() == 0 {
        Seq::empty()
    } else {
        let before = without_paths(s.drop_last(), other);
        if holds_route(other, s.last()) {
            before
        } else {
            before.push(s.last())
        }
    }
}

proof fn lemma_with_path_later(s: Seq<Seq<char>>, path: Seq<char>, first: Seq<Seq<char>>)
    requires
        forall|i: int| 0 <= i < s.len() ==> route_before(first, names(#[trigger] s[i])),
        route_before(first, names(path)),
    ensures
        forall|i: int|
            0 <= i < with_path(s, path).len() ==> route_before(
                first,
                names(#[trigger] with_path(s, path)[i]),
            ),
    decreases s.len(),
{
    if s.len() > 0 && names(s[0]) != names(path) && !route_before(names(path), names(s[0])) {
        lemma_with_path_later(s.drop_first(), path, first);
        let r = with_path(s, path);
        assert forall|i: int| 0 <= i < r.len() implies route_before(first, names(#[trigger] r[i])) by {
            if i > 0 {
                assert(r[i] == with_path(s.drop_first(), path)[i - 1]);
            }
        }
    } else if s.len() > 0 && names(s[0]) != names(path) {
        let r = with_path(s, path);
        assert forall|i: int| 0 <= i < r.len() implies route_before(first, names(#[trigger] r[i])) by {
            if i > 0 {
                assert(r[i] == s[i - 1]);
            }
        }
    }
}

/// Paths in their order stay in it when one is put among them.
pub proof fn lemma_with_path_ordered(s: Seq<Seq<char>>, path: Seq<char>)
    requires
        in_path_order(s),
    ensures
        in_path_order(with_path(s, path)),
    decreases s.len(),
{
    let r = with_path(s, path);
    if s.len() == 0 || names(s[0]) == names(path) {
    } else if route_before(names(path), names(s[0])) {
        assert forall|i: int, j: int| 0 <= i < j < r.len() implies route_before(
            names(#[trigger] r[i]),
            names(#[trigger] r[j]),
        ) by {
            assert(r[j] == s[j - 1]);
            if i == 0 {
                if j > 1 {
                    lemma_route_before_transitive(names(path), names(s[0]), names(s[j - 1]));
                }
            } else {
                assert(r[i] == s[i - 1]);
            }
        }
    } else {
        let rest = s.drop_first();
        assert forall|i: int, j: int| 0 <= i < j < rest.len() implies route_before(
            names(#[trigger] rest[i]),
            names(#[trigger] rest[j]),
        ) by {
            assert(rest[i] == s[i + 1] && rest[j] == s[j + 1]);
        }
        lemma_with_path_ordered(rest, path);
        lemma_route_before_total(names(s[0]), names(path));
        assert forall|i: int| 0 <= i < rest.len() implies route_before(
            names(s[0]),
            names(#[trigger] rest[i]),
        ) by {
            assert(rest[i] == s[i + 1]);
        }
        lemma_with_path_later(rest, path, names(s[0]));
        let inner = with_path(rest, path);
        assert forall|i: int, j: int| 0 <= i < j < r.len() implies route_before(
            names(#[trigger] r[i]),
            names(#[trigger] r[j]),
        ) by {
            assert(r[j] == inner[j - 1]);
            if i > 0 {
                assert(r[i] == inner[i - 1]);
            }
        }
    }
}

/// Putting a path among others adds it, and takes nothing away.
pub proof fn lemma_with_path_holds(s: Seq<Seq<char>>, path: Seq<char>, other: Seq<char>)
    ensures
        holds_route(with_path(s, path), other) <==> holds_route(s, other) || names(other) == names(
            path,
        ),
    decreases s.len(),
{
    let r = with_path(s, path);
    if s.len() == 0 {
        assert(r[0] == path);
    } else if names(s[0]) == names(path) {
        assert(holds_route(s, path));
    } else if route_before(names(path), names(s[0])) {
        assert(r[0] == path);
        if holds_route(s, other) {
            let i = choose|i: int| 0 <= i < s.len() && names(#[trigger] s[i]) == names(other);
            assert(r[i + 1] == s[i]);
        }
        if holds_route(r, other) && names(other) != names(path) {
            let i = choose|i: int| 0 <= i < r.len() && names(#[trigger] r[i]) == names(other);
            assert(r[i] == s[i - 1]);
        }
    } else {
        let rest = s.drop_first();
        let inner = with_path(rest, path);
        lemma_with_path_holds(rest, path, other);
        assert(r[0] == s[0]);
        if holds_route(s, other) {
            let i = choose|i: int| 0 <= i < s.len() && names(#[trigger] s[i]) == names(other);
            if i > 0 {
                assert(rest[i - 1] == s[i]);
                assert(holds_route(rest, other));
            } else {
                assert(names(r[0]) == names(other));
            }
        }
        if holds_route(inner, other) {
            let i = choose|i: int| 0 <= i < inner.len() && names(#[trigger] inner[i]) == names(other);
            assert(r[i + 1] == inner[i]);
        }
        if holds_route(r, other) {
            let i = choose|i: int| 0 <= i < r.len() && names(#[trigger] r[i]) == names(other);
            if i > 0 {
                assert(inner[i - 1] == r[i]);
                assert(holds_route(inner, other));
                if holds_route(rest, other) {
                    let k = choose|k: int|
                        0 <= k < rest.len() && names(#[trigger] rest[k]) == names(other);
                    assert(s[k + 1] == rest[k]);
                }
            } else {
                assert(names(s[0]) == names(other));
            }
        }
    }
}

/// A set of paths stands in order, and holds what it was made of.
pub proof fn lemma_path_set(s: Seq<Seq<char>>, path: Seq<char>)
    ensures
        in_path_order(path_set(s)),
        holds_route(path_set(s), path) <==> holds_route(s, path),
    decreases s.len(),
{
    if s.len() > 0 {
        let less = s.drop_last();
        lemma_path_set(less, path);
        lemma_with_path_ordered(path_set(less), s.last());
        lemma_with_path_holds(path_set(less), s.last(), path);
        if holds_route(less, path) {
            let i = choose|i: int| 0 <= i < less.len() && names(#[trigger] less[i]) == names(path);
            assert(s[i] == less[i]);
        }
        if names(path) == names(s.last()) {
            assert(names(s[s.len() - 1]) == names(path));
        }
        if holds_route(s, path) && names(path) != names(s.last()) {
            let i = choose|i: int| 0 <= i < s.len() && names(#[trigger] s[i]) == names(path);
            assert(less[i] == s[i]);
        }
    }
}

/// Put a path among others, unless it is there already.
pub fn enlist(list: &mut Vec<String>, path: &str)
    ensures
        text::texts(final(list)@) == with_path(text::texts(old(list)@), path@),
{
    let ghost was = text::texts(list@);
    let wanted = parts(path);
    let mut i: usize = 0;
    let n: usize = list.len();
    assert(was.take(0) + with_path(was.skip(0), path@) =~= with_path(was, path@)) by {
        assert(was.skip(0) =~= was);
    }
    while i < n
        invariant
            i <= n == list@.len(),
            was == text::texts(list@),
            was == text::texts(old(list)@),
            text::texts(wanted@) == names(path@),
            was.take(i as int) + with_path(was.skip(i as int), path@) == with_path(was, path@),
        decreases n - i,
    {
        let there = parts(list[i].as_str());
        let ghost rest = was.skip(i as int);
        assert(rest[0] == list@[i as int]@);
        if same_names(&there, &wanted) {
            assert(was.take(i as int) + rest =~= was);
            return ;
        }
        if names_before(&wanted, &there) {
            list.insert(i, path.to_owned());
            assert(text::texts(list@) =~= was.take(i as int) + (seq![path@] + rest));
            return ;
        }
        assert(rest.drop_first() =~= was.skip(i + 1));
        assert(was.take(i as int) + (seq![rest[0]] + with_path(rest.drop_first(), path@)) =~= was.take(
            i + 1,
        ) + with_path(was.skip(i + 1), path@));
        i += 1;
    }
    assert(was.skip(n as int) =~= Seq::empty());
    assert(was.take(n as int) =~= was);
    list.push(path.to_owned());
    assert(text::texts(list@) =~= was + seq![path@]);
}

/// Whether a list of paths holds one that goes through the same names.
pub fn listed(list: &Vec<String>, path: &str) -> (r: bool)
    ensures
        r == holds_route(text::texts(list@), path@),
{
    let ghost all = text::texts(list@);
    let wanted = parts(path);
    let mut i: usize = 0;
    while i < list.len()
        invariant
            i <= list@.len(),
            all == text::texts(list@),
            text::texts(wanted@) == names(path@),
            forall|j: int| 0 <= j < i ==> names(#[trigger] all[j]) != names(path@),
        decreases list@.len() - i,
    {
        assert(all[i as int] == list@[i as int]@);
        if same_names(&parts(list[i].as_str()), &wanted) {
            return true;
        }
        i += 1;
    }
    false
}

/// The paths of a list that another does not hold.
pub fn missing(list: &Vec<String>, other: &Vec<String>) -> (r: Vec<String>)
    ensures
        text::texts(r@) == without_paths(text::texts(list@), text::texts(other@)),
{
    let ghost all = text::texts(list@);
    let mut r: Vec<String> = Vec::new();
    let mut i: usize = 0;
    assert(text::texts(r@) =~= without_paths(all.take(0), text::texts(other@)));
    while i < list.len()
        invariant
            i <= list@.len(),
            all == text::texts(list@),
            text::texts(r@) == without_paths(all.take(i as int), text::texts(other@)),
        decreases list@.len() - i,
    {
        proof {
            assert(all.take(i + 1).drop_last() =~= all.take(i as int));
            assert(all.take(i + 1).last() == list@[i as int]@);
        }
        if !listed(other, list[i].as_str()) {
            let ghost had = text::texts(r@);
            r.push(list[i].clone());
            assert(text::texts(r@) =~= had.push(list@[i as int]@));
        }
        i += 1;
    }
    assert(all.take(i as int) =~= all);
    r
}

proof fn lemma_names_of_two(x: Seq<Seq<char>>, y: Seq<Seq<char>>, n: nat)
    requires
        n <= y.len(),
        x.len() > 0,
        y.len() > 0 ==> y[0] != seq!['.'],
    ensures
        names_of(x + y, x.len() + n) == names_of(x, x.len()) + names_of(y, n),
    decreases n,
{
    if n == 0 {
        lemma_names_of_front(x, y, x.len());
        assert(names_of(x, x.len()) + names_of(y, 0) =~= names_of(x, x.len()));
    } else {
        lemma_names_of_two(x, y, (n - 1) as nat);
        let i = x.len() + n - 1;
        assert((x + y)[i] == y[n - 1]);
        assert(counts(x + y, i) == counts(y, n - 1));
        if counts(y, n - 1) {
            assert(names_of(x + y, x.len() + n) =~= names_of(x, x.len()) + names_of(y, n));
        }
    }
}

proof fn lemma_names_of_front(x: Seq<Seq<char>>, y: Seq<Seq<char>>, n: nat)
    requires
        n <= x.len(),
    ensures
        names_of(x + y, n) == names_of(x, n),
    decreases n,
{
    if n > 0 {
        lemma_names_of_front(x, y, (n - 1) as nat);
        assert((x + y)[n - 1] == x[n - 1]);
        assert(counts(x + y, n - 1) == counts(x, n - 1));
    }
}

/// A path below another goes through the names of both.
pub proof fn lemma_names_joined(a: Seq<char>, b: Seq<char>)
    requires
        text::split(b, '/')[0] != seq!['.'],
    ensures
        names(a + seq!['/'] + b) == names(a) + names(b),
{
    text::lemma_split_joins(a, b, '/');
    text::lemma_split_some(a, '/');
    text::lemma_split_some(b, '/');
    let x = text::split(a, '/');
    let y = text::split(b, '/');
    lemma_names_of_two(x, y, y.len());
}

proof fn lemma_names_of_plain(pieces: Seq<Seq<char>>, n: nat)
    requires
        n <= pieces.len(),
    ensures
        forall|i: int| 0 <= i < names_of(pieces, n).len() ==> pieces.contains(
            #[trigger] names_of(pieces, n)[i],
        ),
    decreases n,
{
    if n > 0 {
        let before = names_of(pieces, (n - 1) as nat);
        let all = names_of(pieces, n);
        lemma_names_of_plain(pieces, (n - 1) as nat);
        assert forall|i: int| 0 <= i < all.len() implies pieces.contains(#[trigger] all[i]) by {
            if i < before.len() {
                assert(all[i] == before[i]);
            } else {
                assert(all[i] == pieces[n - 1]);
            }
        }
    }
}

proof fn lemma_names_of_pieces(pieces: Seq<Seq<char>>, n: nat)
    requires
        n <= pieces.len(),
        forall|i: int| 0 <= i < pieces.len() ==> counts(pieces, i),
    ensures
        names_of(pieces, n) == pieces.take(n as int),
    decreases n,
{
    if n > 0 {
        lemma_names_of_pieces(pieces, (n - 1) as nat);
        assert(counts(pieces, n - 1));
        assert(pieces.take(n as int) =~= pieces.take(n - 1).push(pieces[n - 1]));
    } else {
        assert(pieces.take(0) =~= Seq::empty());
    }
}

/// A path that is written plainly is the names that it goes through, with separators
/// between them.
pub proof fn lemma_plain(path: Seq<char>)
    requires
        forall|i: int|
            0 <= i < text::split(path, '/').len() ==> (#[trigger] text::split(path, '/')[i]).len() > 0
                && text::split(path, '/')[i] != seq!['.'],
    ensures
        names(path) == text::split(path, '/'),
        spelled(names(path)) == path,
{
    let pieces = text::split(path, '/');
    assert forall|i: int| 0 <= i < pieces.len() implies counts(pieces, i) by {
        assert(pieces[i].len() > 0);
    }
    lemma_names_of_pieces(pieces, pieces.len());
    assert(pieces.take(pieces.len() as int) =~= pieces);
    text::lemma_split_join(path, '/');
}

/// A path that a list does not hold makes it one longer, and one that it holds leaves
/// it as it is.
pub proof fn lemma_with_path_len(s: Seq<Seq<char>>, path: Seq<char>)
    requires
        in_path_order(s),
    ensures
        with_path(s, path).len() == s.len() + if holds_route(s, path) {
            0nat
        } else {
            1nat
        },
    decreases s.len(),
{
    if s.len() == 0 {
    } else if names(s[0]) == names(path) {
        assert(holds_route(s, path));
    } else {
        let rest = s.drop_first();
        assert forall|i: int, j: int| 0 <= i < j < rest.len() implies route_before(
            names(#[trigger] rest[i]),
            names(#[trigger] rest[j]),
        ) by {
            assert(rest[i] == s[i + 1] && rest[j] == s[j + 1]);
        }
        lemma_with_path_len(rest, path);
        if holds_route(s, path) {
            let i = choose|i: int| 0 <= i < s.len() && names(#[trigger] s[i]) == names(path);
            assert(rest[i - 1] == s[i]);
            if route_before(names(path), names(s[0])) {
                assert(route_before(names(s[0]), names(s[i])));
                lemma_route_before_transitive(names(path), names(s[0]), names(path));
                lemma_route_before_irreflexive(names(path));
            }
        }
        if holds_route(rest, path) {
            let i = choose|i: int| 0 <= i < rest.len() && names(#[trigger] rest[i]) == names(path);
            assert(s[i + 1] == rest[i]);
        }
    }
}

/// Whether paths go through different names, each two of them.
pub open spec fn all_apart(s: Seq<Seq<char>>) -> bool {
    forall|i: int, j: int|
        0 <= i < j < s.len() ==> names(#[trigger] s[i]) != names(#[trigger] s[j])
}

/// Paths that go through different names are as many as the set of them.
pub proof fn lemma_path_set_len(s: Seq<Seq<char>>)
    requires
        all_apart(s),
    ensures
        path_set(s).len() == s.len(),
    decreases s.len(),
{
    if s.len() > 0 {
        let less = s.drop_last();
        assert forall|i: int, j: int| 0 <= i < j < less.len() implies names(#[trigger] less[i])
            != names(#[trigger] less[j]) by {
            assert(less[i] == s[i] && less[j] == s[j]);
        }
        lemma_path_set_len(less);
        lemma_path_set(less, s.last());
        lemma_with_path_len(path_set(less), s.last());
        if holds_route(less, s.last()) {
            let i = choose|i: int| 0 <= i < less.len() && names(#[trigger] less[i]) == names(
                s.last(),
            );
            assert(names(s[i]) == names(s[s.len() - 1]));
        }
    }
}

/// No name that a path goes through holds a separator.
pub proof fn lemma_names_plain(path: Seq<char>)
    ensures
        forall|i: int| 0 <= i < names(path).len() ==> !(#[trigger] names(path)[i]).contains('/'),
{
    let pieces = text::split(path, '/');
    text::lemma_split_plain(path, '/');
    lemma_names_of_plain(pieces, pieces.len());
    assert forall|i: int| 0 <= i < names(path).len() implies !(#[trigger] names(path)[i]).contains(
        '/',
    ) by {
        assert(pieces.contains(names(path)[i]));
        let k = choose|k: int| 0 <= k < pieces.len() && pieces[k] == names(path)[i];
        assert(!pieces[k].contains('/'));
    }
}

/// A text without a separator is one name.
pub proof fn lemma_one_name(s: Seq<char>)
    requires
        s.len() > 0,
        !s.contains('/'),
    ensures
        names(s) == seq![s],
{
    text::lemma_split_whole(s, '/');
    assert(names_of(seq![s], 0) =~= Seq::empty());
    reveal_with_fuel(names_of, 2);
    assert(names(s) =~= seq![s]);
}

/// What one list of paths does not hold of another is part of the other, and what
/// it does hold is left out.
pub proof fn lemma_without_paths(s: Seq<Seq<char>>, other: Seq<Seq<char>>)
    ensures
        forall|i: int|
            0 <= i < without_paths(s, other).len() ==> s.contains(
                #[trigger] without_paths(s, other)[i],
            ) && !holds_route(other, without_paths(s, other)[i]),
        forall|j: int|
            0 <= j < s.len() ==> holds_route(other, #[trigger] s[j]) || without_paths(
                s,
                other,
            ).contains(s[j]),
    decreases s.len(),
{
    if s.len() > 0 {
        let less = s.drop_last();
        let before = without_paths(less, other);
        let r = without_paths(s, other);
        lemma_without_paths(less, other);
        assert forall|i: int| 0 <= i < r.len() implies s.contains(#[trigger] r[i]) && !holds_route(
            other,
            r[i],
        ) by {
            if i < before.len() {
                assert(r[i] == before[i]);
                let j = choose|j: int| 0 <= j < less.len() && less[j] == before[i];
                assert(s[j] == r[i]);
            } else {
                assert(s[s.len() - 1] == r[i]);
            }
        }
        assert forall|j: int| 0 <= j < s.len() implies holds_route(other, #[trigger] s[j])
            || r.contains(s[j]) by {
            if j < less.len() {
                assert(less[j] == s[j]);
                if before.contains(s[j]) {
                    let i = choose|i: int| 0 <= i < before.len() && before[i] == s[j];
                    assert(r[i] == s[j]);
                }
            } else if !holds_route(other, s[j]) {
                assert(r[r.len() - 1] == s[j]);
            }
        }
    }
}

proof fn lemma_with_path_last(s: Seq<Seq<char>>, path: Seq<char>)
    requires
        forall|i: int| 0 <= i < s.len() ==> route_before(names(#[trigger] s[i]), names(path)),
    ensures
        with_path(s, path) == s.push(path),
    decreases s.len(),
{
    if s.len() == 0 {
        assert(seq![path] =~= s.push(path));
    } else {
        let rest = s.drop_first();
        assert forall|i: int| 0 <= i < rest.len() implies route_before(
            names(#[trigger] rest[i]),
            names(path),
        ) by {
            assert(rest[i] == s[i + 1]);
        }
        lemma_with_path_last(rest, path);
        if names(s[0]) == names(path) {
            lemma_route_before_irreflexive(names(path));
        }
        if route_before(names(path), names(s[0])) {
            lemma_route_before_transitive(names(path), names(s[0]), names(path));
            lemma_route_before_irreflexive(names(path));
        }
        assert(seq![s[0]] + rest.push(path) =~= s.push(path));
    }
}

/// Paths that stand in their order, each of them once, are a set as they are.
pub proof fn lemma_path_set_whole(s: Seq<Seq<char>>)
    requires
        in_path_order(s),
    ensures
        path_set(s) == s,
    decreases s.len(),
{
    if s.len() > 0 {
        let less = s.drop_last();
        assert forall|i: int, j: int| 0 <= i < j < less.len() implies route_before(
            names(#[trigger] less[i]),
            names(#[trigger] less[j]),
        ) by {
            assert(less[i] == s[i] && less[j] == s[j]);
        }
        lemma_path_set_whole(less);
        assert forall|i: int| 0 <= i < less.len() implies route_before(
            names(#[trigger] less[i]),
            names(s.last()),
        ) by {
            assert(route_before(names(s[i]), names(s[s.len() - 1])));
        }
        lemma_with_path_last(less, s.last());
        assert(less.push(s.last()) =~= s);
    }
}

/// What stands in a list once a path was put in it was there, or is the path.
pub proof fn lemma_with_path_from(s: Seq<Seq<char>>, path: Seq<char>)
    ensures
        forall|i: int|
            0 <= i < with_path(s, path).len() ==> (#[trigger] with_path(s, path)[i]) == path
                || s.contains(with_path(s, path)[i]),
    decreases s.len(),
{
    let r = with_path(s, path);
    if s.len() == 0 {
    } else if names(s[0]) == names(path) {
        assert forall|i: int| 0 <= i < r.len() implies (#[trigger] r[i]) == path || s.contains(r[i]) by {
            assert(s[i] == r[i]);
        }
    } else if route_before(names(path), names(s[0])) {
        assert forall|i: int| 0 <= i < r.len() implies (#[trigger] r[i]) == path || s.contains(r[i]) by {
            if i > 0 {
                assert(s[i - 1] == r[i]);
            }
        }
    } else {
        let rest = s.drop_first();
        lemma_with_path_from(rest, path);
        let inner = with_path(rest, path);
        assert forall|i: int| 0 <= i < r.len() implies (#[trigger] r[i]) == path || s.contains(r[i]) by {
            if i == 0 {
                assert(s[0] == r[i]);
            } else {
                assert(r[i] == inner[i - 1]);
                if inner[i - 1] != path {
                    let j = choose|j: int| 0 <= j < rest.len() && rest[j] == inner[i - 1];
                    assert(s[j + 1] == r[i]);
                }
            }
        }
    }
}

/// What stands in a set of paths is one of the paths that it was made of.
pub proof fn lemma_path_set_from(s: Seq<Seq<char>>)
    ensures
        forall|i: int| 0 <= i < path_set(s).len() ==> s.contains(#[trigger] path_set(s)[i]),
    decreases s.len(),
{
    if s.len() > 0 {
        let less = s.drop_last();
        lemma_path_set_from(less);
        lemma_with_path_from(path_set(less), s.last());
        let r = path_set(s);
        assert forall|i: int| 0 <= i < r.len() implies s.contains(#[trigger] r[i]) by {
            if r[i] == s.last() {
                assert(s[s.len() - 1] == r[i]);
            } else {
                let j = choose|j: int| 0 <= j < path_set(less).len() && path_set(less)[j] == r[i];
                assert(less.contains(path_set(less)[j]));
                let m = choose|m: int| 0 <= m < less.len() && less[m] == r[i];
                assert(s[m] == r[i]);
            }
        }
    }
}

/// Whether a path is written as plainly as it can be: names with one separator
/// between each two of them, of which none is a dot.
pub open spec fn is_plain(path: Seq<char>) -> bool {
    forall|i: int|
        0 <= i < text::split(path, '/').len() ==> (#[trigger] text::split(path, '/')[i]).len() > 0
            && text::split(path, '/')[i] != seq!['.']
}

/// The names of a path are those between its separators. No name is empty and
/// none holds a separator, and a plain path is written back from its names.
pub proof fn law_a_path_is_its_names(path: Seq<char>)
    ensures
        forall|i: int| 0 <= i < names(path).len() ==> (#[trigger] names(path)[i]).len() > 0,
        forall|i: int| 0 <= i < names(path).len() ==> !(#[trigger] names(path)[i]).contains('/'),
        forall|i: int| 1 <= i < names(path).len() ==> #[trigger] names(path)[i] != seq!['.'],
        is_plain(path) ==> names(path) == text::split(path, '/'),
        is_plain(path) ==> text::join(names(path), seq!['/']) == path,
{
    let pieces = text::split(path, '/');
    lemma_names_count(pieces, pieces.len());
    lemma_names_of_plain(pieces, pieces.len());
    text::lemma_split_plain(path, '/');
    assert forall|i: int| 0 <= i < names(path).len() implies !(#[trigger] names(path)[i]).contains('/') by {
        let j = choose|j: int| 0 <= j < pieces.len() && pieces[j] == names(path)[i];
        assert(pieces.contains(names(path)[i]));
        assert(!pieces[j].contains('/'));
    }
    if is_plain(path) {
        lemma_plain(path);
    }
}

proof fn lemma_names_count(pieces: Seq<Seq<char>>, n: nat)
    requires
        n <= pieces.len(),
    ensures
        names_of(pieces, n).len() <= n,
        forall|i: int| 0 <= i < names_of(pieces, n).len() ==> (#[trigger] names_of(pieces, n)[i]).len() > 0,
        forall|i: int| 1 <= i < names_of(pieces, n).len() ==> #[trigger] names_of(pieces, n)[i] != seq!['.'],
    decreases n,
{
    if n > 0 {
        let before = names_of(pieces, (n - 1) as nat);
        let all = names_of(pieces, n);
        lemma_names_count(pieces, (n - 1) as nat);
        assert forall|i: int| 0 <= i < all.len() implies (#[trigger] all[i]).len() > 0 by {
            if i < before.len() {
                assert(all[i] == before[i]);
            }
        }
        assert forall|i: int| 1 <= i < all.len() implies #[trigger] all[i] != seq!['.'] by {
            if i < before.len() {
                assert(all[i] == before[i]);
            }
        }
    }
}

/// A path is put below another with one separator between them, unless it
/// starts at the root, and what is put below a path is what is found below it.
pub proof fn law_what_is_joined_is_found_below(base: Seq<char>, path: Seq<char>)
    requires
        is_plain(path),
        base.len() > 0,
    ensures
        base.last() != '/' ==> joined(base, path) == base + seq!['/'] + path,
        base.last() == '/' ==> joined(base, path) == base + path,
        names(joined(base, path)) == names(base) + names(path),
        is_rooted(joined(base, path)) <==> base[0] == '/',
        below(joined(base, path), base) == Some(path),
        joined(base, seq!['/'] + path) == seq!['/'] + path,
        joined(Seq::empty(), path) == path,
{
    let pieces = text::split(path, '/');
    text::lemma_split_some(path, '/');
    assert(pieces[0].len() > 0);
    if path.len() > 0 && path[0] == '/' {
        lemma_rooted_first(path);
    }
    assert(!is_rooted(path));
    lemma_plain(path);
    let whole = joined(base, path);
    if base.last() == '/' {
        let front = base.drop_last();
        lemma_names_joined(front, path);
        lemma_names_joined(front, Seq::empty());
        lemma_no_names();
        assert(front + seq!['/'] + path =~= whole);
        assert(front + seq!['/'] + Seq::<char>::empty() =~= base);
        assert(names(front) + Seq::<Seq<char>>::empty() =~= names(front));
    } else {
        lemma_names_joined(base, path);
    }
    assert(whole[0] == base[0]);
    let n = names(base).len() as int;
    assert(names(whole).take(n) =~= names(base));
    assert(names(whole).skip(n) =~= names(path));
}

proof fn lemma_no_names()
    ensures
        names(Seq::empty()) == Seq::<Seq<char>>::empty(),
        text::split(Seq::empty(), '/')[0] != seq!['.'],
{
    let pieces = text::split(Seq::empty(), '/');
    assert(pieces =~= seq![Seq::<char>::empty()]);
    assert(pieces[0].len() == 0);
    assert(seq!['.'].len() == 1);
    reveal_with_fuel(names_of, 2);
}

proof fn lemma_rooted_first(path: Seq<char>)
    requires
        path.len() > 0,
        path[0] == '/',
    ensures
        text::split(path, '/').len() > 0,
        text::split(path, '/')[0].len() == 0,
    decreases path.len(),
{
    let rest = path.drop_first();
    text::lemma_split_joins(Seq::empty(), rest, '/');
    assert(Seq::<char>::empty() + seq!['/'] + rest =~= path);
    assert(text::split(Seq::<char>::empty(), '/') =~= seq![Seq::<char>::empty()]);
}

/// A separator that is written twice, or behind the last name, changes
/// nothing about the names.
pub proof fn law_more_separators_change_nothing(a: Seq<char>, b: Seq<char>)
    requires
        text::split(b, '/')[0] != seq!['.'],
    ensures
        names(a + seq!['/', '/'] + b) == names(a + seq!['/'] + b),
        names(a + seq!['/']) == names(a),
        names(seq!['/'] + b) == names(b),
{
    lemma_no_names();
    lemma_names_joined(a, b);
    lemma_names_joined(a, Seq::empty());
    lemma_names_joined(a + seq!['/'], b);
    lemma_names_joined(Seq::empty(), b);
    assert(a + seq!['/'] + Seq::<char>::empty() =~= a + seq!['/']);
    assert(a + seq!['/'] + seq!['/'] + b =~= a + seq!['/', '/'] + b);
    assert(Seq::<char>::empty() + seq!['/'] + b =~= seq!['/'] + b);
    assert(names(a) + Seq::<Seq<char>>::empty() =~= names(a));
    assert(Seq::<Seq<char>>::empty() + names(b) =~= names(b));
}

/// The file that a path addresses has the last name of the path.
pub proof fn law_a_file_has_the_last_name(base: Seq<char>, name: Seq<char>)
    requires
        name.len() > 0,
        !name.contains('/'),
        name != seq!['.'],
        name != ".."@,
    ensures
        last_name(base + seq!['/'] + name) == Some(name),
        last_name(name) == Some(name),
        last_name(base + seq!['/'] + ".."@) is None,
{
    reveal_strlit(".");
    reveal_strlit("..");
    assert("."@ =~= seq!['.']);
    text::lemma_split_whole(name, '/');
    assert(is_plain(name));
    lemma_plain(name);
    lemma_names_joined(base, name);
    assert(names(name) == seq![name]);
    assert(!".."@.contains('/')) by {
        if ".."@.contains('/') {
            let i = choose|i: int| 0 <= i < ".."@.len() && ".."@[i] == '/';
            assert(".."@[i] == '.');
        }
    }
    text::lemma_split_whole(".."@, '/');
    assert(".."@.len() == 2 && seq!['.'].len() == 1);
    lemma_names_joined(base, ".."@);
    assert(is_plain(".."@));
    lemma_plain(".."@);
}

/// A path climbs when one of its names says to.
pub proof fn law_a_path_climbs_by_two_dots(path: Seq<char>)
    ensures
        climbs(path) <==> exists|i: int| 0 <= i < names(path).len() && #[trigger] names(path)[i] == ".."@,
{
}

/// The first name in which two paths differ decides their order, and a path
/// comes before what is below it.
pub proof fn law_the_first_name_decides(a: Seq<Seq<char>>, b: Seq<Seq<char>>, i: int)
    requires
        0 <= i <= a.len(),
        i <= b.len(),
        forall|j: int| 0 <= j < i ==> a[j] == b[j],
    ensures
        i < a.len() && i < b.len() && a[i] != b[i] ==> (route_before(a, b) <==> text::before(
            a[i],
            b[i],
        )),
        i == a.len() ==> (route_before(a, b) <==> a.len() < b.len()),
    decreases a.len(),
{
    if i > 0 {
        let x = a.drop_first();
        let y = b.drop_first();
        assert(a[0] == b[0]);
        assert forall|j: int| 0 <= j < i - 1 implies x[j] == y[j] by {
            assert(a[j + 1] == b[j + 1]);
        }
        law_the_first_name_decides(x, y, i - 1);
    }
}

/// Paths without others are those that the others do not hold, in the order in
/// which they stood.
pub proof fn law_paths_without_others(s: Seq<Seq<char>>, other: Seq<Seq<char>>, path: Seq<char>)
    ensures
        without_paths(s, other).contains(path) <==> s.contains(path) && !(exists|i: int|
            0 <= i < other.len() && names(#[trigger] other[i]) == names(path)),
        without_paths(s, other).len() <= s.len(),
        (forall|i: int| 0 <= i < s.len() ==> !holds_route(other, #[trigger] s[i])) ==> without_paths(
            s,
            other,
        ) == s,
    decreases s.len(),
{
    if s.len() > 0 {
        let less = s.drop_last();
        let last = s.last();
        law_paths_without_others(less, other, path);
        let before = without_paths(less, other);
        if s.contains(path) && path != last {
            let i = choose|i: int| 0 <= i < s.len() && s[i] == path;
            assert(less[i] == path);
        }
        if less.contains(path) {
            let i = choose|i: int| 0 <= i < less.len() && less[i] == path;
            assert(s[i] == path);
        }
        assert(s[s.len() - 1] == last);
        if !holds_route(other, last) {
            let r = before.push(last);
            if before.contains(path) {
                let i = choose|i: int| 0 <= i < before.len() && before[i] == path;
                assert(r[i] == path);
            }
            assert(r[before.len() as int] == last);
            if r.contains(path) && path != last {
                let i = choose|i: int| 0 <= i < r.len() && r[i] == path;
                assert(before[i] == path);
            }
        }
        if forall|i: int| 0 <= i < s.len() ==> !holds_route(other, #[trigger] s[i]) {
            assert forall|i: int| 0 <= i < less.len() implies !holds_route(other, #[trigger] less[i]) by {
                assert(less[i] == s[i]);
            }
            assert(less.push(last) =~= s);
        }
    }
}

} // verus!
