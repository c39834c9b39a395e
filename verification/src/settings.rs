//! The variables that `detc var` queries, sets and takes away.
//!
//! The variables that are set are written as user drop-ins, so that they are part
//! of the namespace of the next run, while the ones that are queried are resolved
//! from the system as it is now.

use vstd::prelude::*;

use crate::bundle;
use crate::bundle::Holding;
use crate::detc::{pair_texts, pairs_of, writes, Given, VarArgs};
use crate::document;
use crate::objects::{Speech, Told};
use crate::path;
use crate::provider::said;
use crate::record::{sayings, Record, Saying};
use crate::text;
use crate::value;
use crate::value::{Datum, Json};
use crate::var;
use crate::var::{Read, Store, Variables};

verus! {

/// What `var` was asked for.
pub struct VarRequest {
    /// A document of variables to merge, when there is one.
    pub file: Option<String>,
    /// The keys and values that were typed.
    pub args: VarArgs,
    /// Whether what is set survives a reboot.
    pub persist: bool,
    /// Take the keys away rather than set them.
    pub unset: bool,
    /// List the probes rather than the variables.
    pub probes: bool,
    /// Run one probe and show what it reports.
    pub probe: Option<String>,
}

/// The things that `var` can be asked for.
#[derive(Clone, Copy, Debug, PartialEq, Eq, Structural)]
pub enum Purpose {
    /// Take variables away.
    Unset,
    /// Set variables.
    Write,
    /// List the probes.
    Probes,
    /// Run one probe.
    Probe,
    /// Show the values of some keys.
    Keys,
    /// Show the whole namespace.
    Whole,
}

/// What `var` was asked for.
pub open spec fn purpose_of(r: VarRequest) -> Purpose {
    if r.unset {
        Purpose::Unset
    } else if writes(r.args@, r.file is Some, r.probes, r.probe is Some) {
        Purpose::Write
    } else if r.probes {
        Purpose::Probes
    } else if r.probe is Some {
        Purpose::Probe
    } else if r.args@.key.len() > 0 {
        Purpose::Keys
    } else {
        Purpose::Whole
    }
}

impl VarRequest {
    /// What `var` was asked for: the one of six things that the arguments tell
    /// apart.
    pub fn purpose(&self) -> (r: Purpose)
        ensures
            r == purpose_of(*self),
    {
        let file = match &self.file {
            Some(file) => Some(file.as_str()),
            None => None,
        };
        let probe = match &self.probe {
            Some(probe) => Some(probe.as_str()),
            None => None,
        };
        if self.unset {
            Purpose::Unset
        } else if self.args.writes(file, self.probes, probe) {
            Purpose::Write
        } else if self.probes {
            Purpose::Probes
        } else if self.probe.is_some() {
            Purpose::Probe
        } else if self.args.key.len() > 0 {
            Purpose::Keys
        } else {
            Purpose::Whole
        }
    }
}

/// Where stores keep the values of keys.
pub open spec fn dropins(keys: Seq<Seq<char>>, store: Store, root: Seq<char>) -> Seq<Seq<char>> {
    Seq::new(keys.len(), |i: int| var::in_store(root, store, var::dropin_of(keys[i], store)))
}

/// The keys that mappings set, in their order.
pub open spec fn mapped_keys(kv: Seq<Seq<char>>) -> Result<Seq<Seq<char>>, Seq<char>>
    decreases kv.len(),
{
    if kv.len() == 0 {
        Ok(Seq::empty())
    } else {
        match mapped_keys(kv.drop_last()) {
            Err(e) => Err(e),
            Ok(before) => match var::mapping_in(kv.last()) {
                Err(e) => Err(e),
                Ok(m) => Ok(before + text::listing(m.dom())),
            },
        }
    }
}

/// Where a store keeps a document.
pub open spec fn document_path(file: Seq<char>, store: Store, root: Seq<char>) -> Result<
    Seq<char>,
    Seq<char>,
> {
    match var::dropin_of_file(file, store) {
        Ok(name) => Ok(var::in_store(root, store, name)),
        Err(e) => Err(e),
    }
}

/// The keys that a request sets.
pub open spec fn keys_set(given: Given) -> Result<Seq<Seq<char>>, Seq<char>> {
    match pairs_of(given) {
        Err(e) => Err(e),
        Ok(_) => match mapped_keys(given.kv) {
            Err(e) => Err(e),
            Ok(more) => Ok(given.key + more),
        },
    }
}

/// The drop-ins that a request writes to a store: the one of a document, and those
/// of the keys.
pub open spec fn written_to(
    file: Option<Seq<char>>,
    given: Given,
    store: Store,
    root: Seq<char>,
) -> Result<Seq<Seq<char>>, Seq<char>> {
    let first = match file {
        None => Ok(Seq::empty()),
        Some(file) => match document_path(file, store, root) {
            Ok(p) => Ok(seq![p]),
            Err(e) => Err(e),
        },
    };
    match first {
        Err(e) => Err(e),
        Ok(first) => match keys_set(given) {
            Err(e) => Err(e),
            Ok(keys) => Ok(first + dropins(keys, store, root)),
        },
    }
}

proof fn lemma_mapped_stop(kv: Seq<Seq<char>>, i: int)
    requires
        0 <= i <= kv.len(),
        mapped_keys(kv.take(i)) is Err,
    ensures
        mapped_keys(kv) == mapped_keys(kv.take(i)),
    decreases kv.len() - i,
{
    if i == kv.len() {
        assert(kv.take(i) =~= kv);
    } else {
        assert(kv.take(i + 1).drop_last() =~= kv.take(i));
        lemma_mapped_stop(kv, i + 1);
    }
}

/// The keys that a request sets.
fn set_keys(args: &VarArgs) -> (r: Result<Vec<String>, String>)
    ensures
        keys_set(args@) == (match r {
            Ok(keys) => Ok(text::texts(keys@)),
            Err(e) => Err(e@),
        }),
{
    if let Err(e) = args.pairs() {
        return Err(e);
    }
    let mut keys = crate::detc::texts_again(&args.key);
    let ghost all = args@.kv;
    let ghost own = args@.key;
    let n: usize = args.kv.len();
    let mut i: usize = 0;
    assert(own + Seq::<Seq<char>>::empty() =~= own);
    while i < n
        invariant
            i <= n == args.kv@.len(),
            all == args@.kv,
            all == text::texts(args.kv@),
            own == args@.key,
            pairs_of(args@) is Ok,
            mapped_keys(all.take(i as int)) matches Ok(more) && text::texts(keys@) == own + more,
        decreases n - i,
    {
        let ghost had = text::texts(keys@);
        proof {
            assert(all.take(i + 1).drop_last() =~= all.take(i as int));
            assert(all.take(i + 1).last() == args.kv@[i as int]@);
        }
        match Variables::kv_keys(args.kv[i].as_str()) {
            Err(e) => {
                proof {
                    lemma_mapped_stop(all, i + 1);
                }
                return Err(e);
            },
            Ok(more) => {
                let ghost new = text::texts(more@);
                let mut more = more;
                keys.append(&mut more);
                assert(text::texts(keys@) =~= had + new);
                assert(own + mapped_keys(all.take(i as int))->Ok_0 + new =~= own + (mapped_keys(
                    all.take(i as int),
                )->Ok_0 + new));
            },
        }
        i += 1;
    }
    assert(all.take(i as int) =~= all);
    Ok(keys)
}

/// Add the drop-ins of keys.
fn add_dropins(paths: &mut Vec<String>, keys: &Vec<String>, store: Store, root: &str)
    ensures
        text::texts(final(paths)@) == text::texts(old(paths)@) + dropins(
            text::texts(keys@),
            store,
            root@,
        ),
{
    let ghost had = text::texts(paths@);
    let ghost all = dropins(text::texts(keys@), store, root@);
    let n: usize = keys.len();
    let mut i: usize = 0;
    assert(had + all.take(0) =~= had);
    while i < n
        invariant
            i <= n == keys@.len(),
            all == dropins(text::texts(keys@), store, root@),
            text::texts(paths@) == had + all.take(i as int),
        decreases n - i,
    {
        let ghost so_far = text::texts(paths@);
        let path = Variables::dropin_path(keys[i].as_str(), store, root);
        assert(path@ == all[i as int]);
        paths.push(path);
        assert(text::texts(paths@) =~= so_far.push(path@));
        assert(so_far.push(path@) =~= had + all.take(i + 1));
        i += 1;
    }
    assert(all.take(i as int) =~= all);
}

/// The drop-ins that a request to set variables would write, and the runtime ones
/// that persisting it would take away with it.
///
/// Both are worked out before anything happens, so that the run that names them and
/// the run that writes them cannot disagree about which files are involved.
pub fn affected(file: Option<&str>, args: &VarArgs, store: Store, root: &str) -> (r: Result<
    (Vec<String>, Vec<String>),
    String,
>)
    ensures
        ({
            let file = match file {
                Some(file) => Some(file@),
                None => None,
            };
            match r {
                Ok((dropins, cleared)) => {
                    &&& written_to(file, args@, store, root@) == Ok::<Seq<Seq<char>>, Seq<char>>(
                        text::texts(dropins@),
                    )
                    &&& written_to(file, args@, Store::Runtime, root@) == Ok::<
                        Seq<Seq<char>>,
                        Seq<char>,
                    >(text::texts(cleared@))
                },
                Err(e) => written_to(file, args@, store, root@) == Err::<Seq<Seq<char>>, Seq<char>>(
                    e@,
                ),
            }
        }),
{
    let mut dropins: Vec<String> = Vec::new();
    let mut cleared: Vec<String> = Vec::new();
    assert(text::texts(dropins@) =~= Seq::empty());
    assert(text::texts(cleared@) =~= Seq::empty());
    if let Some(file) = file {
        match Variables::dropin_document_path(file, store, root) {
            Ok(path) => {
                dropins.push(path);
                assert(text::texts(dropins@) =~= seq![path@]);
            },
            Err(e) => {
                return Err(e);
            },
        }
        match Variables::dropin_document_path(file, Store::Runtime, root) {
            Ok(path) => {
                cleared.push(path);
                assert(text::texts(cleared@) =~= seq![path@]);
            },
            Err(e) => {
                return Err(e);
            },
        }
    }
    let keys = match set_keys(args) {
        Ok(keys) => keys,
        Err(e) => {
            return Err(e);
        },
    };
    add_dropins(&mut dropins, &keys, store, root);
    add_dropins(&mut cleared, &keys, Store::Runtime, root);
    Ok((dropins, cleared))
}

/// Why a path is not one to write: a bundle put it there.
pub open spec fn bundled(root: Seq<char>, path: Seq<char>, holdings: Seq<Holding>) -> Option<Seq<char>> {
    match path::below(path, root) {
        None => None,
        Some(relative) => match bundle::owner_of(root, relative, holdings) {
            Err(e) => Some(e),
            Ok(None) => None,
            Ok(Some(what)) => Some(
                path + " belongs to the bundle "@ + what.name + " "@ + what.version
                    + ", and is not a variable of this system to set: take the bundle away with `detc bundle remove`, or set a key that it does not carry"@,
            ),
        },
    }
}

/// Why paths are not ones to write.
pub open spec fn bundled_paths(root: Seq<char>, holdings: Seq<Holding>) -> spec_fn(
    Seq<char>,
) -> Option<Seq<char>> {
    |path: Seq<char>| bundled(root, path, holdings)
}

/// Why a path is not one to write.
fn bundled_at(root: &str, path: &str, holdings: &Vec<Holding>) -> (r: Option<String>)
    ensures
        text::text_of(r) == bundled(root@, path@, holdings@),
{
    let relative = match path::strip(path, root) {
        Some(relative) => relative,
        None => {
            return None;
        },
    };
    match bundle::owner(root, relative.as_str(), holdings) {
        Err(e) => Some(e),
        Ok(None) => None,
        Ok(Some(what)) => {
            let mut e = path.to_owned();
            e.append(" belongs to the bundle ");
            e.append(what.name.as_str());
            e.append(" ");
            e.append(what.version.as_str());
            e.append(
                ", and is not a variable of this system to set: take the bundle away with `detc bundle remove`, or set a key that it does not carry",
            );
            Some(e)
        },
    }
}

/// Refuse any of `paths` that an installed bundle put there.
///
/// A bundle installs into `run`, which is where a variable that was not persisted
/// is written, and a file that a bundle owns is not one that setting a variable may
/// quietly replace or take away.
pub fn refuse_bundled(root: &str, paths: &Vec<String>, holdings: &Vec<Holding>) -> (r: Result<
    (),
    String,
>)
    ensures
        text::first_of(text::texts(paths@), bundled_paths(root@, holdings@)) == (match r {
            Ok(_) => None,
            Err(e) => Some(e@),
        }),
{
    let ghost all = text::texts(paths@);
    let ghost why = bundled_paths(root@, holdings@);
    let n: usize = paths.len();
    let mut i: usize = 0;
    assert(text::first_of(all.take(0), why) is None);
    while i < n
        invariant
            i <= n == paths@.len(),
            all == text::texts(paths@),
            why == bundled_paths(root@, holdings@),
            text::first_of(all.take(i as int), why) is None,
        decreases n - i,
    {
        proof {
            text::lemma_first_step(all, why, i as int);
            assert(all[i as int] == paths@[i as int]@);
        }
        if let Some(e) = bundled_at(root, paths[i].as_str(), holdings) {
            return Err(e);
        }
        i += 1;
    }
    assert(all.take(i as int) =~= all);
    Ok(())
}

/// The record of something that happens to a drop-in.
pub open spec fn dropin_saying(action: Seq<char>, object: Seq<char>, path: Seq<char>) -> Saying {
    Saying::Change { action, object, summary: Some(path), error: None }
}

/// The record of something that happens to a drop-in.
fn dropin_record(action: &str, object: &str, path: &str) -> (r: Record)
    ensures
        r@ == dropin_saying(action@, object@, path@),
{
    Record::Change {
        action: action.to_owned(),
        object: object.to_owned(),
        summary: Some(path.to_owned()),
        error: None,
    }
}

/// A drop-in, and whether it is there.
pub open spec fn dropin_seen(s: Seq<(String, bool)>) -> Seq<(Seq<char>, bool)> {
    Seq::new(s.len(), |i: int| (s[i].0@, s[i].1))
}

/// What setting variables would do: write each drop-in, over the one that is there
/// or as a new one.
pub open spec fn would_write(s: Seq<(Seq<char>, bool)>) -> Seq<Saying> {
    Seq::new(
        s.len(),
        |i: int|
            dropin_saying(
                if s[i].1 {
                    "update"@
                } else {
                    "create"@
                },
                "variable"@,
                s[i].0,
            ),
    )
}

/// What persisting variables would take away: the runtime drop-ins that are there.
pub open spec fn would_clear(s: Seq<(Seq<char>, bool)>) -> Seq<Saying>
    decreases s.len(),
{
    if s.len() == 0 {
        Seq::empty()
    } else {
        let before = would_clear(s.drop_last());
        if s.last().1 {
            before.push(dropin_saying("remove"@, "variable"@, s.last().0))
        } else {
            before
        }
    }
}

/// What a dry run of setting variables says, given the drop-ins that would be
/// written and those that persisting would take away, each with whether it is
/// there.
pub fn foretell(dropins: &Vec<(String, bool)>, cleared: &Vec<(String, bool)>, persist: bool) -> (r:
    Vec<Record>)
    ensures
        sayings(r@) == would_write(dropin_seen(dropins@)) + (if persist {
            would_clear(dropin_seen(cleared@))
        } else {
            Seq::empty()
        }),
{
    let ghost first = would_write(dropin_seen(dropins@));
    let mut r: Vec<Record> = Vec::new();
    let n: usize = dropins.len();
    let mut i: usize = 0;
    assert(sayings(r@) =~= first.take(0));
    while i < n
        invariant
            i <= n == dropins@.len(),
            first == would_write(dropin_seen(dropins@)),
            sayings(r@) == first.take(i as int),
        decreases n - i,
    {
        let ghost had = sayings(r@);
        let action = if dropins[i].1 {
            "update"
        } else {
            "create"
        };
        let record = dropin_record(action, "variable", dropins[i].0.as_str());
        assert(record@ == first[i as int]);
        r.push(record);
        assert(sayings(r@) =~= had.push(record@));
        assert(had.push(record@) =~= first.take(i + 1));
        i += 1;
    }
    assert(first.take(i as int) =~= first);
    if !persist {
        assert(first + Seq::<Saying>::empty() =~= first);
        return r;
    }
    let ghost all = dropin_seen(cleared@);
    let m: usize = cleared.len();
    let mut i: usize = 0;
    assert(first + would_clear(all.take(0)) =~= first);
    while i < m
        invariant
            i <= m == cleared@.len(),
            all == dropin_seen(cleared@),
            sayings(r@) == first + would_clear(all.take(i as int)),
        decreases m - i,
    {
        let ghost had = sayings(r@);
        proof {
            assert(all.take(i + 1).drop_last() =~= all.take(i as int));
            assert(all.take(i + 1).last() == (cleared@[i as int].0@, cleared@[i as int].1));
        }
        if cleared[i].1 {
            let record = dropin_record("remove", "variable", cleared[i].0.as_str());
            r.push(record);
            assert(sayings(r@) =~= had.push(record@));
            assert(had.push(record@) =~= first + would_clear(all.take(i + 1)));
        }
        i += 1;
    }
    assert(all.take(i as int) =~= all);
    r
}

/// Something to do to the drop-ins of a system.
pub enum Chore {
    /// Write a drop-in.
    Put { path: String, content: String },
    /// Copy a document, as it was written, to a drop-in.
    Copy { path: String },
    /// Take a drop-in away, if it is there.
    Clear { path: String },
}

/// Something to do to the drop-ins of a system, as plain values.
pub enum Errand {
    Put { path: Seq<char>, content: Seq<char> },
    Copy { path: Seq<char> },
    Clear { path: Seq<char> },
}

impl View for Chore {
    type V = Errand;

    open spec fn view(&self) -> Errand {
        match *self {
            Chore::Put { path, content } => Errand::Put { path: path@, content: content@ },
            Chore::Copy { path } => Errand::Copy { path: path@ },
            Chore::Clear { path } => Errand::Clear { path: path@ },
        }
    }
}

/// Things to do, as plain values.
pub open spec fn errands(s: Seq<Chore>) -> Seq<Errand> {
    Seq::new(s.len(), |i: int| s[i]@)
}

/// A namespace that variables are set in, what is to be done for it, and why it went
/// no further.
pub struct Setting {
    pub namespace: Json,
    pub errands: Seq<Errand>,
    pub end: Result<(), Seq<char>>,
}

/// What keeps the value of a key in a store.  Persisting an override is a promotion
/// of it and not a second copy, so the runtime drop-in that it replaces is taken
/// away.
pub open spec fn kept(key: Seq<char>, v: Json, store: Store, root: Seq<char>) -> Seq<Errand> {
    let put = Errand::Put {
        path: var::in_store(root, store, var::dropin_of(key, store)),
        content: document::json_pretty(var::nested(var::components(key), v)),
    };
    match store {
        Store::Runtime => seq![put],
        Store::Persisted => seq![
            put,
            Errand::Clear {
                path: var::in_store(root, Store::Runtime, var::dropin_of(key, Store::Runtime)),
            },
        ],
    }
}

/// One more value set.
pub open spec fn set_one(s: Setting, key: Seq<char>, v: Json, store: Store, root: Seq<char>) -> Setting {
    match s.end {
        Err(_) => s,
        Ok(_) => match var::set_at(s.namespace, key, v) {
            Err(e) => Setting { end: Err(e), ..s },
            Ok(after) => Setting {
                namespace: after,
                errands: s.errands + kept(key, v, store, root),
                end: Ok(()),
            },
        },
    }
}

/// Pairs of keys and typed values set one after the other.
pub open spec fn set_typed(
    s: Setting,
    pairs: Seq<(Seq<char>, Seq<char>)>,
    store: Store,
    root: Seq<char>,
) -> Setting
    decreases pairs.len(),
{
    if pairs.len() == 0 {
        s
    } else {
        set_one(
            set_typed(s, pairs.drop_last(), store, root),
            pairs.last().0,
            var::typed(pairs.last().1),
            store,
            root,
        )
    }
}

/// The values of a mapping set one after the other.
pub open spec fn set_mapped(
    s: Setting,
    m: Map<Seq<char>, Json>,
    keys: Seq<Seq<char>>,
    store: Store,
    root: Seq<char>,
) -> Setting
    decreases keys.len(),
{
    if keys.len() == 0 {
        s
    } else {
        set_one(
            set_mapped(s, m, keys.drop_last(), store, root),
            keys.last(),
            m[keys.last()],
            store,
            root,
        )
    }
}

/// Mappings set one after the other.
pub open spec fn set_texts(s: Setting, kv: Seq<Seq<char>>, store: Store, root: Seq<char>) -> Setting
    decreases kv.len(),
{
    if kv.len() == 0 {
        s
    } else {
        let before = set_texts(s, kv.drop_last(), store, root);
        match before.end {
            Err(_) => before,
            Ok(_) => match var::mapping_in(kv.last()) {
                Err(e) => Setting { end: Err(e), ..before },
                Ok(m) => set_mapped(before, m, text::listing(m.dom()), store, root),
            },
        }
    }
}

/// What setting the variables of a command line comes to.  They are set in a
/// namespace of their own, so that the one of the system does not have to be
/// collected to write them.
pub open spec fn settings(given: Given, store: Store, root: Seq<char>) -> Setting {
    let start = Setting {
        namespace: Json::Object(Map::empty()),
        errands: Seq::empty(),
        end: Ok(()),
    };
    match pairs_of(given) {
        Err(e) => Setting { end: Err(e), ..start },
        Ok(pairs) => set_texts(set_typed(start, pairs, store, root), given.kv, store, root),
    }
}

proof fn lemma_typed_stop(
    s: Setting,
    pairs: Seq<(Seq<char>, Seq<char>)>,
    store: Store,
    root: Seq<char>,
    i: int,
)
    requires
        0 <= i <= pairs.len(),
        set_typed(s, pairs.take(i), store, root).end is Err,
    ensures
        set_typed(s, pairs, store, root) == set_typed(s, pairs.take(i), store, root),
    decreases pairs.len() - i,
{
    if i == pairs.len() {
        assert(pairs.take(i) =~= pairs);
    } else {
        assert(pairs.take(i + 1).drop_last() =~= pairs.take(i));
        lemma_typed_stop(s, pairs, store, root, i + 1);
    }
}

proof fn lemma_mapped_stops(
    s: Setting,
    m: Map<Seq<char>, Json>,
    keys: Seq<Seq<char>>,
    store: Store,
    root: Seq<char>,
    i: int,
)
    requires
        0 <= i <= keys.len(),
        set_mapped(s, m, keys.take(i), store, root).end is Err,
    ensures
        set_mapped(s, m, keys, store, root) == set_mapped(s, m, keys.take(i), store, root),
    decreases keys.len() - i,
{
    if i == keys.len() {
        assert(keys.take(i) =~= keys);
    } else {
        assert(keys.take(i + 1).drop_last() =~= keys.take(i));
        lemma_mapped_stops(s, m, keys, store, root, i + 1);
    }
}

proof fn lemma_texts_stop(s: Setting, kv: Seq<Seq<char>>, store: Store, root: Seq<char>, i: int)
    requires
        0 <= i <= kv.len(),
        set_texts(s, kv.take(i), store, root).end is Err,
    ensures
        set_texts(s, kv, store, root) == set_texts(s, kv.take(i), store, root),
    decreases kv.len() - i,
{
    if i == kv.len() {
        assert(kv.take(i) =~= kv);
    } else {
        assert(kv.take(i + 1).drop_last() =~= kv.take(i));
        lemma_texts_stop(s, kv, store, root, i + 1);
    }
}

proof fn lemma_texts_from_error(s: Setting, kv: Seq<Seq<char>>, store: Store, root: Seq<char>)
    requires
        s.end is Err,
    ensures
        set_texts(s, kv, store, root) == s,
    decreases kv.len(),
{
    if kv.len() > 0 {
        lemma_texts_from_error(s, kv.drop_last(), store, root);
    }
}

/// Set one more value, and add what is to be done for it.
fn set_key(
    var: &mut Variables,
    chores: &mut Vec<Chore>,
    key: &str,
    v: &Datum,
    store: Store,
    root: &str,
) -> (r: Result<(), String>)
    ensures
        set_one(
            (Setting { namespace: old(var)@, errands: errands(old(chores)@), end: Ok(()) }),
            key@,
            v@,
            store,
            root@,
        ) == (Setting {
            namespace: final(var)@,
            errands: errands(final(chores)@),
            end: var::outcome(r),
        }),
{
    let ghost had = errands(chores@);
    match var.set_value(key, v) {
        Ok(_) => {},
        Err(e) => {
            return Err(e);
        },
    }
    chores.push(
        Chore::Put {
            path: Variables::dropin_path(key, store, root),
            content: Variables::user_override(key, v),
        },
    );
    let name = Variables::dropin_name(key, Store::Runtime);
    if let Some(path) = Variables::replaced_path(store, name.as_str(), root) {
        chores.push(Chore::Clear { path });
    }
    assert(errands(chores@) =~= had + kept(key@, v@, store, root@));
    Ok(())
}

/// What setting the variables of a command line comes to: what is to be done, in
/// order, and why it went no further.
pub fn set_variables(args: &VarArgs, store: Store, root: &str) -> (r: (Vec<Chore>, Result<(), String>))
    ensures
        errands(r.0@) == settings(args@, store, root@).errands,
        var::outcome(r.1) == settings(args@, store, root@).end,
{
    let mut var = Variables::new();
    let mut chores: Vec<Chore> = Vec::new();
    assert(errands(chores@) =~= Seq::empty());
    let ghost start = Setting {
        namespace: Json::Object(Map::empty()),
        errands: Seq::empty(),
        end: Ok(()),
    };
    let pairs = match args.pairs() {
        Ok(pairs) => pairs,
        Err(e) => {
            return (chores, Err(e));
        },
    };
    let ghost all = pair_texts(pairs@);
    let n: usize = pairs.len();
    let mut i: usize = 0;
    while i < n
        invariant
            i <= n == pairs@.len(),
            all == pair_texts(pairs@),
            pairs_of(args@) == Ok::<Seq<(Seq<char>, Seq<char>)>, Seq<char>>(all),
            start == (Setting {
                namespace: Json::Object(Map::empty()),
                errands: Seq::empty(),
                end: Ok(()),
            }),
            set_typed(start, all.take(i as int), store, root@) == (Setting {
                namespace: var@,
                errands: errands(chores@),
                end: Ok(()),
            }),
        decreases n - i,
    {
        proof {
            assert(all.take(i + 1).drop_last() =~= all.take(i as int));
            assert(all.take(i + 1).last() == all[i as int]);
        }
        match var.set_json_and_store(
            &mut chores,
            pairs[i].0.as_str(),
            pairs[i].1.as_str(),
            store,
            root,
        ) {
            Ok(_) => {},
            Err(e) => {
                proof {
                    lemma_typed_stop(start, all, store, root@, i + 1);
                    lemma_texts_from_error(
                        set_typed(start, all, store, root@),
                        args@.kv,
                        store,
                        root@,
                    );
                }
                return (chores, Err(e));
            },
        }
        i += 1;
    }
    assert(all.take(i as int) =~= all);
    let ghost middle = set_typed(start, all, store, root@);
    let ghost kvs = args@.kv;
    let m: usize = args.kv.len();
    let mut k: usize = 0;
    while k < m
        invariant
            k <= m == args.kv@.len(),
            kvs == text::texts(args.kv@),
            settings(args@, store, root@) == set_texts(middle, kvs, store, root@),
            set_texts(middle, kvs.take(k as int), store, root@) == (Setting {
                namespace: var@,
                errands: errands(chores@),
                end: Ok(()),
            }),
        decreases m - k,
    {
        let ghost before = set_texts(middle, kvs.take(k as int), store, root@);
        proof {
            assert(kvs.take(k + 1).drop_last() =~= kvs.take(k as int));
            assert(kvs.take(k + 1).last() == args.kv@[k as int]@);
        }
        match var.set_kv_and_store(&mut chores, args.kv[k].as_str(), store, root) {
            Ok(_) => {},
            Err(e) => {
                proof {
                    lemma_texts_stop(middle, kvs, store, root@, k + 1);
                }
                return (chores, Err(e));
            },
        }
        k += 1;
    }
    assert(kvs.take(k as int) =~= kvs);
    (chores, Ok(()))
}

/// What storing a document of variables comes to: the namespace once the document was
/// merged, what is to be done, and how it ends.  A document that cannot be understood
/// is not written anywhere, and neither is one that a persisted drop-in of the same
/// name would be read instead of.
pub open spec fn merging(
    j: Json,
    file: Seq<char>,
    body: Result<Seq<char>, Seq<char>>,
    store: Store,
    root: Seq<char>,
    masked: bool,
    default: var::Merge,
) -> (Json, Seq<Errand>, Result<(), Seq<char>>) {
    let read = match body {
        Err(e) => Err(e),
        Ok(t) => var::document_in(t),
    };
    match (read, var::dropin_of_file(file, store), var::dropin_of_file(file, Store::Runtime)) {
        (Err(e), _, _) => (j, Seq::empty(), Err(e)),
        (_, Err(e), _) => (j, Seq::empty(), Err(e)),
        (_, _, Err(e)) => (j, Seq::empty(), Err(e)),
        (Ok(document), Ok(name), Ok(replaced)) => if store == Store::Runtime && masked {
            (j, Seq::empty(), Err(masked_text(var::in_store(root, Store::Persisted, name))))
        } else {
            let errands = match store {
                Store::Runtime => seq![Errand::Copy { path: var::in_store(root, store, name) }],
                Store::Persisted => seq![
                    Errand::Copy { path: var::in_store(root, store, name) },
                    Errand::Clear { path: var::in_store(root, Store::Runtime, replaced) },
                ],
            };
            match var::merged_at(j, Seq::empty(), document, default) {
                Ok(after) => (after, errands, Ok(())),
                Err(e) => (j, errands, Err(e)),
            }
        },
    }
}

/// What storing a document of variables of a command line comes to: what is to be
/// done, and how it ends.
pub open spec fn storing(
    system: Result<Json, Seq<char>>,
    file: Seq<char>,
    body: Result<Seq<char>, Seq<char>>,
    store: Store,
    root: Seq<char>,
    masked: bool,
) -> (Seq<Errand>, Result<(), Seq<char>>) {
    match system {
        Err(e) => (Seq::empty(), Err(e)),
        Ok(j) => {
            let (_, errands, end) = merging(
                j,
                file,
                body,
                store,
                root,
                masked,
                var::DEFAULT_MERGE,
            );
            (errands, end)
        },
    }
}

/// One more value set, in a drop-in whose name was chosen.  The name is the same one
/// in either store, so of two drop-ins that share it the persisted one is read.
pub open spec fn set_named(
    s: Setting,
    key: Seq<char>,
    v: Json,
    name: Seq<char>,
    store: Store,
    root: Seq<char>,
    masked: bool,
) -> Setting {
    if store == Store::Runtime && masked {
        Setting { end: Err(masked_text(var::in_store(root, Store::Persisted, name))), ..s }
    } else {
        match var::set_at(s.namespace, key, v) {
            Err(e) => Setting { end: Err(e), ..s },
            Ok(after) => {
                let put = Errand::Put {
                    path: var::in_store(root, store, name),
                    content: document::json_pretty(var::nested(var::components(key), v)),
                };
                Setting {
                    namespace: after,
                    errands: match store {
                        Store::Runtime => s.errands.push(put),
                        Store::Persisted => s.errands.push(put).push(
                            Errand::Clear { path: var::in_store(root, Store::Runtime, name) },
                        ),
                    },
                    end: Ok(()),
                }
            },
        }
    }
}

/// Why a drop-in is not written that a persisted one masks.
pub open spec fn masked_text(path: Seq<char>) -> Seq<char> {
    path
        + " is read instead of the drop-in this would write, as the two share a name: persist this one, or take that one away"@
}

/// What taking the drop-in of a key away comes to, by how the removal went: whether
/// there was one, or why it is still there.  A key that the store never held is not
/// a failure.
pub open spec fn unset_in(path: Seq<char>, removed: Result<bool, Seq<char>>) -> Result<
    Option<Seq<char>>,
    Seq<char>,
> {
    match removed {
        Ok(there) => Ok(
            if there {
                Some(path)
            } else {
                None
            },
        ),
        Err(e) => Err("Failed to remove "@ + path + ": "@ + e),
    }
}

impl Variables {
    /// Set the value addressed by a dotted key, and add what writes it as a user
    /// drop-in of `store`, named after the key.
    pub fn set_json_and_store(
        &mut self,
        chores: &mut Vec<Chore>,
        key: &str,
        value: &str,
        store: Store,
        root: &str,
    ) -> (r: Result<(), String>)
        ensures
            set_one(
                (Setting { namespace: old(self)@, errands: errands(old(chores)@), end: Ok(()) }),
                key@,
                var::typed(value@),
                store,
                root@,
            ) == (Setting {
                namespace: final(self)@,
                errands: errands(final(chores)@),
                end: var::outcome(r),
            }),
    {
        let v = var::json_or_string(value);
        set_key(self, chores, key, &v, store, root)
    }

    /// Set the value addressed by a dotted key, and add what writes it as the user
    /// drop-in `name` of `store`, so that the caller decides its name, and with it
    /// where the override belongs in the sequence of drop-ins.  `masked` says whether
    /// a persisted drop-in of that name is there.
    pub fn set_json_and_store_as(
        &mut self,
        chores: &mut Vec<Chore>,
        key: &str,
        value: &str,
        name: &str,
        store: Store,
        root: &str,
        masked: bool,
    ) -> (r: Result<(), String>)
        ensures
            set_named(
                (Setting { namespace: old(self)@, errands: errands(old(chores)@), end: Ok(()) }),
                key@,
                var::typed(value@),
                name@,
                store,
                root@,
                masked,
            ) == (Setting {
                namespace: final(self)@,
                errands: errands(final(chores)@),
                end: var::outcome(r),
            }),
    {
        let ghost had = errands(chores@);
        if let Some(above) = Variables::masking_path(store, name, root) {
            if masked {
                return Err(Variables::masked(above.as_str()));
            }
        }
        let v = var::json_or_string(value);
        match self.set_value(key, &v) {
            Ok(_) => {},
            Err(e) => {
                return Err(e);
            },
        }
        let put = Chore::Put {
            path: path::join(path::join(root, store.dir()).as_str(), name),
            content: Variables::user_override(key, &v),
        };
        let ghost one = put@;
        chores.push(put);
        assert(errands(chores@) =~= had.push(one));
        if let Some(path) = Variables::replaced_path(store, name, root) {
            let clear = Chore::Clear { path };
            let ghost two = clear@;
            chores.push(clear);
            assert(errands(chores@) =~= had.push(one).push(two));
        }
        Ok(())
    }

    /// Set the values of a mapping of dotted keys, and add what writes each of them as
    /// a user drop-in of `store`, named after its key.
    pub fn set_kv_and_store(&mut self, chores: &mut Vec<Chore>, kv: &str, store: Store, root: &str) -> (r:
        Result<(), String>)
        ensures
            (match var::mapping_in(kv@) {
                Err(e) => Setting {
                    namespace: old(self)@,
                    errands: errands(old(chores)@),
                    end: Err(e),
                },
                Ok(m) => set_mapped(
                    (Setting { namespace: old(self)@, errands: errands(old(chores)@), end: Ok(()) }),
                    m,
                    text::listing(m.dom()),
                    store,
                    root@,
                ),
            }) == (Setting {
                namespace: final(self)@,
                errands: errands(final(chores)@),
                end: var::outcome(r),
            }),
    {
        let ghost start = Setting { namespace: self@, errands: errands(chores@), end: Ok(()) };
        let entries = match var::kv_entries(kv) {
            Ok(entries) => entries,
            Err(e) => {
                return Err(e);
            },
        };
        let ghost m = value::members(entries@);
        let keys = value::names(&entries);
        let ghost all = text::texts(keys@);
        let n: usize = keys.len();
        let mut i: usize = 0;
        while i < n
            invariant
                i <= n == keys@.len(),
                all == text::texts(keys@),
                all.to_set() == m.dom(),
                all == text::listing(m.dom()),
                m == value::members(entries@),
                var::mapping_in(kv@) == Ok::<Map<Seq<char>, Json>, Seq<char>>(m),
                start == (Setting {
                    namespace: old(self)@,
                    errands: errands(old(chores)@),
                    end: Ok(()),
                }),
                set_mapped(start, m, all.take(i as int), store, root@) == (Setting {
                    namespace: self@,
                    errands: errands(chores@),
                    end: Ok(()),
                }),
            decreases n - i,
        {
            proof {
                assert(all.take(i + 1).drop_last() =~= all.take(i as int));
                assert(all.take(i + 1).last() == keys@[i as int]@);
                assert(all[i as int] == keys@[i as int]@);
                assert(all.to_set().contains(all[i as int]));
            }
            match value::get(&entries, keys[i].as_str()) {
                Some(v) => match set_key(self, chores, keys[i].as_str(), v, store, root) {
                    Ok(_) => {},
                    Err(e) => {
                        proof {
                            lemma_mapped_stops(start, m, all, store, root@, i + 1);
                        }
                        return Err(e);
                    },
                },
                None => {},
            }
            i += 1;
        }
        assert(all.take(i as int) =~= all);
        Ok(())
    }

    /// Merge a document of variables in the namespace, and say what writes it as a
    /// user drop-in of `store`, by what was read of it, and whether a persisted
    /// drop-in of the same name is there.
    ///
    /// The document is copied verbatim, so its comments and its merge directive are
    /// preserved.
    pub fn merge_file_and_store(
        &mut self,
        file: &str,
        body: &Read,
        store: Store,
        root: &str,
        masked: bool,
        default: var::Merge,
    ) -> (r: (Vec<Chore>, Result<(), String>))
        ensures
            (final(self)@, errands(r.0@), var::outcome(r.1)) == merging(
                old(self)@,
                file@,
                said(*body),
                store,
                root@,
                masked,
                default,
            ),
    {
        let mut chores: Vec<Chore> = Vec::new();
        assert(errands(chores@) =~= Seq::empty());
        let document = match body {
            Err(e) => {
                return (chores, Err(e.clone()));
            },
            Ok(t) => match Variables::from_str(t.as_str()) {
                Ok(document) => document,
                Err(e) => {
                    return (chores, Err(e));
                },
            },
        };
        let name = match Variables::dropin_file_name(file, store) {
            Ok(name) => name,
            Err(e) => {
                return (chores, Err(e));
            },
        };
        let replaced = match Variables::dropin_file_name(file, Store::Runtime) {
            Ok(replaced) => replaced,
            Err(e) => {
                return (chores, Err(e));
            },
        };
        if let Some(above) = Variables::masking_path(store, name.as_str(), root) {
            if masked {
                return (chores, Err(Variables::masked(above.as_str())));
            }
        }
        chores.push(
            Chore::Copy { path: path::join(path::join(root, store.dir()).as_str(), name.as_str()) },
        );
        if let Some(path) = Variables::replaced_path(store, replaced.as_str(), root) {
            chores.push(Chore::Clear { path });
        }
        assert(errands(chores@) =~= (match store {
            Store::Runtime => seq![Errand::Copy { path: var::in_store(root@, store, name@) }],
            Store::Persisted => seq![
                Errand::Copy { path: var::in_store(root@, store, name@) },
                Errand::Clear { path: var::in_store(root@, Store::Runtime, replaced@) },
            ],
        }));
        let none: Vec<String> = Vec::new();
        assert(text::texts(none@) =~= Seq::empty());
        let r = self.merge_document(&none, document, default);
        (chores, r)
    }

    /// The drop-in that `store` keeps the override of a dotted key in, when it was
    /// there to be taken away.
    ///
    /// Only the drop-ins that `detc var` writes are reachable this way: the name is
    /// derived from the key, so a document that the administrator wrote is never
    /// behind it.
    pub fn unset_key(key: &str, store: Store, root: &str, removed: Result<bool, String>) -> (r: Result<
        Option<String>,
        String,
    >)
        ensures
            unset_in(
                var::in_store(root@, store, var::dropin_of(key@, store)),
                var::outcome(removed),
            ) == (match r {
                Ok(path) => Ok(text::text_of(path)),
                Err(e) => Err(e@),
            }),
    {
        let path = Variables::dropin_path(key, store, root);
        match removed {
            Ok(there) => Ok(
                if there {
                    Some(path)
                } else {
                    None
                },
            ),
            Err(e) => {
                let mut m = "Failed to remove ".to_owned();
                m.append(path.as_str());
                m.append(": ");
                m.append(e.as_str());
                Err(m)
            },
        }
    }
}

/// Store a document of variables as a drop-in, by what was read of it, and whether a
/// persisted drop-in of the same name is there.
pub fn store_document(
    system: Result<Variables, String>,
    file: &str,
    body: &Read,
    store: Store,
    root: &str,
    masked: bool,
) -> (r: (Vec<Chore>, Result<(), String>))
    ensures
        (errands(r.0@), var::outcome(r.1)) == storing(
            var::namespace(system),
            file@,
            said(*body),
            store,
            root@,
            masked,
        ),
{
    match system {
        Ok(mut var) => var.merge_file_and_store(
            file,
            body,
            store,
            root,
            masked,
            var::DEFAULT_MERGE,
        ),
        Err(e) => {
            let chores: Vec<Chore> = Vec::new();
            assert(errands(chores@) =~= Seq::empty());
            (chores, Err(e))
        },
    }
}

/// Why a request to take variables away is refused.
pub open spec fn unset_error(given: Given) -> Option<Seq<char>> {
    if given.key.len() == 0 {
        Some("Which variables to take away is given with -k"@)
    } else if given.value.len() > 0 || given.kv.len() > 0 {
        Some("Taking a variable away needs the key alone, and no value"@)
    } else {
        None
    }
}

/// Where the two stores keep the values of keys, key by key.
pub open spec fn both_dropins(keys: Seq<Seq<char>>, root: Seq<char>) -> Seq<Seq<char>>
    decreases keys.len(),
{
    if keys.len() == 0 {
        Seq::empty()
    } else {
        both_dropins(keys.drop_last(), root) + seq![
            var::in_store(root, Store::Runtime, var::dropin_of(keys.last(), Store::Runtime)),
            var::in_store(root, Store::Persisted, var::dropin_of(keys.last(), Store::Persisted)),
        ]
    }
}

/// The drop-ins that taking variables away reaches, or why it is refused.
///
/// Both stores are cleared, because unsetting is undoing what was typed rather than
/// choosing a store to undo it in.  Every key is asked about before any of them is
/// taken away, so that a command naming one that a bundle owns leaves the system as
/// it found it.
pub fn unset_variables(args: &VarArgs, root: &str, holdings: &Vec<Holding>) -> (r: Result<
    Vec<String>,
    String,
>)
    ensures
        match unset_error(args@) {
            Some(e) => r is Err && r->Err_0@ == e,
            None => match text::first_of(
                both_dropins(args@.key, root@),
                bundled_paths(root@, holdings@),
            ) {
                Some(e) => r is Err && r->Err_0@ == e,
                None => r is Ok && text::texts(r->Ok_0@) == both_dropins(args@.key, root@),
            },
        },
{
    if args.key.len() == 0 {
        return Err("Which variables to take away is given with -k".to_owned());
    }
    if args.value.len() > 0 || args.kv.len() > 0 {
        return Err("Taking a variable away needs the key alone, and no value".to_owned());
    }
    let ghost all = args@.key;
    let mut paths: Vec<String> = Vec::new();
    let n: usize = args.key.len();
    let mut i: usize = 0;
    assert(text::texts(paths@) =~= Seq::empty());
    while i < n
        invariant
            i <= n == args.key@.len(),
            all == text::texts(args.key@),
            text::texts(paths@) == both_dropins(all.take(i as int), root@),
        decreases n - i,
    {
        let ghost had = text::texts(paths@);
        proof {
            assert(all.take(i + 1).drop_last() =~= all.take(i as int));
            assert(all.take(i + 1).last() == args.key@[i as int]@);
        }
        let runtime = Variables::dropin_path(args.key[i].as_str(), Store::Runtime, root);
        let persisted = Variables::dropin_path(args.key[i].as_str(), Store::Persisted, root);
        paths.push(runtime);
        paths.push(persisted);
        assert(text::texts(paths@) =~= had + seq![runtime@, persisted@]);
        i += 1;
    }
    assert(all.take(i as int) =~= all);
    match refuse_bundled(root, &paths, holdings) {
        Ok(_) => Ok(paths),
        Err(e) => Err(e),
    }
}

/// What taking one key away says: the drop-ins that went, and, once they did, what
/// still answers for the key.
pub open spec fn unset_sayings(
    key: Seq<char>,
    root: Seq<char>,
    runtime: bool,
    persisted: bool,
    remains: Option<Seq<char>>,
) -> Seq<Saying> {
    (if runtime {
        seq![
            dropin_saying(
                "remove"@,
                "variable"@,
                var::in_store(root, Store::Runtime, var::dropin_of(key, Store::Runtime)),
            ),
        ]
    } else {
        Seq::empty()
    }) + (if persisted {
        seq![
            dropin_saying(
                "remove"@,
                "variable"@,
                var::in_store(root, Store::Persisted, var::dropin_of(key, Store::Persisted)),
            ),
        ]
    } else {
        Seq::empty()
    }) + match remains {
        Some(source) => seq![dropin_saying("remains"@, "variable "@ + key, source)],
        None => Seq::empty(),
    }
}

/// What taking one key away says, by whether each of the two stores held it, and
/// what still answers for it.
///
/// A drop-in taken away uncovers whatever was under it, so the key can still be set,
/// and by something no drop-in of `detc var` can reach.
pub fn unset_records(
    key: &str,
    root: &str,
    runtime: bool,
    persisted: bool,
    remains: Option<&str>,
) -> (r: Vec<Record>)
    ensures
        sayings(r@) == unset_sayings(
            key@,
            root@,
            runtime,
            persisted,
            match remains {
                Some(source) => Some(source@),
                None => None,
            },
        ),
{
    let mut r: Vec<Record> = Vec::new();
    if runtime {
        r.push(
            dropin_record(
                "remove",
                "variable",
                Variables::dropin_path(key, Store::Runtime, root).as_str(),
            ),
        );
    }
    if persisted {
        r.push(
            dropin_record(
                "remove",
                "variable",
                Variables::dropin_path(key, Store::Persisted, root).as_str(),
            ),
        );
    }
    if let Some(source) = remains {
        let mut object = "variable ".to_owned();
        object.append(key);
        r.push(dropin_record("remains", object.as_str(), source));
    }
    assert(sayings(r@) =~= unset_sayings(
        key@,
        root@,
        runtime,
        persisted,
        match remains {
            Some(source) => Some(source@),
            None => None,
        },
    ));
    r
}

/// What the values of keys are, up to the first that has none.
pub open spec fn answers(j: Json, keys: Seq<Seq<char>>) -> Speech
    decreases keys.len(),
{
    if keys.len() == 0 {
        Speech { said: Seq::empty(), end: Ok(()) }
    } else {
        let before = answers(j, keys.drop_last());
        match before.end {
            Err(_) => before,
            Ok(_) => {
                let found = match var::value_at(j, keys.last()) {
                    Ok(v) => document::yaml_text(v),
                    Err(e) => Err(e),
                };
                match found {
                    Ok(t) => Speech { said: before.said.push(Saying::Text(t)), end: Ok(()) },
                    Err(e) => Speech { said: before.said, end: Err(e) },
                }
            },
        }
    }
}

proof fn lemma_answers_stop(j: Json, keys: Seq<Seq<char>>, i: int)
    requires
        0 <= i <= keys.len(),
        answers(j, keys.take(i)).end is Err,
    ensures
        answers(j, keys) == answers(j, keys.take(i)),
    decreases keys.len() - i,
{
    if i == keys.len() {
        assert(keys.take(i) =~= keys);
    } else {
        assert(keys.take(i + 1).drop_last() =~= keys.take(i));
        lemma_answers_stop(j, keys, i + 1);
    }
}

/// Show the values of keys of the namespace.
pub fn query(var: &Variables, keys: &Vec<String>) -> (r: Told)
    ensures
        r@ == answers(var@, text::texts(keys@)),
{
    let ghost all = text::texts(keys@);
    let mut records: Vec<Record> = Vec::new();
    let n: usize = keys.len();
    let mut i: usize = 0;
    assert(sayings(records@) =~= Seq::empty());
    while i < n
        invariant
            i <= n == keys@.len(),
            all == text::texts(keys@),
            answers(var@, all.take(i as int)) == (Speech {
                said: sayings(records@),
                end: Ok(()),
            }),
        decreases n - i,
    {
        let ghost had = sayings(records@);
        proof {
            assert(all.take(i + 1).drop_last() =~= all.take(i as int));
            assert(all.take(i + 1).last() == keys@[i as int]@);
        }
        match var.get_yaml(keys[i].as_str()) {
            Ok(t) => {
                let record = Record::Text(t);
                records.push(record);
                assert(sayings(records@) =~= had.push(record@));
            },
            Err(e) => {
                proof {
                    lemma_answers_stop(var@, all, i + 1);
                }
                return Told { records, end: Err(e) };
            },
        }
        i += 1;
    }
    assert(all.take(i as int) =~= all);
    Told { records, end: Ok(()) }
}

/// The records of probes, and where they are mounted.
pub open spec fn probe_sayings(s: Seq<(String, String)>) -> Seq<Saying> {
    Seq::new(s.len(), |i: int| Saying::Probe { mount: s[i].0@, path: s[i].1@ })
}

/// List the probes, as the mount point that each feeds and the program that it is.
pub fn list_probes(probes: &Vec<(String, String)>) -> (r: Vec<Record>)
    ensures
        sayings(r@) == probe_sayings(probes@),
{
    let ghost all = probe_sayings(probes@);
    let mut r: Vec<Record> = Vec::new();
    let n: usize = probes.len();
    let mut i: usize = 0;
    assert(sayings(r@) =~= all.take(0));
    while i < n
        invariant
            i <= n == probes@.len(),
            all == probe_sayings(probes@),
            sayings(r@) == all.take(i as int),
        decreases n - i,
    {
        let ghost had = sayings(r@);
        let record = Record::Probe { mount: probes[i].0.clone(), path: probes[i].1.clone() };
        assert(record@ == all[i as int]);
        r.push(record);
        assert(sayings(r@) =~= had.push(record@));
        assert(had.push(record@) =~= all.take(i + 1));
        i += 1;
    }
    assert(all.take(i as int) =~= all);
    r
}

/// What a request for `var` comes to.
pub enum Quest {
    /// Take these drop-ins away, two for each key.
    Unset { paths: Vec<String> },
    /// Say what would be written, and what persisting it would take away.
    Foretell { dropins: Vec<String>, cleared: Vec<String> },
    /// Store the document.
    Document,
    /// Do what sets the keys, and end in this way.
    Keep { chores: Vec<Chore>, end: Result<(), String> },
    /// List the probes.
    Probes,
    /// Run the probe and show what it reports.
    Probe,
    /// Show the values of the keys.
    Keys,
    /// Show the whole namespace.
    Whole,
}

/// What a request for `var` comes to, as plain values.
pub enum Pursuit {
    Unset { paths: Seq<Seq<char>> },
    Foretell { dropins: Seq<Seq<char>>, cleared: Seq<Seq<char>> },
    Document,
    Keep { errands: Seq<Errand>, end: Result<(), Seq<char>> },
    Probes,
    Probe,
    Keys,
    Whole,
}

impl View for Quest {
    type V = Pursuit;

    open spec fn view(&self) -> Pursuit {
        match *self {
            Quest::Unset { paths } => Pursuit::Unset { paths: text::texts(paths@) },
            Quest::Foretell { dropins, cleared } => Pursuit::Foretell {
                dropins: text::texts(dropins@),
                cleared: text::texts(cleared@),
            },
            Quest::Document => Pursuit::Document,
            Quest::Keep { chores, end } => Pursuit::Keep {
                errands: errands(chores@),
                end: var::outcome(end),
            },
            Quest::Probes => Pursuit::Probes,
            Quest::Probe => Pursuit::Probe,
            Quest::Keys => Pursuit::Keys,
            Quest::Whole => Pursuit::Whole,
        }
    }
}

/// A quest, or why there is none.
pub open spec fn pursued(r: Result<Quest, String>) -> Result<Pursuit, Seq<char>> {
    match r {
        Ok(quest) => Ok(quest@),
        Err(e) => Err(e@),
    }
}

/// The store that a request is for.
pub open spec fn store_for(persist: bool) -> Store {
    if persist {
        Store::Persisted
    } else {
        Store::Runtime
    }
}

/// What a request to set variables comes to.  What a bundle put there is refused
/// before anything is written, and on a dry run as well, so that a run that says what
/// it would do does not say something that it cannot.
pub open spec fn write_pursuit(
    r: VarRequest,
    root: Seq<char>,
    holdings: Seq<Holding>,
    dry_run: bool,
) -> Result<Pursuit, Seq<char>> {
    let store = store_for(r.persist);
    let file = text::text_of(r.file);
    match (
        written_to(file, r.args@, store, root),
        written_to(file, r.args@, Store::Runtime, root),
    ) {
        (Err(e), _) => Err(e),
        (_, Err(e)) => Err(e),
        (Ok(dropins), Ok(cleared)) => match text::first_of(dropins, bundled_paths(root, holdings)) {
            Some(e) => Err(e),
            None => match text::first_of(cleared, bundled_paths(root, holdings)) {
                Some(e) if r.persist => Err(e),
                _ => if dry_run {
                    Ok(Pursuit::Foretell { dropins, cleared })
                } else if r.file is Some {
                    Ok(Pursuit::Document)
                } else {
                    Ok(
                        Pursuit::Keep {
                            errands: settings(r.args@, store, root).errands,
                            end: settings(r.args@, store, root).end,
                        },
                    )
                },
            },
        },
    }
}

/// What a request for `var` comes to, or why it is refused.
pub open spec fn pursuit(
    r: VarRequest,
    root: Seq<char>,
    holdings: Seq<Holding>,
    dry_run: bool,
) -> Result<Pursuit, Seq<char>> {
    match purpose_of(r) {
        Purpose::Unset => match unset_error(r.args@) {
            Some(e) => Err(e),
            None => match text::first_of(
                both_dropins(r.args@.key, root),
                bundled_paths(root, holdings),
            ) {
                Some(e) => Err(e),
                None => Ok(Pursuit::Unset { paths: both_dropins(r.args@.key, root) }),
            },
        },
        Purpose::Write => write_pursuit(r, root, holdings, dry_run),
        Purpose::Probes => Ok(Pursuit::Probes),
        Purpose::Probe => Ok(Pursuit::Probe),
        Purpose::Keys => Ok(Pursuit::Keys),
        Purpose::Whole => Ok(Pursuit::Whole),
    }
}

/// What a request for `var` comes to, or why it is refused.
///
/// Setting a variable and taking one away are the only things here that write to the
/// system, so a dry run of the first names the drop-ins instead of writing them.
/// Querying the namespace writes nothing and is left alone.
pub fn variables(request: &VarRequest, root: &str, holdings: &Vec<Holding>, dry_run: bool) -> (r:
    Result<Quest, String>)
    ensures
        pursued(r) == pursuit(*request, root@, holdings@, dry_run),
{
    match request.purpose() {
        Purpose::Unset => match unset_variables(&request.args, root, holdings) {
            Ok(paths) => Ok(Quest::Unset { paths }),
            Err(e) => Err(e),
        },
        Purpose::Write => {
            let store = Store::of(request.persist);
            let file = match &request.file {
                Some(file) => Some(file.as_str()),
                None => None,
            };
            let (dropins, cleared) = match affected(file, &request.args, store, root) {
                Ok(both) => both,
                Err(e) => {
                    return Err(e);
                },
            };
            if let Err(e) = refuse_bundled(root, &dropins, holdings) {
                return Err(e);
            }
            if request.persist {
                if let Err(e) = refuse_bundled(root, &cleared, holdings) {
                    return Err(e);
                }
            }
            if dry_run {
                Ok(Quest::Foretell { dropins, cleared })
            } else if request.file.is_some() {
                Ok(Quest::Document)
            } else {
                let (chores, end) = set_variables(&request.args, store, root);
                Ok(Quest::Keep { chores, end })
            }
        },
        Purpose::Probes => Ok(Quest::Probes),
        Purpose::Probe => Ok(Quest::Probe),
        Purpose::Keys => Ok(Quest::Keys),
        Purpose::Whole => Ok(Quest::Whole),
    }
}

proof fn lemma_none_of(
    names: Seq<Seq<char>>,
    why: spec_fn(Seq<char>) -> Option<Seq<char>>,
    i: int,
)
    requires
        0 <= i < names.len(),
        text::first_of(names, why) is None,
    ensures
        why(names[i]) is None,
    decreases names.len(),
{
    if i < names.len() - 1 {
        lemma_none_of(names.drop_last(), why, i);
    }
}

/// A request to set variables writes no file of a bundle, whether it is a dry run or
/// not, and persisting them takes none away.
pub proof fn law_what_a_bundle_owns_is_not_written(
    r: VarRequest,
    root: Seq<char>,
    holdings: Seq<Holding>,
    dropins: Seq<Seq<char>>,
    cleared: Seq<Seq<char>>,
    i: int,
)
    requires
        write_pursuit(r, root, holdings, true) == Ok::<Pursuit, Seq<char>>(
            Pursuit::Foretell { dropins, cleared },
        ),
    ensures
        0 <= i < dropins.len() ==> bundled(root, dropins[i], holdings) is None,
        r.persist && 0 <= i < cleared.len() ==> bundled(root, cleared[i], holdings) is None,
        write_pursuit(r, root, holdings, false) is Ok,
{
    let why = bundled_paths(root, holdings);
    if 0 <= i < dropins.len() {
        lemma_none_of(dropins, why, i);
    }
    if r.persist && 0 <= i < cleared.len() {
        lemma_none_of(cleared, why, i);
    }
}

/// A value that is set is kept in the drop-in of its key, and the namespace answers
/// for the key with it.
pub proof fn law_what_is_set_is_kept(
    s: Setting,
    key: Seq<char>,
    v: Json,
    store: Store,
    root: Seq<char>,
)
    requires
        s.end is Ok,
        set_one(s, key, v, store, root).end is Ok,
    ensures
        set_one(s, key, v, store, root).errands.contains(
            Errand::Put {
                path: var::in_store(root, store, var::dropin_of(key, store)),
                content: document::json_pretty(var::nested(var::components(key), v)),
            },
        ),
        var::value_at(set_one(s, key, v, store, root).namespace, key) == Ok::<Json, Seq<char>>(v),
{
    let after = set_one(s, key, v, store, root);
    let n = s.errands.len() as int;
    assert(after.errands[n] == kept(key, v, store, root)[0]);
    var::law_set_is_read_back(s.namespace, key, v);
}

/// A variable is taken away where that is asked for; otherwise variables are
/// written where there is anything to write, and looked at where there is not.
pub proof fn law_a_request_has_one_purpose(r: VarRequest)
    ensures
        r.unset ==> purpose_of(r) == Purpose::Unset,
        !r.unset && writes(r.args@, r.file is Some, r.probes, r.probe is Some) ==> purpose_of(r)
            == Purpose::Write,
        !r.unset && r.probes ==> purpose_of(r) == Purpose::Probes,
        !r.unset && !r.probes && r.probe is Some ==> purpose_of(r) == Purpose::Probe,
        !r.unset && !r.probes && r.probe is None && r.file is None && r.args@.kv.len() == 0
            && r.args@.value.len() == 0 && r.args@.key.len() > 0 ==> purpose_of(r) == Purpose::Keys,
        !r.unset && !r.probes && r.probe is None && r.file is None && r.args@.kv.len() == 0
            && r.args@.key.len() == 0 ==> purpose_of(r) == Purpose::Whole,
{
}

/// What is to last is persisted, and anything else is kept until the next
/// boot.
pub proof fn law_what_is_to_last_is_persisted()
    ensures
        store_for(true) == Store::Persisted,
        store_for(false) == Store::Runtime,
{
}

/// A write goes to the document, if there is one, and then to a drop-in for
/// every key, in the order of the keys.
pub proof fn law_every_key_has_its_dropin(
    file: Option<Seq<char>>,
    given: Given,
    store: Store,
    root: Seq<char>,
    i: int,
)
    requires
        written_to(file, given, store, root) is Ok,
    ensures
        ({
            let all = written_to(file, given, store, root)->Ok_0;
            let first: int = if file is Some {
                1
            } else {
                0
            };
            &&& given.key.len() == given.value.len()
            &&& keys_set(given) is Ok
            &&& all.len() == first + keys_set(given)->Ok_0.len()
            &&& 0 <= i < keys_set(given)->Ok_0.len() ==> all[first + i] == var::in_store(
                root,
                store,
                var::dropin_of(keys_set(given)->Ok_0[i], store),
            )
            &&& 0 <= i < given.key.len() ==> keys_set(given)->Ok_0[i] == given.key[i]
            &&& file matches Some(f) ==> var::dropin_of_file(f, store) is Ok && all[0] == var::in_store(
                root,
                store,
                var::dropin_of_file(f, store)->Ok_0,
            )
        }),
{
}

/// The keys of a mapping are all of its keys, in their order, behind those of
/// the mappings before it.
pub proof fn law_a_mapping_gives_its_keys(kv: Seq<Seq<char>>, one: Seq<char>)
    requires
        mapped_keys(kv) is Ok,
    ensures
        mapped_keys(Seq::empty()) == Ok::<Seq<Seq<char>>, Seq<char>>(Seq::empty()),
        var::mapping_in(one) is Err ==> mapped_keys(kv.push(one)) is Err,
        var::mapping_in(one) matches Ok(m) ==> mapped_keys(kv.push(one)) == Ok::<
            Seq<Seq<char>>,
            Seq<char>,
        >(mapped_keys(kv)->Ok_0 + text::listing(m.dom())),
{
    assert(kv.push(one).drop_last() =~= kv);
}

/// A path is refused when an installed bundle owns it, or when that cannot be
/// found out, and is free otherwise.
pub proof fn law_a_path_is_free_unless_a_bundle_owns_it(
    root: Seq<char>,
    path: Seq<char>,
    holdings: Seq<Holding>,
)
    ensures
        bundled(root, path, holdings) is None <==> path::below(path, root) is None || bundle::owner_of(
            root,
            path::below(path, root)->0,
            holdings,
        ) == Ok::<Option<bundle::Identity>, Seq<char>>(None),
{
}

/// A trial says that a drop-in would be updated where there is one and created
/// where there is none, each in its place.
pub proof fn law_a_trial_says_what_would_be_written(s: Seq<(Seq<char>, bool)>, i: int)
    requires
        0 <= i < s.len(),
    ensures
        would_write(s).len() == s.len(),
        would_write(s)[i] == (Saying::Change {
            action: if s[i].1 {
                "update"@
            } else {
                "create"@
            },
            object: "variable"@,
            summary: Some(s[i].0),
            error: None,
        }),
{
}

/// A trial says that a drop-in would be removed where there is one, and says
/// nothing where there is none.
pub proof fn law_a_trial_says_what_would_be_removed(s: Seq<(Seq<char>, bool)>, one: (Seq<char>, bool))
    ensures
        would_clear(Seq::empty()).len() == 0,
        !one.1 ==> would_clear(s.push(one)) == would_clear(s),
        one.1 ==> would_clear(s.push(one)) == would_clear(s).push(
            Saying::Change {
                action: "remove"@,
                object: "variable"@,
                summary: Some(one.0),
                error: None,
            },
        ),
{
    assert(s.push(one).drop_last() =~= s);
}

/// A value is kept in a drop-in of its key that holds it under the whole key;
/// persisting it takes away what was kept of it until the next boot.
pub proof fn law_persisting_takes_away_what_was_temporary(
    key: Seq<char>,
    v: Json,
    root: Seq<char>,
)
    ensures
        kept(key, v, Store::Runtime, root).len() == 1,
        kept(key, v, Store::Persisted, root).len() == 2,
        kept(key, v, Store::Runtime, root)[0] == (Errand::Put {
            path: var::in_store(root, Store::Runtime, var::dropin_of(key, Store::Runtime)),
            content: document::json_pretty(var::nested(var::components(key), v)),
        }),
        kept(key, v, Store::Persisted, root)[0] == (Errand::Put {
            path: var::in_store(root, Store::Persisted, var::dropin_of(key, Store::Persisted)),
            content: document::json_pretty(var::nested(var::components(key), v)),
        }),
        kept(key, v, Store::Persisted, root)[1] == (Errand::Clear {
            path: var::in_store(root, Store::Runtime, var::dropin_of(key, Store::Runtime)),
        }),
        var::walk(var::nested(var::components(key), v), var::components(key)) == Some(v),
{
    lemma_nested_walks(var::components(key), v);
}

proof fn lemma_nested_walks(keys: Seq<Seq<char>>, v: Json)
    ensures
        var::walk(var::nested(keys, v), keys) == Some(v),
    decreases keys.len(),
{
    if keys.len() > 0 {
        lemma_nested_walks(keys.drop_first(), v);
    }
}

/// Settings are made one after the other until one of them fails; what was
/// made before it stays made.
pub proof fn law_settings_stop_at_the_first_that_fails(
    s: Setting,
    key: Seq<char>,
    v: Json,
    store: Store,
    root: Seq<char>,
)
    ensures
        s.end is Err ==> set_one(s, key, v, store, root) == s,
        s.end is Ok && var::set_at(s.namespace, key, v) is Err ==> {
            let after = set_one(s, key, v, store, root);
            &&& after.end is Err
            &&& after.errands == s.errands
            &&& after.namespace == s.namespace
        },
        s.end is Ok && var::set_at(s.namespace, key, v) is Ok ==> {
            let after = set_one(s, key, v, store, root);
            &&& after.end is Ok
            &&& after.errands == s.errands + kept(key, v, store, root)
            &&& var::value_at(after.namespace, key) == Ok::<Json, Seq<char>>(v)
        },
{
    if s.end is Ok && var::set_at(s.namespace, key, v) is Ok {
        var::law_set_is_read_back(s.namespace, key, v);
    }
}

/// Pairs are set in their order, each to the value that it writes.
pub proof fn law_pairs_are_set_in_their_order(
    s: Setting,
    pairs: Seq<(Seq<char>, Seq<char>)>,
    key: Seq<char>,
    t: Seq<char>,
    store: Store,
    root: Seq<char>,
)
    ensures
        set_typed(s, Seq::empty(), store, root) == s,
        set_typed(s, pairs.push((key, t)), store, root) == set_one(
            set_typed(s, pairs, store, root),
            key,
            var::typed(t),
            store,
            root,
        ),
{
    assert(pairs.push((key, t)).drop_last() =~= pairs);
}

/// Keys and values that do not go together set nothing at all, and those that
/// do are set from nothing, before the mappings are.
pub proof fn law_what_is_given_is_set_from_nothing(given: Given, store: Store, root: Seq<char>)
    ensures
        given.key.len() != given.value.len() ==> settings(given, store, root).end is Err && settings(
            given,
            store,
            root,
        ).errands.len() == 0,
        given.key.len() == 0 && given.value.len() == 0 && given.kv.len() == 0 ==> settings(
            given,
            store,
            root,
        ).end is Ok && settings(given, store, root).errands.len() == 0,
        given.key.len() == 1 && given.value.len() == 1 && given.kv.len() == 0 ==> ({
            let nothing = Json::Object(Map::empty());
            let v = var::typed(given.value[0]);
            let s = settings(given, store, root);
            &&& s.end is Ok <==> var::set_at(nothing, given.key[0], v) is Ok
            &&& s.end is Ok ==> s.errands == kept(given.key[0], v, store, root)
        }),
{
    if given.key.len() == 1 && given.value.len() == 1 && given.kv.len() == 0 {
        let pairs = pairs_of(given)->Ok_0;
        let none = Seq::<(Seq<char>, Seq<char>)>::empty();
        assert(pairs =~= none.push((given.key[0], given.value[0])));
        let start = Setting {
            namespace: Json::Object(Map::empty()),
            errands: Seq::empty(),
            end: Ok(()),
        };
        law_pairs_are_set_in_their_order(start, none, given.key[0], given.value[0], store, root);
        let more = kept(given.key[0], var::typed(given.value[0]), store, root);
        assert(Seq::<Errand>::empty() + more =~= more);
    }
}

/// A document is copied to its drop-in and merged into the namespace. One that
/// a persisted document of the same name would hide is refused, and persisting
/// one takes away the temporary one of its name.
pub proof fn law_a_document_is_copied_and_merged(
    j: Json,
    file: Seq<char>,
    t: Seq<char>,
    root: Seq<char>,
    default: var::Merge,
)
    requires
        var::document_in(t) is Ok,
        path::last_name(file) is Some,
    ensures
        ({
            let runtime = var::dropin_of_file(file, Store::Runtime)->Ok_0;
            let persisted = var::dropin_of_file(file, Store::Persisted)->Ok_0;
            let after = var::merged_at(j, Seq::empty(), var::document_in(t)->Ok_0, default);
            let (seen, errands, end) = merging(
                j,
                file,
                Ok(t),
                Store::Runtime,
                root,
                false,
                default,
            );
            let (kept_seen, kept_errands, kept_end) = merging(
                j,
                file,
                Ok(t),
                Store::Persisted,
                root,
                false,
                default,
            );
            &&& merging(j, file, Ok(t), Store::Runtime, root, true, default).2 is Err
            &&& merging(j, file, Ok(t), Store::Runtime, root, true, default).1.len() == 0
            &&& merging(j, file, Ok(t), Store::Persisted, root, true, default) == merging(
                j,
                file,
                Ok(t),
                Store::Persisted,
                root,
                false,
                default,
            )
            &&& errands == seq![Errand::Copy { path: var::in_store(root, Store::Runtime, runtime) }]
            &&& kept_errands == seq![
                Errand::Copy { path: var::in_store(root, Store::Persisted, persisted) },
                Errand::Clear { path: var::in_store(root, Store::Runtime, runtime) },
            ]
            &&& after is Ok <==> end is Ok
            &&& after is Ok <==> kept_end is Ok
            &&& after is Ok ==> seen == after->Ok_0 && kept_seen == after->Ok_0
            &&& after is Err ==> seen == j && kept_seen == j
        }),
        forall|e: Seq<char>, store: Store, masked: bool|
            (#[trigger] merging(j, file, Err(e), store, root, masked, default)).2 is Err && merging(
                j,
                file,
                Err(e),
                store,
                root,
                masked,
                default,
            ).1.len() == 0,
{
}

/// Taking away needs keys and nothing else, and takes away both drop-ins of
/// every key.
pub proof fn law_taking_away_needs_keys_alone(
    given: Given,
    keys: Seq<Seq<char>>,
    key: Seq<char>,
    root: Seq<char>,
)
    ensures
        unset_error(given) is None <==> given.key.len() > 0 && given.value.len() == 0 && given.kv.len()
            == 0,
        both_dropins(Seq::empty(), root).len() == 0,
        both_dropins(keys.push(key), root) == both_dropins(keys, root) + seq![
            var::in_store(root, Store::Runtime, var::dropin_of(key, Store::Runtime)),
            var::in_store(root, Store::Persisted, var::dropin_of(key, Store::Persisted)),
        ],
{
    assert(keys.push(key).drop_last() =~= keys);
}

/// Of a key that is taken away, each drop-in that was there is said, and last
/// where a value of it still comes from.
pub proof fn law_what_is_taken_away_is_said(
    key: Seq<char>,
    root: Seq<char>,
    runtime: bool,
    persisted: bool,
    remains: Option<Seq<char>>,
)
    ensures
        ({
            let all = unset_sayings(key, root, runtime, persisted, remains);
            let first: int = if runtime {
                1
            } else {
                0
            };
            let second: int = first + if persisted {
                1int
            } else {
                0
            };
            &&& all.len() == second + (if remains is Some {
                1int
            } else {
                0
            })
            &&& runtime ==> all[0] == dropin_saying(
                "remove"@,
                "variable"@,
                var::in_store(root, Store::Runtime, var::dropin_of(key, Store::Runtime)),
            )
            &&& persisted ==> all[first] == dropin_saying(
                "remove"@,
                "variable"@,
                var::in_store(root, Store::Persisted, var::dropin_of(key, Store::Persisted)),
            )
            &&& remains matches Some(source) ==> all[second] == dropin_saying(
                "remains"@,
                "variable "@ + key,
                source,
            )
        }),
{
}

/// What was removed is the path, what was not there is nothing, and what could
/// not be removed is an error.
pub proof fn law_a_removal_says_what_it_removed(path: Seq<char>, e: Seq<char>)
    ensures
        unset_in(path, Ok(true)) == Ok::<Option<Seq<char>>, Seq<char>>(Some(path)),
        unset_in(path, Ok(false)) == Ok::<Option<Seq<char>>, Seq<char>>(None),
        unset_in(path, Err(e)) is Err,
{
}

/// Keys are answered in their order, each with its value as YAML, until one is
/// not there.
pub proof fn law_keys_are_answered_in_their_order(j: Json, keys: Seq<Seq<char>>, key: Seq<char>)
    ensures
        answers(j, Seq::empty()).said.len() == 0,
        answers(j, Seq::empty()).end is Ok,
        answers(j, keys).end is Err ==> answers(j, keys.push(key)) == answers(j, keys),
        answers(j, keys).end is Ok && var::value_at(j, key) is Err ==> answers(j, keys.push(key)).end is Err
            && answers(j, keys.push(key)).said == answers(j, keys).said,
        answers(j, keys).end is Ok && var::value_at(j, key) is Ok && document::yaml_text(
            var::value_at(j, key)->Ok_0,
        ) is Ok ==> answers(j, keys.push(key)).end is Ok && answers(j, keys.push(key)).said == answers(
            j,
            keys,
        ).said.push(Saying::Text(document::yaml_text(var::value_at(j, key)->Ok_0)->Ok_0)),
{
    assert(keys.push(key).drop_last() =~= keys);
}

/// Whether a path is owned by nobody.
pub open spec fn is_free(root: Seq<char>, holdings: Seq<Holding>, paths: Seq<Seq<char>>) -> bool {
    forall|i: int| 0 <= i < paths.len() ==> bundled(root, #[trigger] paths[i], holdings) is None
}

/// A write is carried out when nothing that it touches is a bundle's, and is
/// refused when anything is: every drop-in that it writes, and, where it is to
/// last, every temporary one that it takes away. A trial only says what it
/// would do.
pub proof fn law_a_write_touches_no_bundle(
    r: VarRequest,
    root: Seq<char>,
    holdings: Seq<Holding>,
    dry_run: bool,
)
    requires
        written_to(text::text_of(r.file), r.args@, store_for(r.persist), root) is Ok,
        written_to(text::text_of(r.file), r.args@, Store::Runtime, root) is Ok,
    ensures
        ({
            let dropins = written_to(text::text_of(r.file), r.args@, store_for(r.persist), root)->Ok_0;
            let cleared = written_to(text::text_of(r.file), r.args@, Store::Runtime, root)->Ok_0;
            let p = write_pursuit(r, root, holdings, dry_run);
            &&& p is Ok <==> is_free(root, holdings, dropins) && (r.persist ==> is_free(
                root,
                holdings,
                cleared,
            ))
            &&& p is Ok && dry_run ==> p->Ok_0 == (Pursuit::Foretell { dropins, cleared })
            &&& p is Ok && !dry_run && r.file is Some ==> p->Ok_0 == Pursuit::Document
            &&& p is Ok && !dry_run && r.file is None ==> p->Ok_0 == (Pursuit::Keep {
                errands: settings(r.args@, store_for(r.persist), root).errands,
                end: settings(r.args@, store_for(r.persist), root).end,
            })
        }),
{
    let dropins = written_to(text::text_of(r.file), r.args@, store_for(r.persist), root)->Ok_0;
    let cleared = written_to(text::text_of(r.file), r.args@, Store::Runtime, root)->Ok_0;
    let why = bundled_paths(root, holdings);
    text::law_the_first_complaint_is_given(dropins, why);
    text::law_the_first_complaint_is_given(cleared, why);
    assert(text::first_of(dropins, why) is None <==> is_free(root, holdings, dropins)) by {
        if text::first_of(dropins, why) is None {
            assert forall|i: int| 0 <= i < dropins.len() implies bundled(
                root,
                #[trigger] dropins[i],
                holdings,
            ) is None by {
                assert(why(dropins[i]) is None);
            }
        }
        if is_free(root, holdings, dropins) {
            assert forall|i: int| 0 <= i < dropins.len() implies why(#[trigger] dropins[i]) is None by {
                assert(bundled(root, dropins[i], holdings) is None);
            }
        }
    }
    assert(text::first_of(cleared, why) is None <==> is_free(root, holdings, cleared)) by {
        if text::first_of(cleared, why) is None {
            assert forall|i: int| 0 <= i < cleared.len() implies bundled(
                root,
                #[trigger] cleared[i],
                holdings,
            ) is None by {
                assert(why(cleared[i]) is None);
            }
        }
        if is_free(root, holdings, cleared) {
            assert forall|i: int| 0 <= i < cleared.len() implies why(#[trigger] cleared[i]) is None by {
                assert(bundled(root, cleared[i], holdings) is None);
            }
        }
    }
}

/// A request to look at variables looks at what it names, and one to take
/// variables away takes away both drop-ins of every key, if none of them is a
/// bundle's.
pub proof fn law_a_request_is_pursued_for_its_purpose(
    r: VarRequest,
    root: Seq<char>,
    holdings: Seq<Holding>,
    dry_run: bool,
)
    ensures
        purpose_of(r) == Purpose::Probes ==> pursuit(r, root, holdings, dry_run) == Ok::<
            Pursuit,
            Seq<char>,
        >(Pursuit::Probes),
        purpose_of(r) == Purpose::Probe ==> pursuit(r, root, holdings, dry_run) == Ok::<
            Pursuit,
            Seq<char>,
        >(Pursuit::Probe),
        purpose_of(r) == Purpose::Keys ==> pursuit(r, root, holdings, dry_run) == Ok::<
            Pursuit,
            Seq<char>,
        >(Pursuit::Keys),
        purpose_of(r) == Purpose::Whole ==> pursuit(r, root, holdings, dry_run) == Ok::<
            Pursuit,
            Seq<char>,
        >(Pursuit::Whole),
        purpose_of(r) == Purpose::Write ==> pursuit(r, root, holdings, dry_run) == write_pursuit(
            r,
            root,
            holdings,
            dry_run,
        ),
        purpose_of(r) == Purpose::Unset && unset_error(r.args@) is Some ==> pursuit(
            r,
            root,
            holdings,
            dry_run,
        ) is Err,
        purpose_of(r) == Purpose::Unset && unset_error(r.args@) is None && is_free(
            root,
            holdings,
            both_dropins(r.args@.key, root),
        ) ==> pursuit(r, root, holdings, dry_run) == Ok::<Pursuit, Seq<char>>(
            Pursuit::Unset { paths: both_dropins(r.args@.key, root) },
        ),
        purpose_of(r) == Purpose::Unset && pursuit(r, root, holdings, dry_run) is Ok ==> is_free(
            root,
            holdings,
            both_dropins(r.args@.key, root),
        ),
{
    let paths = both_dropins(r.args@.key, root);
    let why = bundled_paths(root, holdings);
    text::law_the_first_complaint_is_given(paths, why);
    if is_free(root, holdings, paths) {
        assert forall|i: int| 0 <= i < paths.len() implies why(#[trigger] paths[i]) is None by {
            assert(bundled(root, paths[i], holdings) is None);
        }
    }
    if text::first_of(paths, why) is None {
        assert forall|i: int| 0 <= i < paths.len() implies bundled(root, #[trigger] paths[i], holdings) is None by {
            assert(why(paths[i]) is None);
        }
    }
}

/// A value that is set in a drop-in of a chosen name is put there, refused
/// where a persisted one of that name would hide it, and takes the temporary
/// one of that name away where it is persisted.
pub proof fn law_a_chosen_dropin_is_written(
    s: Setting,
    key: Seq<char>,
    v: Json,
    name: Seq<char>,
    root: Seq<char>,
)
    ensures
        ({
            let put = |store: Store|
                Errand::Put {
                    path: var::in_store(root, store, name),
                    content: document::json_pretty(var::nested(var::components(key), v)),
                };
            let hidden = set_named(s, key, v, name, Store::Runtime, root, true);
            let runtime = set_named(s, key, v, name, Store::Runtime, root, false);
            let persisted = set_named(s, key, v, name, Store::Persisted, root, true);
            &&& hidden.end is Err && hidden.errands == s.errands && hidden.namespace == s.namespace
            &&& persisted == set_named(s, key, v, name, Store::Persisted, root, false)
            &&& runtime.end is Ok <==> var::set_at(s.namespace, key, v) is Ok
            &&& persisted.end is Ok <==> var::set_at(s.namespace, key, v) is Ok
            &&& runtime.end is Ok ==> runtime.errands == s.errands.push(put(Store::Runtime))
            &&& persisted.end is Ok ==> persisted.errands == s.errands.push(
                put(Store::Persisted),
            ).push(Errand::Clear { path: var::in_store(root, Store::Runtime, name) })
            &&& runtime.end is Ok ==> var::value_at(runtime.namespace, key) == Ok::<Json, Seq<char>>(v)
            &&& runtime.end is Err ==> runtime.errands == s.errands && runtime.namespace == s.namespace
        }),
{
    if var::set_at(s.namespace, key, v) is Ok {
        var::law_set_is_read_back(s.namespace, key, v);
    }
}

/// A document is stored into the namespace of the system, by the strategy that
/// keeps what it does not name.
pub proof fn law_a_document_is_stored_into_the_system(
    j: Json,
    e: Seq<char>,
    file: Seq<char>,
    body: Result<Seq<char>, Seq<char>>,
    store: Store,
    root: Seq<char>,
    masked: bool,
)
    ensures
        storing(Err(e), file, body, store, root, masked) == (
            Seq::<Errand>::empty(),
            Err::<(), Seq<char>>(e),
        ),
        ({
            let (_, errands, end) = merging(j, file, body, store, root, masked, var::Merge::Partial);
            storing(Ok(j), file, body, store, root, masked) == (errands, end)
        }),
{
}

/// Mappings are set behind the pairs, each key of each mapping in its order,
/// until one fails.
pub proof fn law_mappings_are_set_in_their_order(
    s: Setting,
    kv: Seq<Seq<char>>,
    one: Seq<char>,
    m: Map<Seq<char>, Json>,
    keys: Seq<Seq<char>>,
    key: Seq<char>,
    store: Store,
    root: Seq<char>,
)
    ensures
        set_texts(s, Seq::empty(), store, root) == s,
        set_texts(s, kv, store, root).end is Err ==> set_texts(s, kv.push(one), store, root)
            == set_texts(s, kv, store, root),
        set_texts(s, kv, store, root).end is Ok && var::mapping_in(one) is Err ==> set_texts(
            s,
            kv.push(one),
            store,
            root,
        ).end is Err && set_texts(s, kv.push(one), store, root).errands == set_texts(
            s,
            kv,
            store,
            root,
        ).errands,
        set_texts(s, kv, store, root).end is Ok && var::mapping_in(one) is Ok ==> set_texts(
            s,
            kv.push(one),
            store,
            root,
        ) == set_mapped(
            set_texts(s, kv, store, root),
            var::mapping_in(one)->Ok_0,
            text::listing(var::mapping_in(one)->Ok_0.dom()),
            store,
            root,
        ),
        set_mapped(s, m, Seq::empty(), store, root) == s,
        set_mapped(s, m, keys.push(key), store, root) == set_one(
            set_mapped(s, m, keys, store, root),
            key,
            m[key],
            store,
            root,
        ),
{
    assert(kv.push(one).drop_last() =~= kv);
    assert(keys.push(key).drop_last() =~= keys);
}

/// Probes are said by where they are mounted and by their files, each in its
/// place.
pub proof fn law_probes_are_said_in_their_order(s: Seq<(String, String)>, i: int)
    requires
        0 <= i < s.len(),
    ensures
        probe_sayings(s).len() == s.len(),
        probe_sayings(s)[i] == (Saying::Probe { mount: s[i].0@, path: s[i].1@ }),
{
}

/// A write has its places whenever its keys and values go together, its
/// mappings can be read and its document has a name.
pub proof fn law_a_write_has_its_places(
    file: Option<Seq<char>>,
    given: Given,
    store: Store,
    root: Seq<char>,
)
    ensures
        keys_set(given) is Ok <==> given.key.len() == given.value.len() && mapped_keys(given.kv) is Ok,
        keys_set(given) is Ok ==> keys_set(given)->Ok_0 == given.key + mapped_keys(given.kv)->Ok_0,
        written_to(file, given, store, root) is Ok <==> keys_set(given) is Ok && (file is Some
            ==> path::last_name(file->0) is Some),
{
}

} // verus!
