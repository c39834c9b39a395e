//! What bundles do to a machine, from one command to the next.
//!
//! An install, a removal and a restore are decided in [`crate::bundle`], each from what
//! was found on the machine, and done to it afterwards.  Here the two are put together:
//! the files that a machine holds once the tasks are done, and what the next command
//! finds there.

use vstd::prelude::*;
use vstd::utf8::*;

use crate::bundle::{
    carried_trees, copy_dir, install_jobs, installed_path_of, installing, is_named_well, is_ours,
    kept_path_of, laid_out, listing_of, owner_of, placed, recorded_of, reinstalling, removing,
    state_dir, wanted_of, wants_restore, Account, Found, Holding, Identity, Job, Laid, Load, Look,
    Trial, FILES, KEPT, MANIFEST, STATE,
};
use crate::bundle;
use crate::path;
use crate::tar;
use crate::tar::Member;
use crate::text;

verus! {

/// Whether a load is what the members of an archive lay down.
pub open spec fn carried(l: Load, members: Seq<Member>) -> bool {
    &&& is_named_well(l.bundle.name)
    &&& laid_out(members) matches Ok((Some(_), files)) && files == l.files
    &&& forall|i: int| 0 <= i < members.len() ==> tar::name_error((#[trigger] members[i]).name) is None
}

/// Whether each of the names can stand on a line.
pub open spec fn on_lines(members: Seq<Member>) -> bool {
    forall|i: int| 0 <= i < members.len() ==> text::is_line((#[trigger] members[i]).name)
}

/// The members of a payload other than the one that says what it is.
pub open spec fn payload_of(members: Seq<Member>) -> Seq<Member>
    decreases members.len(),
{
    if members.len() == 0 {
        Seq::empty()
    } else if members.last().name == MANIFEST@ {
        payload_of(members.drop_last())
    } else {
        payload_of(members.drop_last()).push(members.last())
    }
}

proof fn lemma_components(name: Seq<char>, components: Seq<Seq<char>>)
    requires
        tar::component_error(name, components) is None,
    ensures
        forall|i: int|
            0 <= i < components.len() ==> (#[trigger] components[i]).len() > 0 && components[i]
                != "."@ && components[i] != ".."@,
    decreases components.len(),
{
    if components.len() > 0 {
        let rest = components.drop_first();
        lemma_components(name, rest);
        assert forall|i: int| 0 <= i < components.len() implies (#[trigger] components[i]).len() > 0
            && components[i] != "."@ && components[i] != ".."@ by {
            if i > 0 {
                assert(rest[i - 1] == components[i]);
            }
        }
    }
}

proof fn lemma_name_plain(name: Seq<char>)
    requires
        tar::name_error(name) is None,
    ensures
        path::names(name) == text::split(name, '/'),
        path::spelled(path::names(name)) == name,
        !path::climbs(name),
{
    let pieces = text::split(name, '/');
    reveal_strlit(".");
    assert("."@ =~= seq!['.']);
    lemma_components(name, pieces);
    path::lemma_plain(name);
    if path::climbs(name) {
        let i = choose|i: int| 0 <= i < pieces.len() && pieces[i] == ".."@;
    }
}

/// Where a member lands, for a name that an archive can hold.
proof fn lemma_lands(name: Seq<char>)
    requires
        tar::name_error(name) is None,
        placed(name) is Ok,
    ensures
        is_ours(placed(name)->Ok_0.0),
        text::is_line(name) ==> text::is_line(placed(name)->Ok_0.0),
        path::names(placed(name)->Ok_0.0).len() >= 3,
        path::names(placed(name)->Ok_0.0)[0] == "run"@,
        path::names(placed(name)->Ok_0.0).take(3) != state_dir(),
{
    let (p, mode) = placed(name)->Ok_0;
    lemma_name_plain(name);
    bundle::lemma_placed(name);
    bundle::lemma_bases();
    bundle::lemma_trees();
    bundle::lemma_tree_from(name, 0);
    let i = choose|i: int|
        0 <= i < carried_trees().len() && bundle::in_tree(name, (#[trigger] carried_trees()[i]).0);
    bundle::lemma_in_tree_at(name, carried_trees()[i].0, 0);
    text::lemma_split_first(name, '/');
    let all = path::names(name);
    let landed = path::names(p);
    reveal_strlit("bundles.d");
    assert("bundles.d"@[0] == 'b');
    assert(all[0][0] != 'b');
    assert(all[0] != "bundles.d"@);
    if landed.take(3) == state_dir() {
        assert(landed.take(3)[1] == "detc"@);
        assert(landed.take(3)[2] == "bundles.d"@);
        assert(landed[1] == "detc"@);
        assert(landed[2] == "bundles.d"@);
        if landed == seq!["run"@, "detc"@] + all {
            assert(landed[2] == all[0]);
        } else {
            assert(landed == seq!["run"@, "lib"@, "detc"@] + all);
            assert(landed[1] == "lib"@);
        }
    }
    reveal_strlit("run/detc");
    reveal_strlit("run/lib/detc");
    if text::is_line(name) {
        assert(p.last() == name.last());
        assert forall|k: int| 0 <= k < p.len() implies p[k] != '\n' by {
            let n = p.len() - name.len();
            if k >= n {
                assert(p[k] == name[k - n]);
            }
        }
    }
}

/// Members of different names land in different places.
proof fn lemma_lands_apart(a: Seq<char>, b: Seq<char>)
    requires
        tar::name_error(a) is None,
        tar::name_error(b) is None,
        placed(a) is Ok,
        placed(b) is Ok,
        a != b,
    ensures
        path::names(placed(a)->Ok_0.0) != path::names(placed(b)->Ok_0.0),
{
    lemma_name_plain(a);
    lemma_name_plain(b);
    bundle::lemma_placed(a);
    bundle::lemma_placed(b);
    bundle::lemma_bases();
    let x = path::names(placed(a)->Ok_0.0);
    let y = path::names(placed(b)->Ok_0.0);
    let data = seq!["run"@, "detc"@];
    let exec = seq!["run"@, "lib"@, "detc"@];
    if x == y {
        if x == data + path::names(a) && y == data + path::names(b) {
            assert(path::names(a) =~= x.skip(2));
            assert(path::names(b) =~= y.skip(2));
        } else if x == exec + path::names(a) && y == exec + path::names(b) {
            assert(path::names(a) =~= x.skip(3));
            assert(path::names(b) =~= y.skip(3));
        } else {
            assert(x[1] == y[1]);
        }
    }
}

/// Whether a file of a load is one of the members, and where that lands.
spec fn is_member(members: Seq<Member>, file: Laid, i: int) -> bool {
    &&& 0 <= i < members.len()
    &&& members[i].name != MANIFEST@
    &&& placed(members[i].name) == Ok::<(Seq<char>, u32), Seq<char>>((file.path, file.mode))
}

spec fn has_member(members: Seq<Member>, file: Laid) -> bool {
    exists|i: int| is_member(members, file, i)
}

/// What is laid down: every member but the manifest, each somewhere else.
proof fn lemma_laid_out(members: Seq<Member>)
    requires
        laid_out(members) is Ok,
        forall|i: int|
            0 <= i < members.len() ==> tar::name_error((#[trigger] members[i]).name) is None,
    ensures
        laid_out(members)->Ok_0.1.len() == payload_of(members).len(),
        forall|k: int|
            0 <= k < laid_out(members)->Ok_0.1.len() ==> has_member(
                members,
                #[trigger] laid_out(members)->Ok_0.1[k],
            ),
        path::all_apart(bundle::paths_of(laid_out(members)->Ok_0.1)),
    decreases members.len(),
{
    if members.len() > 0 {
        let less = members.drop_last();
        let last = members.last();
        assert forall|i: int| 0 <= i < less.len() implies tar::name_error(
            (#[trigger] less[i]).name,
        ) is None by {
            assert(less[i] == members[i]);
        }
        assert(tar::name_error(members[members.len() - 1].name) is None);
        lemma_laid_out(less);
        let some = laid_out(less)->Ok_0.1;
        let all = laid_out(members)->Ok_0.1;
        assert forall|k: int| 0 <= k < all.len() implies has_member(members, #[trigger] all[k]) by {
            if k < some.len() {
                assert(all[k] == some[k]);
                assert(has_member(less, some[k]));
                let i = choose|i: int| is_member(less, some[k], i);
                assert(is_member(members, all[k], i));
            } else {
                assert(is_member(members, all[k], members.len() - 1));
            }
        }
        let paths = bundle::paths_of(all);
        assert forall|i: int, j: int| 0 <= i < j < paths.len() implies path::names(
            #[trigger] paths[i],
        ) != path::names(#[trigger] paths[j]) by {
            let before = bundle::paths_of(some);
            assert(before[i] == paths[i]);
            if j < some.len() {
                assert(before[j] == paths[j]);
            } else {
                assert(has_member(less, some[i]));
                let q = choose|q: int| is_member(less, some[i], q);
                assert(members[q] == less[q]);
                assert(members[q].name != last.name);
                lemma_lands_apart(members[q].name, last.name);
            }
        }
    }
}

/// What an install of a load writes: its files, its state and its list, which are all
/// different.
proof fn lemma_wanted(l: Load, members: Seq<Member>)
    requires
        carried(l, members),
    ensures
        wanted_of(l).len() == payload_of(members).len() + 2,
        l.files.len() == payload_of(members).len(),
        forall|p: Seq<char>| #[trigger]
            path::holds_route(wanted_of(l), p) <==> path::holds_route(bundle::paths_of(l.files), p)
                || path::names(p) == state_dir().push(l.bundle.name + STATE@) || path::names(p)
                == state_dir().push(l.bundle.name + FILES@),
        forall|k: int|
            0 <= k < l.files.len() ==> is_ours((#[trigger] l.files[k]).path) && path::names(
                l.files[k].path,
            ).len() >= 3 && path::names(l.files[k].path)[0] == "run"@ && path::names(
                l.files[k].path,
            ).take(3) != state_dir() && (on_lines(members) ==> text::is_line(l.files[k].path)),
{
    let name = l.bundle.name;
    let own = bundle::paths_of(l.files);
    let state = installed_path_of(name, STATE@);
    let list = installed_path_of(name, FILES@);
    let a = path::path_set(own);
    let b = path::with_path(a, state);
    lemma_laid_out(members);
    bundle::lemma_state_path(name, STATE@);
    bundle::lemma_state_path(name, FILES@);
    assert forall|k: int| 0 <= k < l.files.len() implies is_ours((#[trigger] l.files[k]).path)
        && path::names(l.files[k].path).len() >= 3 && path::names(l.files[k].path)[0] == "run"@
        && path::names(l.files[k].path).take(3) != state_dir() && (on_lines(members)
        ==> text::is_line(l.files[k].path)) by {
        assert(has_member(members, l.files[k]));
        let i = choose|i: int| is_member(members, l.files[k], i);
        assert(tar::name_error(members[i].name) is None);
        lemma_lands(members[i].name);
    }
    path::lemma_path_set_len(own);
    path::lemma_path_set(own, state);
    path::lemma_with_path_len(a, state);
    path::lemma_with_path_ordered(a, state);
    path::lemma_with_path_len(b, list);
    let sr = state_dir().push(name + STATE@);
    let lr = state_dir().push(name + FILES@);
    assert(sr != lr) by {
        reveal_strlit(".yaml");
        reveal_strlit(".files");
        assert(sr[3] == name + STATE@ && lr[3] == name + FILES@);
        assert((name + STATE@).len() != (name + FILES@).len());
    }
    assert forall|p: Seq<char>| path::names(p) == sr || path::names(p) == lr implies !path::holds_route(
        own,
        p,
    ) by {
        if path::holds_route(own, p) {
            let k = choose|k: int| 0 <= k < own.len() && path::names(#[trigger] own[k]) == path::names(
                p,
            );
            assert(own[k] == l.files[k].path);
            assert(path::names(p).take(3) =~= state_dir());
        }
    }
    assert(!path::holds_route(own, state));
    assert(!path::holds_route(own, list));
    path::lemma_path_set(own, list);
    path::lemma_with_path_holds(a, state, list);
    assert forall|p: Seq<char>| #[trigger]
        path::holds_route(wanted_of(l), p) <==> path::holds_route(own, p) || path::names(p) == sr
            || path::names(p) == lr by {
        path::lemma_path_set(own, p);
        path::lemma_with_path_holds(a, state, p);
        path::lemma_with_path_holds(b, list, p);
    }
}

/// What a file of a machine holds, of those that bundles write.
pub enum Thing {
    /// Bytes that a bundle carries, or the list of what it wrote.
    Bytes(Seq<u8>),
    /// What a bundle is.
    State(Identity),
    /// A copy of the signed file of a bundle.
    Copy,
}

/// The files of a machine, by the names of their paths below its root.
pub type Disk = Map<Seq<Seq<char>>, Thing>;

/// What a machine holds at a path.
pub open spec fn at(disk: Disk, route: Seq<Seq<char>>) -> Option<Thing> {
    if disk.dom().contains(route) {
        Some(disk[route])
    } else {
        None
    }
}

/// Which file a task is about.  A directory that may go with the last file in it is
/// none.
pub open spec fn touched(job: Job) -> Option<Seq<Seq<char>>> {
    match job {
        Job::Write { path, .. } => Some(path::names(path)),
        Job::Describe { path, .. } => Some(path::names(path)),
        Job::Keep { path, .. } => Some(path::names(path)),
        Job::Unlink { path, .. } => Some(path::names(path)),
        Job::Discard { path } => Some(path::names(path)),
        Job::Vacate { .. } => None,
    }
}

/// What a task leaves of the file that it is about, for the sake of a bundle.
pub open spec fn left_by(bundle: Identity, job: Job) -> Option<Thing> {
    match job {
        Job::Write { data, .. } => Some(Thing::Bytes(data)),
        Job::Describe { .. } => Some(Thing::State(bundle)),
        Job::Keep { .. } => Some(Thing::Copy),
        _ => None,
    }
}

/// A machine once a task is done.
pub open spec fn done(disk: Disk, bundle: Identity, job: Job) -> Disk {
    match touched(job) {
        None => disk,
        Some(route) => match left_by(bundle, job) {
            Some(thing) => disk.insert(route, thing),
            None => disk.remove(route),
        },
    }
}

/// A machine once tasks are done, one after the other.
pub open spec fn done_all(disk: Disk, bundle: Identity, jobs: Seq<Job>) -> Disk
    decreases jobs.len(),
{
    if jobs.len() == 0 {
        disk
    } else {
        done(done_all(disk, bundle, jobs.drop_last()), bundle, jobs.last())
    }
}

/// Where the state or the list of an installed bundle is.
pub open spec fn state_route(name: Seq<char>, suffix: Seq<char>) -> Seq<Seq<char>> {
    state_dir().push(name + suffix)
}

/// Where the copy of a bundle, or the state beside it, is kept.
pub open spec fn copy_route(name: Seq<char>, suffix: Seq<char>) -> Seq<Seq<char>> {
    copy_dir().push(name + suffix)
}

/// Whether this is what a look at a list finds.
pub open spec fn finds_list(disk: Disk, route: Seq<Seq<char>>, look: Look) -> bool {
    match look {
        Err(_) => false,
        Ok(None) => at(disk, route) is None,
        Ok(Some(t)) => at(disk, route) == Some(Thing::Bytes(encode_utf8(t@))),
    }
}

/// Whether this is what a look at a state finds: what was written is what is read.
pub open spec fn finds_state(disk: Disk, route: Seq<Seq<char>>, found: Found) -> bool {
    match at(disk, route) {
        None => found.body == Ok::<Option<String>, String>(None),
        Some(Thing::State(bundle)) => found.body matches Ok(Some(t)) && bundle::parsed(
            t@,
            bundle::identified(found.read),
        ) == Ok::<Identity, Seq<char>>(bundle),
        Some(_) => false,
    }
}

/// Whether these are the names of the files in a directory.
pub open spec fn lists(disk: Disk, dir: Seq<Seq<char>>, files: Seq<Seq<char>>) -> bool {
    forall|file: Seq<char>| #[trigger] files.contains(file) <==> disk.dom().contains(dir.push(file))
}

proof fn lemma_done_untouched(disk: Disk, b: Identity, jobs: Seq<Job>, route: Seq<Seq<char>>)
    requires
        forall|i: int| 0 <= i < jobs.len() ==> touched(#[trigger] jobs[i]) != Some(route),
    ensures
        at(done_all(disk, b, jobs), route) == at(disk, route),
    decreases jobs.len(),
{
    if jobs.len() > 0 {
        let less = jobs.drop_last();
        assert forall|i: int| 0 <= i < less.len() implies touched(#[trigger] less[i]) != Some(
            route,
        ) by {
            assert(less[i] == jobs[i]);
        }
        lemma_done_untouched(disk, b, less, route);
        assert(touched(jobs[jobs.len() - 1]) != Some(route));
    }
}

proof fn lemma_done_at(disk: Disk, b: Identity, jobs: Seq<Job>, k: int, route: Seq<Seq<char>>)
    requires
        0 <= k < jobs.len(),
        touched(jobs[k]) == Some(route),
        forall|i: int| k < i < jobs.len() ==> touched(#[trigger] jobs[i]) != Some(route),
    ensures
        at(done_all(disk, b, jobs), route) == left_by(b, jobs[k]),
    decreases jobs.len(),
{
    let less = jobs.drop_last();
    if k < jobs.len() - 1 {
        assert forall|i: int| k < i < less.len() implies touched(#[trigger] less[i]) != Some(
            route,
        ) by {
            assert(less[i] == jobs[i]);
        }
        assert(less[k] == jobs[k]);
        lemma_done_at(disk, b, less, k, route);
        assert(touched(jobs[jobs.len() - 1]) != Some(route));
    }
}

proof fn lemma_copy_path(name: Seq<char>, suffix: Seq<char>)
    requires
        is_named_well(name),
        suffix == STATE@ || suffix == KEPT@,
    ensures
        path::names(kept_path_of(name, suffix)) == copy_route(name, suffix),
{
    bundle::lemma_bases();
    bundle::lemma_file_name(name, suffix);
    reveal_strlit("var/lib/detc/bundles.d");
    let base = "var/lib/detc/bundles.d"@;
    assert(kept_path_of(name, suffix) =~= base + seq!['/'] + (name + suffix));
    bundle::lemma_file_in(base, name + suffix);
}

proof fn lemma_suffixes(a: Seq<char>, x: Seq<char>, b: Seq<char>, y: Seq<char>)
    requires
        x == STATE@ || x == FILES@ || x == KEPT@,
        y == STATE@ || y == FILES@ || y == KEPT@,
        a + x == b + y,
    ensures
        a == b,
        x == y,
{
    reveal_strlit(".yaml");
    reveal_strlit(".files");
    reveal_strlit(".detc");
    assert((a + x).last() == x.last());
    assert((b + y).last() == y.last());
    assert(STATE@.last() == 'l' && FILES@.last() == 's' && KEPT@.last() == 'c');
    assert(a =~= (a + x).take((a + x).len() - x.len()));
    assert(b =~= (b + y).take((b + y).len() - y.len()));
}

proof fn lemma_routes(a: Seq<char>, x: Seq<char>, b: Seq<char>, y: Seq<char>)
    requires
        x == STATE@ || x == FILES@ || x == KEPT@,
        y == STATE@ || y == FILES@ || y == KEPT@,
    ensures
        state_route(a, x) == state_route(b, y) ==> a == b && x == y,
        copy_route(a, x) == copy_route(b, y) ==> a == b && x == y,
        state_route(a, x) != copy_route(b, y),
        state_route(a, x).take(3) == state_dir(),
        state_route(a, x)[0] == "run"@,
        copy_route(b, y)[0] == "var"@,
        "run"@ != "var"@,
{
    bundle::lemma_bases();
    assert(state_route(a, x)[3] == a + x);
    assert(state_route(b, y)[3] == b + y);
    assert(copy_route(a, x)[4] == a + x);
    assert(copy_route(b, y)[4] == b + y);
    assert(state_route(a, x)[0] == "run"@);
    assert(copy_route(b, y)[0] == "var"@);
    assert(state_route(a, x).take(3) =~= state_dir());
    if a + x == b + y {
        lemma_suffixes(a, x, b, y);
    }
}

proof fn lemma_ours_below_run(p: Seq<char>)
    requires
        is_ours(p),
    ensures
        path::names(p).len() > 0,
        path::names(p)[0] == "run"@,
{
    bundle::lemma_bases();
    let all = path::names(p);
    if path::lies_in(p, "run/detc"@) {
        assert(all.take(2)[0] == seq!["run"@, "detc"@][0]);
    } else {
        assert(all.take(3)[0] == seq!["run"@, "lib"@, "detc"@][0]);
    }
}

proof fn lemma_our_lines(lines: Seq<Seq<char>>)
    ensures
        forall|i: int| 0 <= i < bundle::our_lines(lines).len() ==> is_ours(
            #[trigger] bundle::our_lines(lines)[i],
        ),
    decreases lines.len(),
{
    if lines.len() > 0 {
        lemma_our_lines(lines.drop_last());
        let before = bundle::our_lines(lines.drop_last());
        let all = bundle::our_lines(lines);
        assert forall|i: int| 0 <= i < all.len() implies is_ours(#[trigger] all[i]) by {
            if i < before.len() {
                assert(all[i] == before[i]);
            }
        }
    }
}

/// What a list says was written is below `run`.
proof fn lemma_recorded_below_run(root: Seq<char>, name: Seq<char>, look: Look)
    requires
        recorded_of(root, name, look) is Ok,
    ensures
        forall|i: int|
            0 <= i < recorded_of(root, name, look)->Ok_0.len() ==> path::names(
                #[trigger] recorded_of(root, name, look)->Ok_0[i],
            ).len() > 0 && path::names(recorded_of(root, name, look)->Ok_0[i])[0] == "run"@,
{
    let paths = recorded_of(root, name, look)->Ok_0;
    if let Ok(Some(body)) = look {
        let all = bundle::our_lines(text::lines(body@));
        lemma_our_lines(text::lines(body@));
        path::lemma_path_set_from(all);
        assert forall|i: int| 0 <= i < paths.len() implies path::names(#[trigger] paths[i]).len() > 0
            && path::names(paths[i])[0] == "run"@ by {
            let j = choose|j: int| 0 <= j < all.len() && all[j] == paths[i];
            assert(is_ours(all[j]));
            lemma_ours_below_run(paths[i]);
        }
    }
}

/// What an install that was done leaves on a machine.
proof fn lemma_installed(disk: Disk, l: Load, members: Seq<Member>, previous: Seq<Seq<char>>)
    requires
        carried(l, members),
        forall|i: int|
            0 <= i < previous.len() ==> path::names(#[trigger] previous[i]).len() > 0 && path::names(
                previous[i],
            )[0] == "run"@,
    ensures
        ({
            let name = l.bundle.name;
            let after = done_all(disk, l.bundle, install_jobs(l, previous));
            &&& at(after, state_route(name, STATE@)) == Some(Thing::State(l.bundle))
            &&& at(after, state_route(name, FILES@)) == Some(
                Thing::Bytes(encode_utf8(listing_of(wanted_of(l)))),
            )
            &&& at(after, copy_route(name, KEPT@)) == (if l.bundle.persist {
                Some(Thing::Copy)
            } else {
                None
            })
            &&& at(after, copy_route(name, STATE@)) == (if l.bundle.persist {
                Some(Thing::State(l.bundle))
            } else {
                None
            })
            &&& forall|route: Seq<Seq<char>>|
                route != copy_route(name, KEPT@) && route != copy_route(name, STATE@) && (forall|
                    p: Seq<char>,
                |
                    path::names(p) == route ==> !path::holds_route(wanted_of(l), p)
                        && !path::holds_route(previous, p)) ==> #[trigger] at(after, route) == at(
                    disk,
                    route,
                )
        }),
{
    let name = l.bundle.name;
    let jobs = install_jobs(l, previous);
    let after = done_all(disk, l.bundle, jobs);
    let wanted = wanted_of(l);
    let stale = path::without_paths(previous, wanted);
    let n = l.files.len() as int;
    let m = stale.len() as int;
    let state = state_route(name, STATE@);
    let list = state_route(name, FILES@);
    lemma_wanted(l, members);
    path::lemma_without_paths(previous, wanted);
    bundle::lemma_state_path(name, STATE@);
    bundle::lemma_state_path(name, FILES@);
    lemma_copy_path(name, STATE@);
    lemma_copy_path(name, KEPT@);
    lemma_routes(name, STATE@, name, FILES@);
    lemma_routes(name, FILES@, name, KEPT@);
    lemma_routes(name, STATE@, name, KEPT@);
    lemma_routes(name, STATE@, name, STATE@);
    lemma_routes(name, KEPT@, name, STATE@);
    assert(STATE@ != FILES@ && STATE@ != KEPT@) by {
        reveal_strlit(".yaml");
        reveal_strlit(".files");
        reveal_strlit(".detc");
        assert(STATE@.last() == 'l' && FILES@.last() == 's' && KEPT@.last() == 'c');
    }
    assert(jobs[n + m] == (Job::Write {
        path: installed_path_of(name, FILES@),
        mode: bundle::DATA_MODE,
        data: encode_utf8(listing_of(wanted)),
    }));
    assert(jobs[n + m + 1] == (Job::Describe {
        path: installed_path_of(name, STATE@),
        mode: bundle::DATA_MODE,
    }));
    assert(l.bundle.persist ==> jobs.len() == n + m + 4 && jobs[n + m + 2] == (Job::Keep {
        path: kept_path_of(name, KEPT@),
        mode: bundle::DATA_MODE,
    }) && jobs[n + m + 3] == (Job::Describe {
        path: kept_path_of(name, STATE@),
        mode: bundle::DATA_MODE,
    }));
    assert(!l.bundle.persist ==> jobs.len() == n + m + 5 && jobs[n + m + 2] == (Job::Discard {
        path: kept_path_of(name, KEPT@),
    }) && jobs[n + m + 3] == (Job::Discard { path: kept_path_of(name, STATE@) }) && jobs[n + m
        + 4] is Vacate);
    lemma_done_at(disk, l.bundle, jobs, n + m, list);
    lemma_done_at(disk, l.bundle, jobs, n + m + 1, state);
    lemma_done_at(disk, l.bundle, jobs, n + m + 2, copy_route(name, KEPT@));
    lemma_done_at(disk, l.bundle, jobs, n + m + 3, copy_route(name, STATE@));
    assert forall|route: Seq<Seq<char>>|
        route != copy_route(name, KEPT@) && route != copy_route(name, STATE@) && (forall|
            p: Seq<char>,
        |
            path::names(p) == route ==> !path::holds_route(wanted, p) && !path::holds_route(
                previous,
                p,
            )) implies #[trigger] at(after, route) == at(disk, route) by {
        assert forall|i: int| 0 <= i < jobs.len() implies touched(#[trigger] jobs[i]) != Some(
            route,
        ) by {
            if i < n {
                let p = l.files[i].path;
                assert(jobs[i] == bundle::writes(l.files)[i]);
                assert(bundle::paths_of(l.files)[i] == p);
                assert(path::holds_route(bundle::paths_of(l.files), p));
                assert(path::holds_route(wanted, p));
            } else if i < n + m {
                assert(jobs[i] == bundle::unlinks(stale)[i - n]);
                let p = stale[i - n];
                assert(previous.contains(p));
                let j = choose|j: int| 0 <= j < previous.len() && previous[j] == p;
                assert(path::holds_route(previous, p));
            } else if i == n + m {
                assert(path::holds_route(wanted, installed_path_of(name, FILES@)));
            } else if i == n + m + 1 {
                assert(path::holds_route(wanted, installed_path_of(name, STATE@)));
            }
        }
        lemma_done_untouched(disk, l.bundle, jobs, route);
    }
}

/// An install writes the members of the archive other than the one that says what the
/// bundle is, and two files of its own.  A rehearsal says the same of it, and leaves the
/// machine as it is.  What is taken away is what the version before had listed and this
/// one does not write.
pub proof fn law_an_install_writes_its_members_and_two_more(
    root: Seq<char>,
    l: Load,
    members: Seq<Member>,
    holdings: Seq<Holding>,
    list: Look,
    disk: Disk,
)
    requires
        carried(l, members),
        installing(root, l, holdings, list, false) is Ok,
    ensures
        installing(root, l, holdings, list, false) matches Ok((account, _)) && {
            &&& account.bundle == l.bundle
            &&& account.written == payload_of(members).len() + 2
            &&& recorded_of(root, l.bundle.name, list) matches Ok(previous) && account.removed
                == path::without_paths(previous, wanted_of(l)).len()
            &&& installing(root, l, holdings, list, true) matches Ok((rehearsed, jobs)) && rehearsed
                == account && done_all(disk, l.bundle, jobs) == disk
        },
{
    lemma_wanted(l, members);
}

/// A rehearsal is refused where the install is, for the same reason.
pub proof fn law_a_rehearsal_is_refused_alike(
    root: Seq<char>,
    l: Load,
    holdings: Seq<Holding>,
    list: Look,
)
    ensures
        installing(root, l, holdings, list, true) is Err <==> installing(
            root,
            l,
            holdings,
            list,
            false,
        ) is Err,
        installing(root, l, holdings, list, true) is Err ==> installing(
            root,
            l,
            holdings,
            list,
            true,
        )->Err_0 == installing(root, l, holdings, list, false)->Err_0,
{
}

proof fn lemma_list_found(disk: Disk, l: Load, members: Seq<Member>, root: Seq<char>, look: Look)
    requires
        carried(l, members),
        on_lines(members),
        at(disk, state_route(l.bundle.name, FILES@)) == Some(
            Thing::Bytes(encode_utf8(listing_of(wanted_of(l)))),
        ),
        finds_list(disk, state_route(l.bundle.name, FILES@), look),
    ensures
        recorded_of(root, l.bundle.name, look) == Ok::<Seq<Seq<char>>, Seq<char>>(wanted_of(l)),
{
    let body = look->Ok_0->Some_0;
    encode_utf8_decode_utf8(body@);
    encode_utf8_decode_utf8(listing_of(wanted_of(l)));
    assert(body@ == listing_of(wanted_of(l)));
    lemma_wanted(l, members);
    bundle::law_what_was_written_is_what_is_recorded(l);
}

/// A machine once an installed bundle is taken away.
pub open spec fn removed_from(after: Disk, l: Load) -> Disk {
    done_all(after, l.bundle, bundle::unlinks(wanted_of(l)) + bundle::discards(l.bundle.name))
}

/// Once a bundle is installed and nothing else touched the machine, a removal takes
/// away as many files as the install wrote.  It is the bundle that was installed, a
/// rehearsal of it says the same, and what it leaves is the machine without the files of
/// the bundle and without the copy that was kept of it: every other file is as it was.
///
/// A member whose name holds a line feed, or ends in a carriage return, cannot be
/// listed.
pub proof fn law_a_removal_takes_away_what_an_install_wrote(
    root: Seq<char>,
    l: Load,
    members: Seq<Member>,
    holdings: Seq<Holding>,
    list: Look,
    disk: Disk,
    look: Look,
    installed: Found,
    kept: Found,
)
    requires
        carried(l, members),
        on_lines(members),
        installing(root, l, holdings, list, false) is Ok,
        ({
            let after = done_all(
                disk,
                l.bundle,
                installing(root, l, holdings, list, false)->Ok_0.1,
            );
            &&& finds_list(after, state_route(l.bundle.name, FILES@), look)
            &&& finds_state(after, state_route(l.bundle.name, STATE@), installed)
            &&& finds_state(after, copy_route(l.bundle.name, STATE@), kept)
        }),
    ensures
        ({
            let name = l.bundle.name;
            let (account, jobs) = installing(root, l, holdings, list, false)->Ok_0;
            let after = done_all(disk, l.bundle, jobs);
            let gone = Account { bundle: l.bundle, written: 0, removed: account.written };
            let work = bundle::unlinks(wanted_of(l)) + bundle::discards(name);
            let left = removed_from(after, l);
            &&& removing(root, name, installed, kept, look, false) == Ok::<
                Option<(Account, Seq<Job>)>,
                Seq<char>,
            >(Some((gone, work)))
            &&& removing(root, name, installed, kept, look, true) == Ok::<
                Option<(Account, Seq<Job>)>,
                Seq<char>,
            >(Some((gone, Seq::empty())))
            &&& forall|p: Seq<char>| #[trigger]
                path::holds_route(wanted_of(l), p) ==> at(left, path::names(p)) is None
            &&& at(left, copy_route(name, KEPT@)) is None
            &&& at(left, copy_route(name, STATE@)) is None
            &&& forall|route: Seq<Seq<char>>|
                route != copy_route(name, KEPT@) && route != copy_route(name, STATE@) && (forall|
                    p: Seq<char>,
                |
                    path::names(p) == route ==> !path::holds_route(wanted_of(l), p)) ==> #[trigger] at(
                    left,
                    route,
                ) == at(after, route)
        }),
{
    let name = l.bundle.name;
    let previous = recorded_of(root, name, list)->Ok_0;
    let after = done_all(disk, l.bundle, install_jobs(l, previous));
    lemma_recorded_below_run(root, name, list);
    lemma_installed(disk, l, members, previous);
    lemma_list_found(after, l, members, root, look);
    lemma_taken_away(after, l, members);
}

proof fn lemma_taken_away(after: Disk, l: Load, members: Seq<Member>)
    requires
        carried(l, members),
    ensures
        ({
            let name = l.bundle.name;
            let left = removed_from(after, l);
            &&& forall|p: Seq<char>| #[trigger]
                path::holds_route(wanted_of(l), p) ==> at(left, path::names(p)) is None
            &&& at(left, copy_route(name, KEPT@)) is None
            &&& at(left, copy_route(name, STATE@)) is None
            &&& forall|route: Seq<Seq<char>>|
                route != copy_route(name, KEPT@) && route != copy_route(name, STATE@) && (forall|
                    p: Seq<char>,
                |
                    path::names(p) == route ==> !path::holds_route(wanted_of(l), p)) ==> #[trigger] at(
                    left,
                    route,
                ) == at(after, route)
        }),
{
    let name = l.bundle.name;
    let wanted = wanted_of(l);
    let n = wanted.len() as int;
    let jobs = bundle::unlinks(wanted) + bundle::discards(name);
    let left = removed_from(after, l);
    lemma_copy_path(name, STATE@);
    lemma_copy_path(name, KEPT@);
    lemma_routes(name, STATE@, name, KEPT@);
    lemma_routes(name, KEPT@, name, STATE@);
    lemma_wanted(l, members);
    assert(STATE@ != KEPT@) by {
        reveal_strlit(".yaml");
        reveal_strlit(".detc");
        assert(STATE@.last() == 'l' && KEPT@.last() == 'c');
    }
    assert(jobs[n] == (Job::Discard { path: kept_path_of(name, KEPT@) }));
    assert(jobs[n + 1] == (Job::Discard { path: kept_path_of(name, STATE@) }));
    assert(jobs[n + 2] is Vacate);
    assert(jobs.len() == n + 3);
    lemma_done_at(after, l.bundle, jobs, n, copy_route(name, KEPT@));
    lemma_done_at(after, l.bundle, jobs, n + 1, copy_route(name, STATE@));
    let own = bundle::paths_of(l.files);
    path::lemma_path_set(own, Seq::empty());
    path::lemma_with_path_ordered(path::path_set(own), installed_path_of(name, STATE@));
    path::lemma_with_path_ordered(
        path::with_path(path::path_set(own), installed_path_of(name, STATE@)),
        installed_path_of(name, FILES@),
    );
    assert forall|p: Seq<char>| #[trigger] path::holds_route(wanted, p) implies at(
        left,
        path::names(p),
    ) is None by {
        let route = path::names(p);
        let k = choose|k: int| 0 <= k < wanted.len() && path::names(#[trigger] wanted[k]) == route;
        assert(jobs[k] == bundle::unlinks(wanted)[k]);
        assert(route[0] == "run"@) by {
            if path::holds_route(own, p) {
                let q = choose|q: int| 0 <= q < own.len() && path::names(#[trigger] own[q]) == route;
                assert(own[q] == l.files[q].path);
            }
        }
        assert forall|i: int| k < i < jobs.len() implies touched(#[trigger] jobs[i]) != Some(route) by {
            if i < n {
                assert(jobs[i] == bundle::unlinks(wanted)[i]);
                assert(path::route_before(path::names(wanted[k]), path::names(wanted[i])));
                path::lemma_route_before_irreflexive(route);
            }
        }
        lemma_done_at(after, l.bundle, jobs, k, route);
    }
    assert forall|route: Seq<Seq<char>>|
        route != copy_route(name, KEPT@) && route != copy_route(name, STATE@) && (forall|p: Seq<char>|
            path::names(p) == route ==> !path::holds_route(wanted, p)) implies #[trigger] at(
        left,
        route,
    ) == at(after, route) by {
        assert forall|i: int| 0 <= i < jobs.len() implies touched(#[trigger] jobs[i]) != Some(
            route,
        ) by {
            if i < n {
                assert(jobs[i] == bundle::unlinks(wanted)[i]);
                assert(path::holds_route(wanted, wanted[i]));
            }
        }
        lemma_done_untouched(after, l.bundle, jobs, route);
    }
}

/// A second removal finds nothing, and the bundle is neither among the installed ones
/// nor among the kept ones.
pub proof fn law_a_second_removal_finds_nothing(
    root: Seq<char>,
    l: Load,
    members: Seq<Member>,
    after: Disk,
    look: Look,
    installed: Found,
    kept: Found,
    dry_run: bool,
)
    requires
        carried(l, members),
        finds_state(removed_from(after, l), state_route(l.bundle.name, STATE@), installed),
        finds_state(removed_from(after, l), copy_route(l.bundle.name, STATE@), kept),
    ensures
        removing(root, l.bundle.name, installed, kept, look, dry_run) == Ok::<
            Option<(Account, Seq<Job>)>,
            Seq<char>,
        >(None),
        at(removed_from(after, l), state_route(l.bundle.name, STATE@)) is None,
        at(removed_from(after, l), copy_route(l.bundle.name, KEPT@)) is None,
{
    let name = l.bundle.name;
    lemma_taken_away(after, l, members);
    lemma_wanted(l, members);
    bundle::lemma_state_path(name, STATE@);
    assert(path::holds_route(wanted_of(l), installed_path_of(name, STATE@)));
}

proof fn lemma_held_names(raw: Seq<Result<(Seq<u8>, Seq<u8>), Seq<char>>>)
    requires
        tar::unpacked(raw) is Ok,
    ensures
        forall|i: int|
            0 <= i < tar::unpacked(raw)->Ok_0.len() ==> tar::name_error(
                (#[trigger] tar::unpacked(raw)->Ok_0[i]).name,
            ) is None,
    decreases raw.len(),
{
    if raw.len() > 0 {
        lemma_held_names(raw.drop_last());
        let before = tar::unpacked(raw.drop_last())->Ok_0;
        let all = tar::unpacked(raw)->Ok_0;
        assert forall|i: int| 0 <= i < all.len() implies tar::name_error(
            (#[trigger] all[i]).name,
        ) is None by {
            if i < before.len() {
                assert(all[i] == before[i]);
            }
        }
    }
}

/// What is installed is what the members of the archive lay down: the payload that a
/// system took, whatever it was installed from and whether or not it is kept.
pub proof fn law_what_was_opened_is_carried(
    signers: bundle::Signers,
    file: Seq<u8>,
    allow_unsigned: bool,
    read: Result<Identity, Seq<char>>,
    origin: Seq<char>,
    persist: bool,
)
    requires
        bundle::unpacked(signers, file, allow_unsigned) is Ok,
        bundle::opened(bundle::unpacked(signers, file, allow_unsigned)->Ok_0, read) is Ok,
    ensures
        ({
            let opened = bundle::opened(
                bundle::unpacked(signers, file, allow_unsigned)->Ok_0,
                read,
            )->Ok_0;
            let payload = bundle::authentic(signers, file, allow_unsigned)->Ok_0.0;
            tar::held(payload) matches Ok(members) && carried(
                Load {
                    bundle: Identity { origin, persist, ..opened.bundle },
                    files: opened.files,
                },
                members,
            )
        }),
{
    let payload = bundle::authentic(signers, file, allow_unsigned)->Ok_0.0;
    lemma_held_names(tar::tar_members(payload));
}

/// Whether a list of what a bundle wrote names, in the directory of the states, none but
/// its own.
pub open spec fn keeps_to_itself(name: Seq<char>, paths: Seq<Seq<char>>) -> bool {
    forall|p: Seq<char>| #[trigger]
        path::holds_route(paths, p) && path::names(p).len() >= 3 && path::names(p).take(3)
            == state_dir() ==> path::names(p) == state_route(name, STATE@) || path::names(p)
            == state_route(name, FILES@)
}

/// What an install records names no state of another bundle.
pub proof fn law_an_install_records_no_other_state(l: Load, members: Seq<Member>)
    requires
        carried(l, members),
    ensures
        keeps_to_itself(l.bundle.name, wanted_of(l)),
{
    lemma_wanted(l, members);
    let own = bundle::paths_of(l.files);
    assert forall|p: Seq<char>| #[trigger]
        path::holds_route(wanted_of(l), p) && path::names(p).len() >= 3 && path::names(p).take(3)
            == state_dir() implies path::names(p) == state_route(l.bundle.name, STATE@)
        || path::names(p) == state_route(l.bundle.name, FILES@) by {
        if path::holds_route(own, p) {
            let k = choose|k: int| 0 <= k < own.len() && path::names(#[trigger] own[k]) == path::names(
                p,
            );
            assert(own[k] == l.files[k].path);
        }
    }
}

/// The names of the bundles that a system holds something for.
pub open spec fn holding_names(holdings: Seq<Holding>) -> Seq<Seq<char>> {
    Seq::new(holdings.len(), |i: int| holdings[i].name@)
}

/// Whether this is what a machine holds for its installed bundles: each of them by its
/// name, in the order of the names, with its list and its state as they are found.
pub open spec fn holds(disk: Disk, holdings: Seq<Holding>) -> bool {
    &&& text::ascending(holding_names(holdings))
    &&& forall|name: Seq<char>| #[trigger]
        holding_names(holdings).contains(name) <==> is_named_well(name) && disk.dom().contains(
            state_route(name, FILES@),
        )
    &&& forall|i: int|
        0 <= i < holdings.len() ==> finds_list(
            disk,
            state_route((#[trigger] holdings[i]).name@, FILES@),
            holdings[i].list,
        ) && finds_state(disk, state_route(holdings[i].name@, STATE@), holdings[i].state)
}

proof fn lemma_claims(root: Seq<char>, holdings: Seq<Holding>)
    requires
        forall|i: int| 0 <= i < holdings.len() ==> (#[trigger] holdings[i]).list is Ok,
    ensures
        bundle::claims(root, holdings) matches Ok(c) && c.len() == holdings.len() && forall|i: int|
            0 <= i < holdings.len() ==> Ok::<Seq<Seq<char>>, Seq<char>>(#[trigger] c[i])
                == recorded_of(root, holdings[i].name@, holdings[i].list),
    decreases holdings.len(),
{
    if holdings.len() > 0 {
        let less = holdings.drop_last();
        assert forall|i: int| 0 <= i < less.len() implies (#[trigger] less[i]).list is Ok by {
            assert(less[i] == holdings[i]);
        }
        lemma_claims(root, less);
        assert(holdings[holdings.len() - 1].list is Ok);
        let before = bundle::claims(root, less)->Ok_0;
        let c = bundle::claims(root, holdings)->Ok_0;
        assert forall|i: int| 0 <= i < holdings.len() implies Ok::<Seq<Seq<char>>, Seq<char>>(
            #[trigger] c[i],
        ) == recorded_of(root, holdings[i].name@, holdings[i].list) by {
            if i < less.len() {
                assert(c[i] == before[i]);
                assert(less[i] == holdings[i]);
            }
        }
    }
}

proof fn lemma_claimant_last(c: Seq<Seq<Seq<char>>>, path: Seq<char>, j: int)
    requires
        0 <= j < c.len(),
        path::holds_route(c[j], path),
    ensures
        bundle::claimant(c, path) matches Some(i) && j <= i < c.len() && path::holds_route(
            c[i],
            path,
        ),
    decreases c.len(),
{
    if !path::holds_route(c.last(), path) {
        assert(c.drop_last()[j] == c[j]);
        lemma_claimant_last(c.drop_last(), path, j);
    }
}

proof fn lemma_claimant_route(c: Seq<Seq<Seq<char>>>, a: Seq<char>, b: Seq<char>)
    requires
        path::names(a) == path::names(b),
    ensures
        bundle::claimant(c, a) == bundle::claimant(c, b),
    decreases c.len(),
{
    if c.len() > 0 {
        lemma_claimant_route(c.drop_last(), a, b);
        assert(path::holds_route(c.last(), a) == path::holds_route(c.last(), b));
    }
}

/// What an install leaves alone in the directory of the states.
proof fn lemma_other_state(
    disk: Disk,
    l: Load,
    members: Seq<Member>,
    previous: Seq<Seq<char>>,
    other: Seq<char>,
    suffix: Seq<char>,
)
    requires
        carried(l, members),
        forall|i: int|
            0 <= i < previous.len() ==> path::names(#[trigger] previous[i]).len() > 0 && path::names(
                previous[i],
            )[0] == "run"@,
        keeps_to_itself(l.bundle.name, previous),
        other != l.bundle.name,
        suffix == STATE@ || suffix == FILES@,
    ensures
        at(
            done_all(disk, l.bundle, install_jobs(l, previous)),
            state_route(other, suffix),
        ) == at(disk, state_route(other, suffix)),
{
    let name = l.bundle.name;
    let route = state_route(other, suffix);
    lemma_installed(disk, l, members, previous);
    law_an_install_records_no_other_state(l, members);
    lemma_routes(other, suffix, name, STATE@);
    lemma_routes(other, suffix, name, FILES@);
    lemma_routes(other, suffix, name, KEPT@);
    assert(at(done_all(disk, l.bundle, install_jobs(l, previous)), route) == at(disk, route)) by {
        assert forall|p: Seq<char>| path::names(p) == route implies !path::holds_route(
            wanted_of(l),
            p,
        ) && !path::holds_route(previous, p) by {
            assert(path::names(p).take(3) == state_dir());
        }
    }
}

proof fn lemma_done_taken(disk: Disk, b: Identity, jobs: Seq<Job>, route: Seq<Seq<char>>)
    requires
        forall|i: int|
            0 <= i < jobs.len() && touched(#[trigger] jobs[i]) == Some(route) ==> left_by(
                b,
                jobs[i],
            ) is None,
    ensures
        at(done_all(disk, b, jobs), route) is None || at(done_all(disk, b, jobs), route) == at(
            disk,
            route,
        ),
    decreases jobs.len(),
{
    if jobs.len() > 0 {
        let less = jobs.drop_last();
        assert forall|i: int|
            0 <= i < less.len() && touched(#[trigger] less[i]) == Some(route) implies left_by(
            b,
            less[i],
        ) is None by {
            assert(less[i] == jobs[i]);
        }
        lemma_done_taken(disk, b, less, route);
        assert(touched(jobs[jobs.len() - 1]) == Some(route) ==> left_by(b, jobs[jobs.len() - 1]) is None);
    }
}

/// What an install leaves of the state of another bundle, whatever the version before it
/// had listed: all of it or nothing.
proof fn lemma_other_state_or_none(
    disk: Disk,
    l: Load,
    members: Seq<Member>,
    previous: Seq<Seq<char>>,
    other: Seq<char>,
    suffix: Seq<char>,
)
    requires
        carried(l, members),
        other != l.bundle.name,
        suffix == STATE@ || suffix == FILES@,
    ensures
        ({
            let after = done_all(disk, l.bundle, install_jobs(l, previous));
            let route = state_route(other, suffix);
            at(after, route) is None || at(after, route) == at(disk, route)
        }),
{
    let name = l.bundle.name;
    let route = state_route(other, suffix);
    let jobs = install_jobs(l, previous);
    let stale = path::without_paths(previous, wanted_of(l));
    let n = l.files.len() as int;
    let m = stale.len() as int;
    lemma_wanted(l, members);
    bundle::lemma_state_path(name, STATE@);
    bundle::lemma_state_path(name, FILES@);
    lemma_copy_path(name, STATE@);
    lemma_copy_path(name, KEPT@);
    lemma_routes(other, suffix, name, STATE@);
    lemma_routes(other, suffix, name, FILES@);
    lemma_routes(other, suffix, name, KEPT@);
    assert forall|i: int| 0 <= i < jobs.len() && touched(#[trigger] jobs[i]) == Some(route) implies left_by(
        l.bundle,
        jobs[i],
    ) is None by {
        if i < n {
            assert(jobs[i] == bundle::writes(l.files)[i]);
            assert(path::names(l.files[i].path).take(3) != state_dir());
        } else if i < n + m {
            assert(jobs[i] == bundle::unlinks(stale)[i - n]);
        } else if i == n + m {
            assert(jobs[i] == (Job::Write {
                path: installed_path_of(name, FILES@),
                mode: bundle::DATA_MODE,
                data: encode_utf8(listing_of(wanted_of(l))),
            }));
        } else if i == n + m + 1 {
            assert(jobs[i] == (Job::Describe {
                path: installed_path_of(name, STATE@),
                mode: bundle::DATA_MODE,
            }));
        } else if l.bundle.persist {
            if i == n + m + 2 {
                assert(jobs[i] == (Job::Keep {
                    path: kept_path_of(name, KEPT@),
                    mode: bundle::DATA_MODE,
                }));
            } else {
                assert(jobs[i] == (Job::Describe {
                    path: kept_path_of(name, STATE@),
                    mode: bundle::DATA_MODE,
                }));
            }
        } else {
            assert(jobs[i] == bundle::discards(name)[i - n - m - 2]);
        }
    }
    lemma_done_taken(disk, l.bundle, jobs, route);
}

/// What two looks at one list find of it is the same.
proof fn lemma_same_list(
    root: Seq<char>,
    name: Seq<char>,
    one: Disk,
    two: Disk,
    first: Look,
    second: Look,
)
    requires
        at(one, state_route(name, FILES@)) == at(two, state_route(name, FILES@)),
        finds_list(one, state_route(name, FILES@), first),
        finds_list(two, state_route(name, FILES@), second),
    ensures
        recorded_of(root, name, first) == recorded_of(root, name, second),
{
    if let (Ok(Some(a)), Ok(Some(b))) = (first, second) {
        encode_utf8_decode_utf8(a@);
        encode_utf8_decode_utf8(b@);
        assert(a@ == b@);
    }
}

/// Once a bundle is installed and nothing else touched the machine, it is the owner of
/// the paths that it wrote below `run`, and of no others, whatever the version before it
/// had listed.
pub proof fn law_a_bundle_owns_what_it_installed(
    root: Seq<char>,
    l: Load,
    members: Seq<Member>,
    holdings: Seq<Holding>,
    list: Look,
    disk: Disk,
    found: Seq<Holding>,
    path: Seq<char>,
)
    requires
        carried(l, members),
        on_lines(members),
        holds(disk, holdings),
        installing(root, l, holdings, list, false) is Ok,
        holds(
            done_all(disk, l.bundle, installing(root, l, holdings, list, false)->Ok_0.1),
            found,
        ),
    ensures
        (owner_of(root, path, found) matches Ok(Some(b)) && b.name == l.bundle.name) <==> is_ours(
            path,
        ) && path::holds_route(wanted_of(l), path),
        !is_ours(path) ==> owner_of(root, path, found) == Ok::<Option<Identity>, Seq<char>>(None),
{
    let name = l.bundle.name;
    let wanted = wanted_of(l);
    let previous = recorded_of(root, name, list)->Ok_0;
    let after = done_all(disk, l.bundle, install_jobs(l, previous));
    lemma_recorded_below_run(root, name, list);
    lemma_installed(disk, l, members, previous);
    assert forall|i: int| 0 <= i < found.len() implies (#[trigger] found[i]).list is Ok by {}
    assert forall|i: int| 0 <= i < holdings.len() implies (#[trigger] holdings[i]).list is Ok by {}
    lemma_claims(root, found);
    lemma_claims(root, holdings);
    let c = bundle::claims(root, found)->Ok_0;
    let was = bundle::claims(root, holdings)->Ok_0;
    let names = holding_names(found);
    assert(names.contains(name));
    let m = choose|m: int| 0 <= m < names.len() && names[m] == name;
    assert(found[m].name@ == name);
    lemma_list_found(after, l, members, root, found[m].list);
    assert(Ok::<Seq<Seq<char>>, Seq<char>>(c[m]) == recorded_of(root, name, found[m].list));
    assert(c[m] == wanted);
    bundle::lemma_claimant(c, path);
    if is_ours(path) {
        if path::holds_route(wanted, path) {
            lemma_claimant_last(c, path, m);
            let i = bundle::claimant(c, path)->Some_0;
            lemma_owner_is_last(root, l, members, holdings, list, disk, found, path, m, i);
        }
        if let Some(i) = bundle::claimant(c, path) {
            if found[i].name@ == name && i != m {
                assert(names[i] == name && names[m] == name);
                text::lemma_before_irreflexive(name);
                if i < m {
                    assert(text::before(names[i], names[m]));
                } else {
                    assert(text::before(names[m], names[i]));
                }
            }
        }
    }
}

proof fn lemma_owner_is_last(
    root: Seq<char>,
    l: Load,
    members: Seq<Member>,
    holdings: Seq<Holding>,
    list: Look,
    disk: Disk,
    found: Seq<Holding>,
    path: Seq<char>,
    m: int,
    i: int,
)
    requires
        carried(l, members),
        holds(disk, holdings),
        installing(root, l, holdings, list, false) is Ok,
        holds(
            done_all(disk, l.bundle, installing(root, l, holdings, list, false)->Ok_0.1),
            found,
        ),
        path::holds_route(wanted_of(l), path),
        0 <= m <= i < found.len(),
        found[m].name@ == l.bundle.name,
        bundle::claims(root, found) matches Ok(c) && c.len() == found.len() && path::holds_route(
            c[i],
            path,
        ),
    ensures
        i == m,
{
    if i > m {
        let name = l.bundle.name;
        let wanted = wanted_of(l);
        let previous = recorded_of(root, name, list)->Ok_0;
        let after = done_all(disk, l.bundle, install_jobs(l, previous));
        let c = bundle::claims(root, found)->Ok_0;
        let names = holding_names(found);
        let before = holding_names(holdings);
        let other = found[i].name@;
        assert(names[m] == name && names[i] == other);
        assert(text::before(name, other));
        text::lemma_before_irreflexive(name);
        lemma_recorded_below_run(root, name, list);
        lemma_other_state_or_none(disk, l, members, previous, other, FILES@);
        assert(names.contains(other));
        assert(after.dom().contains(state_route(other, FILES@)));
        assert(before.contains(other));
        let k = choose|k: int| 0 <= k < before.len() && before[k] == other;
        assert(holdings[k].name@ == other);
        assert forall|q: int| 0 <= q < found.len() implies (#[trigger] found[q]).list is Ok by {}
        assert forall|q: int| 0 <= q < holdings.len() implies (#[trigger] holdings[q]).list is Ok by {}
        lemma_claims(root, found);
        lemma_claims(root, holdings);
        let was = bundle::claims(root, holdings)->Ok_0;
        lemma_same_list(root, other, after, disk, found[i].list, holdings[k].list);
        assert(Ok::<Seq<Seq<char>>, Seq<char>>(c[i]) == recorded_of(root, other, found[i].list));
        assert(Ok::<Seq<Seq<char>>, Seq<char>>(was[k]) == recorded_of(root, other, holdings[k].list));
        lemma_claimant_last(was, path, k);
        let j = bundle::claimant(was, path)->Some_0;
        let w = choose|w: int| 0 <= w < wanted.len() && path::names(#[trigger] wanted[w]) == path::names(
            path,
        );
        lemma_claimant_route(was, wanted[w], path);
        let why = bundle::clashes(root, name, holdings, was);
        assert(wanted.contains(wanted[w]));
        bundle::lemma_no_complaint(wanted, why, wanted[w]);
        assert(why(wanted[w]) is None);
        assert(holdings[j].name@ == name);
        assert(before[j] == name && before[k] == other);
        if k < j {
            assert(text::before(before[k], before[j]));
            text::lemma_before_asymmetric(name, other);
        }
    }
}

/// A machine after a reboot, which takes everything below `run` with it.
pub open spec fn rebooted(disk: Disk) -> Disk {
    disk.remove_keys(Set::new(|route: Seq<Seq<char>>| route.len() > 0 && route[0] == "run"@))
}

/// A bundle that is kept is to be put back after a reboot, and no bundle is installed.
/// A restore that was only rehearsed changes nothing of that.
pub proof fn law_a_kept_bundle_is_to_be_put_back_after_a_reboot(
    root: Seq<char>,
    l: Load,
    members: Seq<Member>,
    holdings: Seq<Holding>,
    list: Look,
    disk: Disk,
    kept: Seq<Seq<char>>,
    installed: Seq<Seq<char>>,
)
    requires
        carried(l, members),
        l.bundle.persist,
        installing(root, l, holdings, list, false) is Ok,
        ({
            let after = rebooted(
                done_all(disk, l.bundle, installing(root, l, holdings, list, false)->Ok_0.1),
            );
            lists(after, copy_dir(), kept) && lists(after, state_dir(), installed)
        }),
    ensures
        wants_restore(kept, installed),
        forall|name: Seq<char>| !installed.contains(#[trigger] (name + STATE@)),
        forall|again: Load, held: Seq<Holding>, look: Look|
            (#[trigger] installing(root, again, held, look, true)) matches Ok((_, jobs)) ==> {
                let after = rebooted(
                    done_all(disk, l.bundle, installing(root, l, holdings, list, false)->Ok_0.1),
                );
                done_all(after, again.bundle, jobs) == after
            },
{
    let name = l.bundle.name;
    let previous = recorded_of(root, name, list)->Ok_0;
    lemma_recorded_below_run(root, name, list);
    lemma_installed(disk, l, members, previous);
    lemma_routes(name, STATE@, name, KEPT@);
    assert(kept.contains(name + KEPT@));
    assert forall|other: Seq<char>| !installed.contains(#[trigger] (other + STATE@)) by {
        lemma_routes(other, STATE@, name, KEPT@);
    }
    assert(!installed.contains(name + STATE@));
}

/// What came of putting one bundle back.
pub open spec fn came_of(root: Seq<char>, one: (Seq<char>, Trial), dry_run: bool) -> Result<
    Account,
    Seq<char>,
> {
    match reinstalling(root, one.0, one.1, dry_run) {
        Err(e) => Err(e),
        Ok((account, _)) => Ok(account),
    }
}

/// A machine once bundles had their turn to be put back, one after the other, where the
/// tasks that were decided are done.  A bundle that cannot be put back is refused before
/// anything is done for it, and the next has its turn.
pub open spec fn put_back(
    root: Seq<char>,
    disk: Disk,
    tries: Seq<(Seq<char>, Trial)>,
    dry_run: bool,
) -> Disk
    decreases tries.len(),
{
    if tries.len() == 0 {
        disk
    } else {
        let before = put_back(root, disk, tries.drop_last(), dry_run);
        match reinstalling(root, tries.last().0, tries.last().1, dry_run) {
            Err(_) => before,
            Ok((account, jobs)) => done_all(before, account.bundle, jobs),
        }
    }
}

/// The tries that came to something.
pub open spec fn successes(root: Seq<char>, tries: Seq<(Seq<char>, Trial)>, dry_run: bool) -> Seq<
    (Seq<char>, Trial),
>
    decreases tries.len(),
{
    if tries.len() == 0 {
        Seq::empty()
    } else {
        let before = successes(root, tries.drop_last(), dry_run);
        if came_of(root, tries.last(), dry_run) is Ok {
            before.push(tries.last())
        } else {
            before
        }
    }
}

/// A restore answers for every bundle that was kept and is not installed: for each of
/// them once, in the order of their names, by what came of it, also for those after one
/// that could not be put back.
pub proof fn law_a_restore_answers_for_every_kept_bundle(
    root: Seq<char>,
    kept: Seq<Seq<char>>,
    installed: Seq<Seq<char>>,
    names: Seq<Seq<char>>,
    tries: Seq<(Seq<char>, Trial)>,
    dry_run: bool,
)
    requires
        bundle::stands_out(kept, installed, names),
        tries.len() == names.len(),
        forall|i: int| 0 <= i < tries.len() ==> (#[trigger] tries[i]).0 == names[i],
    ensures
        ({
            let outcomes = Seq::new(tries.len(), |i: int| came_of(root, tries[i], dry_run));
            let answers = bundle::answered_all(bundle::begun(names), outcomes).answers;
            &&& answers.len() == names.len()
            &&& forall|i: int|
                0 <= i < names.len() ==> (#[trigger] answers[i]) == (
                    names[i],
                    came_of(root, tries[i], dry_run),
                )
            &&& text::ascending(Seq::new(answers.len(), |i: int| answers[i].0))
            &&& forall|name: Seq<char>|
                is_named_well(name) && kept.contains(#[trigger] (name + KEPT@))
                    && !installed.contains(name + STATE@) ==> exists|i: int|
                    0 <= i < answers.len() && (#[trigger] answers[i]).0 == name
        }),
{
    let outcomes = Seq::new(tries.len(), |i: int| came_of(root, tries[i], dry_run));
    bundle::law_each_bundle_is_answered_for_by_name(names, outcomes);
    let answers = bundle::answered_all(bundle::begun(names), outcomes).answers;
    assert(Seq::new(answers.len(), |i: int| answers[i].0) =~= names);
    assert forall|name: Seq<char>|
        is_named_well(name) && kept.contains(#[trigger] (name + KEPT@)) && !installed.contains(
            name + STATE@,
        ) implies exists|i: int| 0 <= i < answers.len() && (#[trigger] answers[i]).0 == name by {
        assert(names.contains(name));
        let i = choose|i: int| 0 <= i < names.len() && names[i] == name;
        assert(answers[i].0 == name);
    }
}

/// A restore leaves the machine as those that could be put back leave it, as if the
/// others had not been tried, and a rehearsed one leaves it as it was.
pub proof fn law_a_restore_leaves_what_the_successful_ones_did(
    root: Seq<char>,
    disk: Disk,
    tries: Seq<(Seq<char>, Trial)>,
)
    ensures
        put_back(root, disk, tries, false) == put_back(
            root,
            disk,
            successes(root, tries, false),
            false,
        ),
        put_back(root, disk, tries, true) == disk,
    decreases tries.len(),
{
    if tries.len() > 0 {
        let before = successes(root, tries.drop_last(), false);
        law_a_restore_leaves_what_the_successful_ones_did(root, disk, tries.drop_last());
        if came_of(root, tries.last(), false) is Ok {
            assert(successes(root, tries, false).drop_last() =~= before);
        }
    }
}

/// Whether these are the tries of a restore: each bundle by what is found of its list
/// when its turn comes, and each copy kept under the name of its bundle.
pub open spec fn restores(root: Seq<char>, disk: Disk, tries: Seq<(Seq<char>, Trial)>) -> bool {
    forall|i: int|
        0 <= i < tries.len() ==> {
            let (name, trial) = #[trigger] tries[i];
            &&& bundle::reopened(root, name, trial) matches Ok(l) ==> l.bundle.name == name
            &&& finds_list(
                put_back(root, disk, tries.take(i), false),
                state_route(name, FILES@),
                trial.list,
            )
        }
}

/// The bundles that tries are about.
pub open spec fn tried(tries: Seq<(Seq<char>, Trial)>) -> Seq<Seq<char>> {
    Seq::new(tries.len(), |i: int| tries[i].0)
}

/// What the turn of one bundle leaves: its state and its copy where it was put back,
/// and every other state and copy as it was.
proof fn lemma_turn(root: Seq<char>, less: Disk, one: (Seq<char>, Trial))
    requires
        bundle::reopened(root, one.0, one.1) matches Ok(l) ==> l.bundle.name == one.0,
        finds_list(less, state_route(one.0, FILES@), one.1.list),
        at(less, state_route(one.0, FILES@)) is None,
        came_of(root, one, false) is Ok,
    ensures
        ({
            let (account, jobs) = reinstalling(root, one.0, one.1, false)->Ok_0;
            let now = done_all(less, account.bundle, jobs);
            &&& now.dom().contains(state_route(one.0, STATE@))
            &&& now.dom().contains(copy_route(one.0, KEPT@))
            &&& forall|other: Seq<char>|
                other != one.0 ==> at(now, #[trigger] state_route(other, STATE@)) == at(
                    less,
                    state_route(other, STATE@),
                )
            &&& forall|other: Seq<char>|
                other != one.0 ==> at(now, #[trigger] state_route(other, FILES@)) == at(
                    less,
                    state_route(other, FILES@),
                )
            &&& forall|other: Seq<char>|
                other != one.0 ==> at(now, #[trigger] copy_route(other, KEPT@)) == at(
                    less,
                    copy_route(other, KEPT@),
                )
        }),
{
    let (name, t) = one;
    let l = bundle::reopened(root, name, t)->Ok_0;
    let (origin, allow_unsigned) = bundle::restoring(root, name, t.file, t.state)->Ok_0;
    law_what_was_opened_is_carried(
        t.signers,
        t.file->Ok_0@,
        allow_unsigned,
        t.read,
        origin,
        true,
    );
    let payload = bundle::authentic(t.signers, t.file->Ok_0@, allow_unsigned)->Ok_0.0;
    let members = tar::held(payload)->Ok_0;
    assert(carried(l, members));
    let previous = recorded_of(root, name, t.list)->Ok_0;
    assert(previous =~= Seq::empty());
    let now = done_all(less, l.bundle, install_jobs(l, previous));
    lemma_installed(less, l, members, previous);
    assert forall|other: Seq<char>| other != name implies at(
        now,
        #[trigger] state_route(other, STATE@),
    ) == at(less, state_route(other, STATE@)) by {
        lemma_other_state(less, l, members, previous, other, STATE@);
    }
    assert forall|other: Seq<char>| other != name implies at(
        now,
        #[trigger] state_route(other, FILES@),
    ) == at(less, state_route(other, FILES@)) by {
        lemma_other_state(less, l, members, previous, other, FILES@);
    }
    assert forall|other: Seq<char>| other != name implies at(now, #[trigger] copy_route(other, KEPT@))
        == at(less, copy_route(other, KEPT@)) by {
        let route = copy_route(other, KEPT@);
        lemma_routes(other, KEPT@, name, KEPT@);
        lemma_routes(other, KEPT@, name, STATE@);
        lemma_routes(other, STATE@, other, KEPT@);
        assert(KEPT@ != STATE@) by {
            reveal_strlit(".yaml");
            reveal_strlit(".detc");
            assert(STATE@.last() == 'l' && KEPT@.last() == 'c');
        }
        assert forall|p: Seq<char>| path::names(p) == route implies !path::holds_route(
            wanted_of(l),
            p,
        ) && !path::holds_route(previous, p) by {
            if path::holds_route(wanted_of(l), p) {
                lemma_wanted_below_run(l, members, p);
            }
        }
    }
}

proof fn lemma_put_back(root: Seq<char>, disk: Disk, tries: Seq<(Seq<char>, Trial)>, n: int)
    requires
        forall|name: Seq<char>| at(disk, #[trigger] state_route(name, FILES@)) is None,
        forall|name: Seq<char>| at(disk, #[trigger] state_route(name, STATE@)) is None,
        text::ascending(tried(tries)),
        forall|i: int|
            0 <= i < tries.len() ==> disk.dom().contains(
                copy_route((#[trigger] tries[i]).0, KEPT@),
            ),
        restores(root, disk, tries),
        0 <= n <= tries.len(),
    ensures
        ({
            let now = put_back(root, disk, tries.take(n), false);
            &&& forall|name: Seq<char>|
                now.dom().contains(#[trigger] copy_route(name, KEPT@)) == disk.dom().contains(
                    copy_route(name, KEPT@),
                )
            &&& forall|j: int|
                0 <= j < n && came_of(root, #[trigger] tries[j], false) is Ok
                    ==> now.dom().contains(state_route(tries[j].0, STATE@))
            &&& forall|j: int|
                0 <= j < tries.len() && (j >= n || came_of(root, #[trigger] tries[j], false) is Err)
                    ==> at(now, state_route(tries[j].0, FILES@)) is None && at(
                    now,
                    state_route(tries[j].0, STATE@),
                ) is None
        }),
    decreases n,
{
    if n > 0 {
        let k = n - 1;
        let less = put_back(root, disk, tries.take(k), false);
        let now = put_back(root, disk, tries.take(n), false);
        lemma_put_back(root, disk, tries, k);
        assert(tries.take(n).drop_last() =~= tries.take(k));
        assert(tries.take(n).last() == tries[k]);
        assert forall|j: int| 0 <= j < tries.len() && j != k implies (#[trigger] tries[j]).0
            != tries[k].0 by {
            assert(tried(tries)[j] == tries[j].0 && tried(tries)[k] == tries[k].0);
            text::lemma_before_irreflexive(tries[k].0);
            if j < k {
                assert(text::before(tried(tries)[j], tried(tries)[k]));
            } else {
                assert(text::before(tried(tries)[k], tried(tries)[j]));
            }
        }
        if came_of(root, tries[k], false) is Ok {
            assert(at(less, state_route(tries[k].0, FILES@)) is None);
            lemma_turn(root, less, tries[k]);
            assert forall|name: Seq<char>|
                now.dom().contains(#[trigger] copy_route(name, KEPT@)) == disk.dom().contains(
                    copy_route(name, KEPT@),
                ) by {
                if name == tries[k].0 {
                    assert(disk.dom().contains(copy_route(tries[k].0, KEPT@)));
                } else {
                    assert(at(now, copy_route(name, KEPT@)) == at(less, copy_route(name, KEPT@)));
                }
            }
            assert forall|j: int|
                0 <= j < n && came_of(root, #[trigger] tries[j], false) is Ok implies now.dom().contains(
                state_route(tries[j].0, STATE@),
            ) by {
                if j < k {
                    assert(at(now, state_route(tries[j].0, STATE@)) == at(
                        less,
                        state_route(tries[j].0, STATE@),
                    ));
                }
            }
            assert forall|j: int|
                0 <= j < tries.len() && (j >= n || came_of(root, #[trigger] tries[j], false) is Err) implies at(
                now,
                state_route(tries[j].0, FILES@),
            ) is None && at(now, state_route(tries[j].0, STATE@)) is None by {
                assert(tries[j].0 != tries[k].0);
            }
        }
    } else {
        assert(tries.take(0) =~= Seq::empty());
    }
}

proof fn lemma_wanted_below_run(l: Load, members: Seq<Member>, p: Seq<char>)
    requires
        carried(l, members),
        path::holds_route(wanted_of(l), p),
    ensures
        path::names(p).len() > 0,
        path::names(p)[0] == "run"@,
{
    lemma_wanted(l, members);
    let own = bundle::paths_of(l.files);
    if path::holds_route(own, p) {
        let k = choose|k: int| 0 <= k < own.len() && path::names(#[trigger] own[k]) == path::names(p);
        assert(own[k] == l.files[k].path);
    }
}

/// After a reboot and a restore, what is left to put back is the bundles that could not
/// be put back, and nothing where every one of them could.
pub proof fn law_what_is_left_to_put_back_is_what_failed(
    root: Seq<char>,
    disk: Disk,
    kept: Seq<Seq<char>>,
    installed: Seq<Seq<char>>,
    tries: Seq<(Seq<char>, Trial)>,
    kept_then: Seq<Seq<char>>,
    installed_then: Seq<Seq<char>>,
    left: Seq<Seq<char>>,
)
    requires
        lists(rebooted(disk), copy_dir(), kept),
        lists(rebooted(disk), state_dir(), installed),
        bundle::stands_out(kept, installed, tried(tries)),
        restores(root, rebooted(disk), tries),
        lists(put_back(root, rebooted(disk), tries, false), copy_dir(), kept_then),
        lists(put_back(root, rebooted(disk), tries, false), state_dir(), installed_then),
        bundle::stands_out(kept_then, installed_then, left),
    ensures
        forall|name: Seq<char>| #[trigger]
            left.contains(name) <==> exists|i: int|
                0 <= i < tries.len() && (#[trigger] tries[i]).0 == name && came_of(
                    root,
                    tries[i],
                    false,
                ) is Err,
        wants_restore(kept_then, installed_then) <==> exists|i: int|
            0 <= i < tries.len() && came_of(root, #[trigger] tries[i], false) is Err,
{
    let before = rebooted(disk);
    let after = put_back(root, before, tries, false);
    let names = tried(tries);
    let n = tries.len() as int;
    assert forall|name: Seq<char>| at(before, #[trigger] state_route(name, FILES@)) is None by {
        lemma_routes(name, FILES@, name, KEPT@);
    }
    assert forall|name: Seq<char>| at(before, #[trigger] state_route(name, STATE@)) is None by {
        lemma_routes(name, STATE@, name, KEPT@);
    }
    assert forall|i: int| 0 <= i < tries.len() implies before.dom().contains(
        copy_route((#[trigger] tries[i]).0, KEPT@),
    ) by {
        assert(names[i] == tries[i].0);
        assert(names.contains(names[i]));
        assert(kept.contains(names[i] + KEPT@));
    }
    lemma_put_back(root, before, tries, n);
    assert(tries.take(n) =~= tries);
    assert forall|name: Seq<char>| #[trigger] left.contains(name) <==> exists|i: int|
        0 <= i < tries.len() && (#[trigger] tries[i]).0 == name && came_of(root, tries[i], false) is Err by {
        if left.contains(name) {
            assert(kept_then.contains(name + KEPT@));
            assert(after.dom().contains(copy_route(name, KEPT@)));
            assert(kept.contains(name + KEPT@));
            assert(at(before, state_route(name, STATE@)) is None);
            assert(!installed.contains(name + STATE@));
            assert(names.contains(name));
            let j = choose|j: int| 0 <= j < names.len() && names[j] == name;
            assert(tries[j].0 == name);
            if came_of(root, tries[j], false) is Ok {
                assert(after.dom().contains(state_route(name, STATE@)));
                assert(installed_then.contains(name + STATE@));
            }
        }
        if exists|i: int|
            0 <= i < tries.len() && (#[trigger] tries[i]).0 == name && came_of(
                root,
                tries[i],
                false,
            ) is Err {
            let i = choose|i: int|
                0 <= i < tries.len() && (#[trigger] tries[i]).0 == name && came_of(
                    root,
                    tries[i],
                    false,
                ) is Err;
            assert(names[i] == name);
            assert(names.contains(name));
            assert(before.dom().contains(copy_route(tries[i].0, KEPT@)));
            assert(after.dom().contains(copy_route(name, KEPT@)));
            assert(kept_then.contains(name + KEPT@));
            assert(at(after, state_route(tries[i].0, STATE@)) is None);
            assert(!installed_then.contains(name + STATE@));
        }
    }
    if wants_restore(kept_then, installed_then) {
        let name = choose|name: Seq<char>|
            is_named_well(name) && #[trigger] kept_then.contains(name + KEPT@)
                && !installed_then.contains(name + STATE@);
        assert(left.contains(name));
    }
    if exists|i: int| 0 <= i < tries.len() && came_of(root, #[trigger] tries[i], false) is Err {
        let i = choose|i: int|
            0 <= i < tries.len() && came_of(root, #[trigger] tries[i], false) is Err;
        assert(left.contains(tries[i].0));
        assert(kept_then.contains(tries[i].0 + KEPT@));
    }
}

} // verus!
