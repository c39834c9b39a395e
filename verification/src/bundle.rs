//! A tree of objects, signed where it was written and installed where it runs.
//!
//! The file is a tar archive of exactly two members, the payload and its
//! signature:
//!
//! ```text
//! fleet.detc
//! ├── payload.tar
//! └── payload.tar.sig      SSHSIG, in the namespace detc-bundle
//! ```
//!
//! and the payload is the `detc` directory itself, in the layout the
//! distribution already uses, so that a source tree, a bundle and an installed
//! system all read alike:
//!
//! ```text
//! payload.tar
//! ├── bundle.yaml               the name and the version, authored
//! ├── variables/system.d/…      →  run/detc/…                     0644
//! ├── templates.d/…             →  run/detc/…                     0644
//! ├── resources.d/…             →  run/detc/…                     0644
//! ├── probes/system.d/…         →  run/lib/detc/…                 0755
//! └── providers.d/…             →  run/lib/detc/…                 0755
//! ```
//!
//! Where a member lands is derived and never declared: what is under `probes`
//! or `providers` is code and goes to the prefix of the executables, everything
//! else is data.  `variables/user.d` is where `detc var` writes, and is the one
//! tree of the system that a bundle may not carry.
//!
//! Several bundles are installed at a time, each known by the name its manifest
//! gives it.  They share the prefixes, so a path that one bundle wrote is a path
//! no other may write.

use vstd::prelude::*;

use crate::order;
use crate::order::Ranked;
use crate::path;
use crate::provider;
use crate::provider::said;
use crate::resource;
use crate::signers;
use crate::tar;
use crate::tar::{Entry, Member};
use crate::template;
use crate::text;
use crate::var;
use crate::var::Read;

verus! {

/// The two members of a bundle file.
pub const PAYLOAD: &'static str = "payload.tar";

pub const SIGNATURE: &'static str = "payload.tar.sig";

/// The namespace of the signature.  A signature made for something else does
/// not verify as a bundle.
pub const NAMESPACE: &'static str = "detc-bundle";

/// The file that names the bundle.
pub const MANIFEST: &'static str = "bundle.yaml";

/// The directory that holds one entry per installed bundle.
pub const BUNDLES: &'static str = "bundles.d";

/// What each of those entries is called, after the name of the bundle: what it
/// is, the paths it wrote, and the signed file itself.
pub const STATE: &'static str = ".yaml";

pub const FILES: &'static str = ".files";

pub const KEPT: &'static str = ".detc";

/// Where the data and the executables of a bundle are installed.
pub const DATA_PREFIX: &'static str = "run";

pub const EXEC_PREFIX: &'static str = "run/lib";

/// Name of the trust anchor.
pub const SIGNERS_NAME: &'static str = "detc/allowed_signers";

/// The signer of a bundle that carries no signature.
pub const UNSIGNED: &'static str = "unsigned";

/// The origin of a bundle whose bytes were given rather than fetched.
pub const LOCAL_ORIGIN: &'static str = "local";

/// The modes that a bundle is installed with: a file that root writes and
/// everybody reads, or a program that everybody runs.
pub const DATA_MODE: u32 = 0o644;

pub const EXEC_MODE: u32 = 0o755;

/// The most that a bundle can hold.
pub const MAX_SIZE: usize = 33554432;

/// How deep a source tree is walked when a bundle is created.
pub const MAX_DEPTH: usize = 32;

/// Search prefixes of the trust anchor.  A bundle installs into `run`, and one
/// that could drop a key there would be deciding whether to trust itself, so
/// `run` is not among them.
pub fn signers_prefixes() -> (r: Vec<&'static str>)
    ensures
        r@ == seq!["usr/share", "etc"],
{
    let mut r: Vec<&'static str> = Vec::new();
    r.push("usr/share");
    r.push("etc");
    r
}

/// A bundle, as the tree that built it named it and as the system that holds
/// it knows it: who signed the file, where it came from, and whether a copy of
/// it was kept for the next boot.
#[derive(Debug, PartialEq, Eq)]
pub struct Bundle {
    pub name: String,
    pub version: String,
    pub signer: String,
    pub origin: String,
    pub persist: bool,
}

/// A bundle, as plain values.
pub struct Identity {
    pub name: Seq<char>,
    pub version: Seq<char>,
    pub signer: Seq<char>,
    pub origin: Seq<char>,
    pub persist: bool,
}

impl View for Bundle {
    type V = Identity;

    open spec fn view(&self) -> Identity {
        Identity {
            name: self.name@,
            version: self.version@,
            signer: self.signer@,
            origin: self.origin@,
            persist: self.persist,
        }
    }
}

/// A bundle that says nothing of itself.
pub open spec fn nameless() -> Identity {
    Identity {
        name: Seq::empty(),
        version: Seq::empty(),
        signer: Seq::empty(),
        origin: Seq::empty(),
        persist: false,
    }
}

/// A bundle that was worked out.
pub open spec fn identified(r: Result<Bundle, String>) -> Result<Identity, Seq<char>> {
    match r {
        Ok(b) => Ok(b@),
        Err(e) => Err(e@),
    }
}

/// An optional bundle, as plain values.
pub open spec fn identity_of(b: Option<Bundle>) -> Option<Identity> {
    match b {
        Some(b) => Some(b@),
        None => None,
    }
}

impl Bundle {
    /// A bundle that says nothing of itself.
    pub fn nameless() -> (r: Self)
        ensures
            r@ == nameless(),
    {
        let r = Bundle {
            name: String::new(),
            version: String::new(),
            signer: String::new(),
            origin: String::new(),
            persist: false,
        };
        assert(r.name@ =~= Seq::empty());
        assert(r.version@ =~= Seq::empty());
        assert(r.signer@ =~= Seq::empty());
        assert(r.origin@ =~= Seq::empty());
        r
    }

    /// The same bundle once more.
    pub fn again(&self) -> (r: Self)
        ensures
            r@ == self@,
    {
        Bundle {
            name: self.name.clone(),
            version: self.version.clone(),
            signer: self.signer.clone(),
            origin: self.origin.clone(),
            persist: self.persist,
        }
    }
}

/// The part of the name of a tree that a payload carries: all of the name that
/// is looked up but the directory of the tool, which the prefix already names.
pub open spec fn tree_of(name: Seq<char>) -> Seq<char> {
    match text::without_prefix(name, "detc/"@) {
        Some(rest) => rest,
        None => name,
    }
}

/// The trees that a payload can carry, and whether what is in them is code:
/// the names that the system searches for, but for the variables of the
/// administrator.
pub open spec fn carried_trees() -> Seq<(Seq<char>, bool)> {
    seq![
        (tree_of(var::SYSTEM_VARIABLES_NAME@), false),
        (tree_of(template::TEMPLATES_NAME@), false),
        (tree_of(resource::RESOURCES_NAME@), false),
        (tree_of("detc/probes/"@ + "system"@), true),
        (tree_of(provider::PROVIDERS_NAME@), true),
    ]
}

/// Trees, as plain values.
pub open spec fn tree_texts(s: Seq<(String, bool)>) -> Seq<(Seq<char>, bool)> {
    Seq::new(s.len(), |i: int| (s[i].0@, s[i].1))
}

/// The part of the name of a tree that a payload carries.
fn tree(name: &str) -> (r: String)
    ensures
        r@ == tree_of(name@),
{
    match text::strip(name, "detc/") {
        Some(rest) => rest,
        None => name.to_owned(),
    }
}

/// The trees that a payload can carry, and whether what is in them is code.
pub fn trees() -> (r: Vec<(String, bool)>)
    ensures
        tree_texts(r@) == carried_trees(),
{
    let mut r: Vec<(String, bool)> = Vec::new();
    r.push((tree(var::SYSTEM_VARIABLES_NAME), false));
    r.push((tree(template::TEMPLATES_NAME), false));
    r.push((tree(resource::RESOURCES_NAME), false));
    r.push((tree(var::probes_name("system").as_str()), true));
    r.push((tree(provider::PROVIDERS_NAME), true));
    assert(tree_texts(r@) =~= carried_trees());
    r
}

/// Whether a name is in a tree, as its main file or as one of its drop-ins.
pub open spec fn in_tree(name: Seq<char>, tree: Seq<char>) -> bool {
    name == tree || text::begins(name, tree + ".d/"@)
}

/// The first tree that a name is in, from `n` on, and whether it holds code.
pub open spec fn tree_from(name: Seq<char>, n: nat) -> Option<bool>
    decreases carried_trees().len() - n,
{
    if n >= carried_trees().len() {
        None
    } else if in_tree(name, carried_trees()[n as int].0) {
        Some(carried_trees()[n as int].1)
    } else {
        tree_from(name, n + 1)
    }
}

/// Where a file of a bundle lands, relative to the root.
pub open spec fn data_path_of(name: Seq<char>) -> Seq<char> {
    path::joined("run/detc"@, name)
}

/// Where a program of a bundle lands, relative to the root.
pub open spec fn exec_path_of(name: Seq<char>) -> Seq<char> {
    path::joined("run/lib/detc"@, name)
}

/// What a bundle can carry, said in one line for whoever wrote something else.
pub open spec fn places_text() -> Seq<char> {
    "bundle.yaml, and "@ + text::join(
        Seq::new(carried_trees().len(), |i: int| carried_trees()[i].0),
        ", "@,
    ) + ", each of them also as a .d directory"@
}

/// Why a name is refused outright: it is in the tree that is the
/// administrator's.
pub open spec fn refusal_of(name: Seq<char>) -> Option<Seq<char>> {
    let user = tree_of(var::USER_VARIABLES_NAME@);
    if in_tree(name, user) {
        Some(
            "A bundle cannot hold "@ + name + ", because "@ + user
                + ".d is where `detc var` writes and is the administrator's.  Ship it as "@
                + tree_of(var::SYSTEM_VARIABLES_NAME@)
                + ".d instead, which still wins over the distribution and still loses to whatever the administrator sets"@,
        )
    } else {
        None
    }
}

/// Where a member of a payload is installed, and with which mode, or why it is
/// not one that a bundle can carry.
pub open spec fn placed(name: Seq<char>) -> Result<(Seq<char>, u32), Seq<char>> {
    if name == BUNDLES@ || text::begins(name, "bundles.d/"@) {
        Err(
            "A bundle cannot hold "@ + name
                + ", because bundles.d is where the system writes what each installed bundle is and which files it wrote"@,
        )
    } else {
        match tree_from(name, 0) {
            Some(code) => if code {
                Ok((exec_path_of(name), EXEC_MODE))
            } else {
                Ok((data_path_of(name), DATA_MODE))
            },
            None => match refusal_of(name) {
                Some(why) => Err(why),
                None => Err(
                    "A bundle cannot hold "@ + name
                        + ", because it is not one of the trees that a bundle carries: "@
                        + places_text(),
                ),
            },
        }
    }
}

/// What a bundle can carry, said in one line for whoever wrote something else.
fn places() -> (r: String)
    ensures
        r@ == places_text(),
{
    let trees = trees();
    let ghost want = Seq::new(carried_trees().len(), |i: int| carried_trees()[i].0);
    let mut names: Vec<String> = Vec::new();
    let mut i: usize = 0;
    while i < trees.len()
        invariant
            i <= trees@.len(),
            tree_texts(trees@) == carried_trees(),
            want == Seq::new(carried_trees().len(), |i: int| carried_trees()[i].0),
            names@.len() == i,
            forall|j: int| 0 <= j < i ==> (#[trigger] names@[j])@ == want[j],
        decreases trees@.len() - i,
    {
        assert(tree_texts(trees@)[i as int].0 == trees@[i as int].0@);
        names.push(trees[i].0.clone());
        i += 1;
    }
    assert(tree_texts(trees@).len() == trees@.len());
    assert(text::texts(names@) =~= want);
    let mut r = "bundle.yaml, and ".to_owned();
    r.append(text::joined(&names, ", ").as_str());
    r.append(", each of them also as a .d directory");
    r
}

/// Whether a name is in a tree, as its main file or as one of its drop-ins.
fn within(name: &str, tree: &str) -> (r: bool)
    ensures
        r == in_tree(name@, tree@),
{
    let mut below = tree.to_owned();
    below.append(".d/");
    text::equal(name, tree) || text::starts(name, below.as_str())
}

/// Why a name is refused outright, rather than simply not being one of the
/// trees that a bundle carries.
///
/// The difference is that this one *is* a tree of the system, so a file left in
/// it is a document that somebody wrote and meant to ship.
pub fn refused(name: &str) -> (r: Option<String>)
    ensures
        text::text_of(r) == refusal_of(name@),
{
    let user = tree(var::USER_VARIABLES_NAME);
    if !within(name, user.as_str()) {
        return None;
    }
    let mut r = "A bundle cannot hold ".to_owned();
    r.append(name);
    r.append(", because ");
    r.append(user.as_str());
    r.append(".d is where `detc var` writes and is the administrator's.  Ship it as ");
    r.append(tree(var::SYSTEM_VARIABLES_NAME).as_str());
    r.append(
        ".d instead, which still wins over the distribution and still loses to whatever the administrator sets",
    );
    Some(r)
}

/// Where a member of a payload is installed, and with which mode.
///
/// The manifest is not one of them: it is read rather than laid down.
pub fn place(name: &str) -> (r: Result<(String, u32), String>)
    ensures
        placed(name@) == (match r {
            Ok((path, mode)) => Ok((path@, mode)),
            Err(e) => Err(e@),
        }),
{
    if text::equal(name, BUNDLES) || text::starts(name, "bundles.d/") {
        let mut e = "A bundle cannot hold ".to_owned();
        e.append(name);
        e.append(
            ", because bundles.d is where the system writes what each installed bundle is and which files it wrote",
        );
        return Err(e);
    }
    let trees = trees();
    let n: usize = trees.len();
    let mut i: usize = 0;
    assert(tree_texts(trees@).len() == trees@.len());
    while i < n
        invariant
            i <= n == trees@.len(),
            n == carried_trees().len(),
            tree_texts(trees@) == carried_trees(),
            tree_from(name@, 0) == tree_from(name@, i as nat),
            !(name@ == BUNDLES@ || text::begins(name@, "bundles.d/"@)),
        decreases n - i,
    {
        assert(tree_texts(trees@)[i as int] == (trees@[i as int].0@, trees@[i as int].1));
        if within(name, trees[i].0.as_str()) {
            return if trees[i].1 {
                Ok((path::join("run/lib/detc", name), EXEC_MODE))
            } else {
                Ok((path::join("run/detc", name), DATA_MODE))
            };
        }
        i += 1;
    }
    if let Some(why) = refused(name) {
        return Err(why);
    }
    let mut e = "A bundle cannot hold ".to_owned();
    e.append(name);
    e.append(", because it is not one of the trees that a bundle carries: ");
    e.append(places().as_str());
    Err(e)
}

/// Whether anything under a directory could be part of a tree.
pub open spec fn leads_to(dir: Seq<char>, tree: Seq<char>) -> bool {
    text::begins(tree, dir) || text::begins(dir, tree + "."@)
}

/// Whether anything under a directory could be part of a payload.  The
/// variables of the administrator are walked into all the same, so that each
/// file in them is refused by name.
pub open spec fn is_reachable(dir: Seq<char>) -> bool {
    ||| leads_to(dir, tree_of(var::USER_VARIABLES_NAME@))
    ||| exists|i: int| 0 <= i < carried_trees().len() && leads_to(dir, (#[trigger] carried_trees()[i]).0)
}

/// Whether anything under a directory could be part of a tree.
fn leads(dir: &str, tree: &str) -> (r: bool)
    ensures
        r == leads_to(dir@, tree@),
{
    let mut dotted = tree.to_owned();
    dotted.append(".");
    text::starts(tree, dir) || text::starts(dir, dotted.as_str())
}

/// Whether anything under a directory could be part of a payload.
pub fn reachable(dir: &str) -> (r: bool)
    ensures
        r == is_reachable(dir@),
{
    if leads(dir, tree(var::USER_VARIABLES_NAME).as_str()) {
        return true;
    }
    let trees = trees();
    let n: usize = trees.len();
    let mut i: usize = 0;
    assert(tree_texts(trees@).len() == trees@.len());
    while i < n
        invariant
            i <= n == trees@.len(),
            n == carried_trees().len(),
            tree_texts(trees@) == carried_trees(),
            !leads_to(dir@, tree_of(var::USER_VARIABLES_NAME@)),
            forall|j: int| 0 <= j < i ==> !leads_to(dir@, (#[trigger] carried_trees()[j]).0),
        decreases n - i,
    {
        assert(tree_texts(trees@)[i as int] == (trees@[i as int].0@, trees@[i as int].1));
        if leads(dir, trees[i].0.as_str()) {
            return true;
        }
        i += 1;
    }
    false
}

/// Whether a path is inside one of the two trees that a bundle installs into.  One
/// that climbs is not, wherever it starts.
pub open spec fn is_ours(path: Seq<char>) -> bool {
    &&& !path::climbs(path)
    &&& path::lies_in(path, "run/detc"@) || path::lies_in(path, "run/lib/detc"@)
}

/// Whether a path is inside one of the two trees that a bundle installs into.
pub fn ours(path: &str) -> (r: bool)
    ensures
        r == is_ours(path@),
{
    !path::climbing(path) && (path::strip(path, "run/detc").is_some() || path::strip(
        path,
        "run/lib/detc",
    ).is_some())
}

/// Whether a character may be part of the name of a bundle.
pub open spec fn name_char(c: char) -> bool {
    ('a' <= c && c <= 'z') || ('A' <= c && c <= 'Z') || ('0' <= c && c <= '9') || c == '-' || c == '_'
        || c == '.'
}

/// Whether a name is one that a bundle can be called.  It becomes a component
/// of the paths where the system keeps what the bundle wrote, so it is held to
/// what a file name may be.
pub open spec fn is_named_well(name: Seq<char>) -> bool {
    &&& name.len() > 0
    &&& name[0] != '.'
    &&& forall|i: int| 0 <= i < name.len() ==> name_char(#[trigger] name[i])
}

/// Whether a name is one that a bundle can be called.
pub fn named_well(name: &str) -> (r: bool)
    ensures
        r == is_named_well(name@),
{
    let cs = text::chars_of(name);
    let n: usize = cs.len();
    if n == 0 || cs[0] == '.' {
        return false;
    }
    let mut i: usize = 0;
    while i < n
        invariant
            i <= n == cs@.len(),
            cs@ == name@,
            forall|j: int| 0 <= j < i ==> name_char(#[trigger] name@[j]),
        decreases n - i,
    {
        let c = cs[i];
        assert(name@[i as int] == c);
        if !(('a' <= c && c <= 'z') || ('A' <= c && c <= 'Z') || ('0' <= c && c <= '9') || c == '-'
            || c == '_' || c == '.') {
            return false;
        }
        i += 1;
    }
    true
}

/// Where one of the entries that the system keeps for an installed bundle is.
pub open spec fn installed_path_of(name: Seq<char>, suffix: Seq<char>) -> Seq<char> {
    path::joined("run/detc/bundles.d"@, name + suffix)
}

/// Where one of the entries that the system keeps for a kept bundle is.
pub open spec fn kept_path_of(name: Seq<char>, suffix: Seq<char>) -> Seq<char> {
    path::joined("var/lib/detc/bundles.d"@, name + suffix)
}

/// Where the state of the installed bundles is, relative to the root.
pub fn installed_dir() -> (r: &'static str)
    ensures
        r@ == "run/detc/bundles.d"@,
{
    "run/detc/bundles.d"
}

/// Where the kept copies are, relative to the root.
pub fn kept_dir() -> (r: &'static str)
    ensures
        r@ == "var/lib/detc/bundles.d"@,
{
    "var/lib/detc/bundles.d"
}

/// One of the entries that the system keeps for an installed bundle.
pub fn installed_path(name: &str, suffix: &str) -> (r: String)
    ensures
        r@ == installed_path_of(name@, suffix@),
{
    let mut file = name.to_owned();
    file.append(suffix);
    path::join(installed_dir(), file.as_str())
}

/// One of the entries that the system keeps for a kept bundle.
pub fn kept_path(name: &str, suffix: &str) -> (r: String)
    ensures
        r@ == kept_path_of(name@, suffix@),
{
    let mut file = name.to_owned();
    file.append(suffix);
    path::join(kept_dir(), file.as_str())
}

/// What is said of a name that no bundle can be called.
pub open spec fn badly_named(name: Seq<char>) -> Seq<char> {
    "A bundle called "@ + name
        + " cannot be installed: the name is what the system keeps its state under, so it is written the way a file name is, with letters, digits, and - _ or . between them"@
}

/// The bundle that a manifest describes, `read` being what its text says where
/// there is any text.
pub open spec fn parsed(t: Seq<char>, read: Result<Identity, Seq<char>>) -> Result<
    Identity,
    Seq<char>,
> {
    let bundle = if text::trim(t).len() == 0 {
        Ok(nameless())
    } else {
        read
    };
    match bundle {
        Err(e) => Err("The bundle.yaml of the bundle cannot be read: "@ + e),
        Ok(bundle) => if text::trim(bundle.name).len() == 0 || text::trim(bundle.version).len() == 0 {
            Err("The bundle.yaml of a bundle needs a name and a version"@)
        } else if !is_named_well(bundle.name) {
            Err(badly_named(bundle.name))
        } else {
            Ok(bundle)
        },
    }
}

/// Read a manifest, and refuse one that does not say what it is.
///
/// An empty document is a bundle that says nothing of itself.
pub fn parse(t: &str, read: Result<Bundle, String>) -> (r: Result<Bundle, String>)
    ensures
        identified(r) == parsed(t@, identified(read)),
{
    let bundle = if text::blank(t) {
        Bundle::nameless()
    } else {
        match read {
            Ok(bundle) => bundle,
            Err(e) => {
                let mut m = "The bundle.yaml of the bundle cannot be read: ".to_owned();
                m.append(e.as_str());
                return Err(m);
            },
        }
    };
    if text::blank(bundle.name.as_str()) || text::blank(bundle.version.as_str()) {
        return Err("The bundle.yaml of a bundle needs a name and a version".to_owned());
    }
    if !named_well(bundle.name.as_str()) {
        let mut m = "A bundle called ".to_owned();
        m.append(bundle.name.as_str());
        m.append(
            " cannot be installed: the name is what the system keeps its state under, so it is written the way a file name is, with letters, digits, and - _ or . between them",
        );
        return Err(m);
    }
    Ok(bundle)
}

/// What was read of the files that say who may sign for a system: each of them
/// with what it holds, or why they could not be found.
pub type Signers = Result<Vec<(String, Read)>, String>;

/// What is said of a member that is there a second time.
pub open spec fn held_twice(name: Seq<char>) -> Seq<char> {
    "The bundle holds "@ + name + " twice"@
}

/// The payload and the signature among the members of a bundle file, which are two and
/// no more.
pub open spec fn halves(members: Seq<Member>) -> Result<
    (Option<Seq<u8>>, Option<Seq<u8>>),
    Seq<char>,
>
    decreases members.len(),
{
    if members.len() == 0 {
        Ok((None, None))
    } else {
        match halves(members.drop_last()) {
            Err(e) => Err(e),
            Ok((payload, signature)) => {
                let member = members.last();
                if member.name == PAYLOAD@ {
                    if payload is Some {
                        Err(held_twice(PAYLOAD@))
                    } else {
                        Ok((Some(member.data), signature))
                    }
                } else if member.name == SIGNATURE@ {
                    if signature is Some {
                        Err(held_twice(SIGNATURE@))
                    } else {
                        Ok((payload, Some(member.data)))
                    }
                } else {
                    Err(
                        "A bundle holds payload.tar and payload.tar.sig, and this one holds "@
                            + member.name,
                    )
                }
            },
        }
    }
}

/// Who a bundle file is from, given its two halves.
pub open spec fn signer_for(
    signers: Signers,
    payload: Seq<u8>,
    signature: Option<Seq<u8>>,
    allow_unsigned: bool,
) -> Result<Seq<char>, Seq<char>> {
    match signature {
        Some(signature) => signers::signer_of(signers, NAMESPACE@, payload, signature),
        None => if allow_unsigned {
            Ok(UNSIGNED@)
        } else {
            Err(
                "The bundle is not signed, so there is nothing that says where it came from; install it with --allow-unsigned to take it anyway"@,
            )
        },
    }
}

/// The payload of a bundle file, and who it is from.
pub open spec fn authentic(signers: Signers, file: Seq<u8>, allow_unsigned: bool) -> Result<
    (Seq<u8>, Seq<char>),
    Seq<char>,
> {
    match tar::held(file) {
        Err(e) => Err(e),
        Ok(members) => match halves(members) {
            Err(e) => Err(e),
            Ok((None, _)) => Err("The file holds no payload.tar, so it is not a bundle"@),
            Ok((Some(payload), signature)) => match signer_for(
                signers,
                payload,
                signature,
                allow_unsigned,
            ) {
                Err(e) => Err(e),
                Ok(signer) => Ok((payload, signer)),
            },
        },
    }
}

/// The two members of a bundle file.
pub open spec fn two_halves(payload: Seq<u8>, signature: Option<Seq<u8>>) -> Seq<Member> {
    let first = seq![Member { name: PAYLOAD@, mode: DATA_MODE, data: payload }];
    match signature {
        None => first,
        Some(signature) => first.push(
            Member { name: SIGNATURE@, mode: DATA_MODE, data: signature },
        ),
    }
}

/// Whether a file is the bundle of these members, with this signature.
pub open spec fn bundles(
    file: Seq<u8>,
    payload: Seq<u8>,
    signature: Option<Seq<u8>>,
    members: Seq<Member>,
) -> bool {
    &&& tar::carries(file, two_halves(payload, signature))
    &&& tar::carries(payload, members)
}

proof fn lemma_halves_stop(members: Seq<Member>, i: int)
    requires
        0 <= i <= members.len(),
        halves(members.take(i)) is Err,
    ensures
        halves(members) == halves(members.take(i)),
    decreases members.len() - i,
{
    if i == members.len() {
        assert(members.take(i) =~= members);
    } else {
        assert(members.take(i + 1).drop_last() =~= members.take(i));
        lemma_halves_stop(members, i + 1);
    }
}

proof fn lemma_two_halves(payload: Seq<u8>, signature: Option<Seq<u8>>)
    ensures
        halves(two_halves(payload, signature)) == Ok::<
            (Option<Seq<u8>>, Option<Seq<u8>>),
            Seq<char>,
        >((Some(payload), signature)),
{
    let all = two_halves(payload, signature);
    reveal_strlit("payload.tar");
    reveal_strlit("payload.tar.sig");
    assert(PAYLOAD@.len() != SIGNATURE@.len());
    reveal_with_fuel(halves, 3);
    if signature is Some {
        assert(all.drop_last() =~= two_halves(payload, None));
    }
    assert(two_halves(payload, None).drop_last() =~= Seq::empty());
}

/// Optional bytes, as plain values.
pub open spec fn bytes_of(b: Option<Vec<u8>>) -> Option<Seq<u8>> {
    match b {
        Some(b) => Some(b@),
        None => None,
    }
}

/// What is said of a member that is there a second time.
fn there_twice(name: &str) -> (r: String)
    ensures
        r@ == held_twice(name@),
{
    let mut e = "The bundle holds ".to_owned();
    e.append(name);
    e.append(" twice");
    e
}

/// Split a bundle into its payload and the identity that signed it.
fn authenticate(signers: &Signers, file: &[u8], allow_unsigned: bool) -> (r: Result<
    (Vec<u8>, String),
    String,
>)
    ensures
        authentic(*signers, file@, allow_unsigned) == (match r {
            Ok((payload, signer)) => Ok((payload@, signer@)),
            Err(e) => Err(e@),
        }),
        forall|payload: Seq<u8>, signature: Option<Seq<u8>>|
            tar::carries(file@, #[trigger] two_halves(payload, signature)) ==> (match r {
                Ok((p, s)) => p@ == payload && signer_for(
                    *signers,
                    payload,
                    signature,
                    allow_unsigned,
                ) == Ok::<Seq<char>, Seq<char>>(s@),
                Err(e) => signer_for(*signers, payload, signature, allow_unsigned) == Err::<
                    Seq<char>,
                    Seq<char>,
                >(e@),
            }),
{
    let read = tar::read(file);
    proof {
        assert forall|payload: Seq<u8>, signature: Option<Seq<u8>>|
            tar::carries(file@, #[trigger] two_halves(payload, signature)) implies tar::held(file@) == Ok::<Seq<Member>, Seq<char>>(
            two_halves(payload, signature),
        ) && halves(two_halves(payload, signature)) == Ok::<
            (Option<Seq<u8>>, Option<Seq<u8>>),
            Seq<char>,
        >((Some(payload), signature)) by {
            lemma_two_halves(payload, signature);
        }
    }
    let members = match read {
        Ok(members) => members,
        Err(e) => {
            return Err(e);
        },
    };
    let ghost all = tar::members_of(members@);
    let mut payload: Option<Vec<u8>> = None;
    let mut signature: Option<Vec<u8>> = None;
    let n: usize = members.len();
    let mut i: usize = 0;
    for member in it: members
        invariant
            i == it.index(),
            it.seq().len() == n,
            tar::members_of(it.seq()) == all,
            tar::held(file@) == Ok::<Seq<Member>, Seq<char>>(all),
            halves(all.take(i as int)) == Ok::<(Option<Seq<u8>>, Option<Seq<u8>>), Seq<char>>(
                (bytes_of(payload), bytes_of(signature)),
            ),
            forall|payload: Seq<u8>, signature: Option<Seq<u8>>|
                tar::carries(file@, #[trigger] two_halves(payload, signature)) ==> all == two_halves(payload, signature) && halves(all) == Ok::<
                    (Option<Seq<u8>>, Option<Seq<u8>>),
                    Seq<char>,
                >((Some(payload), signature)),
    {
        proof {
            assert(all.take(i + 1).drop_last() =~= all.take(i as int));
            assert(all.take(i + 1).last() == member@);
        }
        if text::equal(member.name.as_str(), PAYLOAD) {
            if payload.is_some() {
                proof {
                    lemma_halves_stop(all, i + 1);
                }
                return Err(there_twice(PAYLOAD));
            }
            payload = Some(member.data);
        } else if text::equal(member.name.as_str(), SIGNATURE) {
            if signature.is_some() {
                proof {
                    lemma_halves_stop(all, i + 1);
                }
                return Err(there_twice(SIGNATURE));
            }
            signature = Some(member.data);
        } else {
            let mut e = "A bundle holds payload.tar and payload.tar.sig, and this one holds ".to_owned();
            e.append(member.name.as_str());
            proof {
                lemma_halves_stop(all, i + 1);
            }
            return Err(e);
        }
        i += 1;
    }
    assert(all.take(i as int) =~= all);
    let payload = match payload {
        Some(payload) => payload,
        None => {
            return Err("The file holds no payload.tar, so it is not a bundle".to_owned());
        },
    };
    match signature {
        Some(signature) => match signers::signed_by(
            signers,
            NAMESPACE,
            payload.as_slice(),
            signature.as_slice(),
        ) {
            Ok(signer) => Ok((payload, signer)),
            Err(e) => Err(e),
        },
        None => if allow_unsigned {
            Ok((payload, UNSIGNED.to_owned()))
        } else {
            Err(
                "The bundle is not signed, so there is nothing that says where it came from; install it with --allow-unsigned to take it anyway".to_owned(),
            )
        },
    }
}

/// A file of a bundle and where it lands.
pub struct Placed {
    pub path: String,
    pub mode: u32,
    pub data: Vec<u8>,
}

/// A file of a bundle and where it lands, as plain values.
pub struct Laid {
    pub path: Seq<char>,
    pub mode: u32,
    pub data: Seq<u8>,
}

impl View for Placed {
    type V = Laid;

    open spec fn view(&self) -> Laid {
        Laid { path: self.path@, mode: self.mode, data: self.data@ }
    }
}

/// Files of a bundle, as plain values.
pub open spec fn laid_of(s: Seq<Placed>) -> Seq<Laid> {
    Seq::new(s.len(), |i: int| s[i]@)
}

/// Whether one of the first `n` members has a name.
pub open spec fn seen_before(members: Seq<Member>, n: int, name: Seq<char>) -> bool {
    exists|j: int| 0 <= j < n && j < members.len() && (#[trigger] members[j]).name == name
}

/// The manifest among the members of a payload, and where the others land.
pub open spec fn laid_out(members: Seq<Member>) -> Result<(Option<Seq<u8>>, Seq<Laid>), Seq<char>>
    decreases members.len(),
{
    if members.len() == 0 {
        Ok((None, Seq::empty()))
    } else {
        match laid_out(members.drop_last()) {
            Err(e) => Err(e),
            Ok((manifest, files)) => {
                let member = members.last();
                if seen_before(members, members.len() - 1, member.name) {
                    Err(held_twice(member.name))
                } else if member.name == MANIFEST@ {
                    Ok((Some(member.data), files))
                } else {
                    match placed(member.name) {
                        Err(e) => Err(e),
                        Ok((path, mode)) => Ok(
                            (manifest, files.push(Laid { path, mode, data: member.data })),
                        ),
                    }
                }
            },
        }
    }
}

/// A payload that was authenticated, as plain values: who it is from, what it
/// lays down, and the text that says what it is.
pub struct Parcel {
    pub signer: Seq<char>,
    pub files: Seq<Laid>,
    pub manifest: Seq<char>,
}

/// What the members of a payload are, once it is known who they are from.
pub open spec fn gathered(signer: Seq<char>, members: Seq<Member>) -> Result<Parcel, Seq<char>> {
    match laid_out(members) {
        Err(e) => Err(e),
        Ok((None, _)) => Err(
            "The bundle holds no bundle.yaml, so there is nothing that says what it is"@,
        ),
        Ok((Some(manifest), files)) => match text::decoded(manifest) {
            None => Err(
                "The bundle.yaml of the bundle is not valid UTF-8: "@ + text::utf8_complaint(
                    manifest,
                ),
            ),
            Some(manifest) => Ok(Parcel { signer, files, manifest }),
        },
    }
}

/// What a bundle file holds, for a system that allows these signers.
pub open spec fn unpacked(signers: Signers, file: Seq<u8>, allow_unsigned: bool) -> Result<
    Parcel,
    Seq<char>,
> {
    match authentic(signers, file, allow_unsigned) {
        Err(e) => Err(e),
        Ok((payload, signer)) => match tar::held(payload) {
            Err(e) => Err(e),
            Ok(members) => gathered(signer, members),
        },
    }
}

/// A payload that was authenticated and whose members are all something that a
/// bundle can carry.  What it is called is still to be read.
pub struct Unread {
    signer: String,
    files: Vec<Placed>,
    manifest: String,
}

impl View for Unread {
    type V = Parcel;

    closed spec fn view(&self) -> Parcel {
        Parcel { signer: self.signer@, files: laid_of(self.files@), manifest: self.manifest@ }
    }
}

impl Unread {
    /// The text that says what the bundle is.
    pub fn manifest(&self) -> (r: &str)
        ensures
            r@ == self@.manifest,
    {
        self.manifest.as_str()
    }
}

/// A bundle file that was unpacked.
pub open spec fn parcel(r: Result<Unread, String>) -> Result<Parcel, Seq<char>> {
    match r {
        Ok(u) => Ok(u@),
        Err(e) => Err(e@),
    }
}

proof fn lemma_laid_out_stops(members: Seq<Member>, i: int)
    requires
        0 <= i <= members.len(),
        laid_out(members.take(i)) is Err,
    ensures
        laid_out(members) == laid_out(members.take(i)),
    decreases members.len() - i,
{
    if i == members.len() {
        assert(members.take(i) =~= members);
    } else {
        assert(members.take(i + 1).drop_last() =~= members.take(i));
        lemma_laid_out_stops(members, i + 1);
    }
}

/// Lay the members of a payload out.
fn lay_out(members: Vec<Entry>) -> (r: Result<(Option<Vec<u8>>, Vec<Placed>), String>)
    ensures
        laid_out(tar::members_of(members@)) == (match r {
            Ok((manifest, files)) => Ok((bytes_of(manifest), laid_of(files@))),
            Err(e) => Err(e@),
        }),
{
    let ghost all = tar::members_of(members@);
    let mut manifest: Option<Vec<u8>> = None;
    let mut files: Vec<Placed> = Vec::new();
    let mut seen: Vec<String> = Vec::new();
    let n: usize = members.len();
    let mut i: usize = 0;
    assert(laid_of(files@) =~= Seq::empty());
    for member in it: members
        invariant
            i == it.index(),
            it.seq().len() == n,
            tar::members_of(it.seq()) == all,
            all == tar::members_of(members@),
            seen@.len() == i,
            forall|j: int| 0 <= j < i ==> (#[trigger] seen@[j])@ == all[j].name,
            laid_out(all.take(i as int)) == Ok::<(Option<Seq<u8>>, Seq<Laid>), Seq<char>>(
                (bytes_of(manifest), laid_of(files@)),
            ),
    {
        let ghost now = all.take(i + 1);
        proof {
            assert(now.drop_last() =~= all.take(i as int));
            assert(now.last() == member@);
        }
        if text::listed(&seen, member.name.as_str()) {
            proof {
                let j = choose|j: int|
                    0 <= j < seen@.len() && text::texts(seen@)[j] == member.name@;
                assert(seen@[j]@ == all[j].name);
                assert(now[j].name == member.name@);
                lemma_laid_out_stops(all, i + 1);
            }
            return Err(there_twice(member.name.as_str()));
        }
        assert(!seen_before(now, i as int, member.name@)) by {
            assert forall|j: int| 0 <= j < i implies (#[trigger] now[j]).name != member.name@ by {
                assert(seen@[j]@ == all[j].name);
                assert(text::texts(seen@)[j] == all[j].name);
            }
        }
        seen.push(member.name.clone());
        if text::equal(member.name.as_str(), MANIFEST) {
            manifest = Some(member.data);
        } else {
            match place(member.name.as_str()) {
                Err(e) => {
                    proof {
                        lemma_laid_out_stops(all, i + 1);
                    }
                    return Err(e);
                },
                Ok((path, mode)) => {
                    let ghost had = laid_of(files@);
                    let file = Placed { path, mode, data: member.data };
                    files.push(file);
                    assert(laid_of(files@) =~= had.push(file@));
                },
            }
        }
        i += 1;
    }
    assert(all.take(i as int) =~= all);
    Ok((manifest, files))
}

/// Authenticate a bundle and check everything in it, without writing anything.
///
/// What was built is what comes out: a file that bundles members gives those
/// members, in the order that they are in, where the system takes whoever signed
/// them.
pub fn unpack(signers: &Signers, file: &[u8], allow_unsigned: bool) -> (r: Result<Unread, String>)
    ensures
        parcel(r) == unpacked(*signers, file@, allow_unsigned),
        forall|payload: Seq<u8>, signature: Option<Seq<u8>>, members: Seq<Member>|
            #[trigger] bundles(file@, payload, signature, members) ==> parcel(r) == (match signer_for(
                *signers,
                payload,
                signature,
                allow_unsigned,
            ) {
                Err(e) => Err(e),
                Ok(signer) => gathered(signer, members),
            }),
{
    let (payload, signer) = match authenticate(signers, file, allow_unsigned) {
        Ok(halves) => halves,
        Err(e) => {
            return Err(e);
        },
    };
    let members = match tar::read(payload.as_slice()) {
        Ok(members) => members,
        Err(e) => {
            return Err(e);
        },
    };
    let ghost all = tar::members_of(members@);
    let (manifest, files) = match lay_out(members) {
        Ok(laid) => laid,
        Err(e) => {
            return Err(e);
        },
    };
    let manifest = match manifest {
        Some(manifest) => manifest,
        None => {
            return Err(
                "The bundle holds no bundle.yaml, so there is nothing that says what it is".to_owned(),
            );
        },
    };
    match text::from_utf8(manifest) {
        Ok(manifest) => Ok(Unread { signer, files, manifest }),
        Err(e) => {
            let mut m = "The bundle.yaml of the bundle is not valid UTF-8: ".to_owned();
            m.append(e.as_str());
            Err(m)
        },
    }
}

/// A payload that was authenticated and checked, ready to be written.
pub struct Content {
    bundle: Bundle,
    files: Vec<Placed>,
}

/// A payload that is ready to be written, as plain values.
pub struct Load {
    pub bundle: Identity,
    pub files: Seq<Laid>,
}

impl View for Content {
    type V = Load;

    closed spec fn view(&self) -> Load {
        Load { bundle: self.bundle@, files: laid_of(self.files@) }
    }
}

/// What a payload is once its manifest is read.
pub open spec fn opened(p: Parcel, read: Result<Identity, Seq<char>>) -> Result<Load, Seq<char>> {
    match parsed(p.manifest, read) {
        Err(e) => Err(e),
        Ok(bundle) => Ok(Load { bundle: Identity { signer: p.signer, ..bundle }, files: p.files }),
    }
}

/// A payload that was opened.
pub open spec fn load(r: Result<Content, String>) -> Result<Load, Seq<char>> {
    match r {
        Ok(c) => Ok(c@),
        Err(e) => Err(e@),
    }
}

/// Read what a bundle says of itself, `read` being what its manifest says.
pub fn open(unread: Unread, read: Result<Bundle, String>) -> (r: Result<Content, String>)
    ensures
        load(r) == opened(unread@, identified(read)),
{
    match parse(unread.manifest.as_str(), read) {
        Err(e) => Err(e),
        Ok(bundle) => Ok(
            Content {
                bundle: Bundle {
                    name: bundle.name,
                    version: bundle.version,
                    signer: unread.signer,
                    origin: bundle.origin,
                    persist: bundle.persist,
                },
                files: unread.files,
            },
        ),
    }
}

/// The bundle that a file is, once its signature was checked against the keys
/// that the system allows and every member of it is something that a bundle can
/// carry.  Nothing is written.
pub fn verify(unread: Unread, read: Result<Bundle, String>) -> (r: Result<Bundle, String>)
    ensures
        identified(r) == (match opened(unread@, identified(read)) {
            Ok(load) => Ok(load.bundle),
            Err(e) => Err(e),
        }),
{
    match open(unread, read) {
        Ok(content) => Ok(content.bundle),
        Err(e) => Err(e),
    }
}

/// Whether a list is the names of the bundles that a directory holds an entry
/// each for, in their order.  What is not named for any bundle is left alone.
pub open spec fn names_bundles(
    files: Seq<Seq<char>>,
    suffix: Seq<char>,
    names: Seq<Seq<char>>,
) -> bool {
    &&& text::ascending(names)
    &&& forall|name: Seq<char>| #[trigger]
        names.contains(name) <==> is_named_well(name) && files.contains(name + suffix)
}

/// What is said of something that cannot be read.
pub open spec fn unreadable(path: Seq<char>, e: Seq<char>) -> Seq<char> {
    "Cannot read "@ + path + ": "@ + e
}

/// What is said of something that cannot be read.
fn cannot_read(path: &str, e: &str) -> (r: String)
    ensures
        r@ == unreadable(path@, e@),
{
    let mut m = "Cannot read ".to_owned();
    m.append(path);
    m.append(": ");
    m.append(e);
    m
}

/// The names of the bundles that a directory holds an entry each for, in their
/// order, given the names of the files in it.  A directory that is not there
/// holds none.
pub fn names(dir: &str, files: &Result<Vec<String>, String>, suffix: &str) -> (r: Result<
    Vec<String>,
    String,
>)
    ensures
        match *files {
            Err(e) => r is Err && r->Err_0@ == unreadable(dir@, e@),
            Ok(files) => r is Ok && names_bundles(
                text::texts(files@),
                suffix@,
                text::texts(r->Ok_0@),
            ),
        },
{
    let list = match files {
        Ok(list) => list,
        Err(e) => {
            return Err(cannot_read(dir, e.as_str()));
        },
    };
    let ghost all = text::texts(list@);
    let mut r: Vec<String> = Vec::new();
    let n: usize = list.len();
    let mut i: usize = 0;
    assert(text::texts(r@) =~= Seq::empty());
    while i < n
        invariant
            i <= n == list@.len(),
            all == text::texts(list@),
            text::ascending(text::texts(r@)),
            forall|name: Seq<char>| #[trigger]
                text::texts(r@).contains(name) <==> is_named_well(name) && all.take(
                    i as int,
                ).contains(name + suffix@),
        decreases n - i,
    {
        let ghost had = text::texts(r@);
        let ghost file = all[i as int];
        assert(file == list@[i as int]@);
        if let Some(name) = text::strip_end(list[i].as_str(), suffix) {
            assert(name@ + suffix@ =~= file);
            if named_well(name.as_str()) {
                text::enlist(&mut r, name.as_str());
            }
        }
        proof {
            text::lemma_take_set(all, i as int);
            let now = text::texts(r@);
            assert forall|name: Seq<char>| #[trigger] now.contains(name) <==> is_named_well(name)
                && all.take(i + 1).contains(name + suffix@) by {
                let whole = name + suffix@;
                assert(all.take(i + 1).contains(whole) == all.take(i + 1).to_set().contains(whole));
                assert(all.take(i as int).contains(whole) == all.take(i as int).to_set().contains(
                    whole,
                ));
                assert(had.contains(name) == had.to_set().contains(name));
                assert(now.contains(name) == now.to_set().contains(name));
                if whole == file {
                    assert(text::finishes(file, suffix@)) by {
                        assert(file.subrange(file.len() - suffix@.len(), file.len() as int)
                            =~= suffix@);
                    }
                    assert(file.take(file.len() - suffix@.len()) =~= name);
                }
            }
        }
        i += 1;
    }
    assert(all.take(i as int) =~= all);
    Ok(r)
}

/// What a look at a file found: nothing where there is none, or what it holds.
pub type Look = Result<Option<String>, String>;

/// What a look at the state of a bundle found, and what that says where there
/// is any text.
pub struct Found {
    pub body: Look,
    pub read: Result<Bundle, String>,
}

/// The state that was found next to what it describes, under the name that the
/// system knows the bundle by.
pub open spec fn state_in(path: Seq<char>, name: Seq<char>, found: Found) -> Result<
    Option<Identity>,
    Seq<char>,
> {
    match found.body {
        Err(e) => Err(unreadable(path, e@)),
        Ok(None) => Ok(None),
        Ok(Some(body)) => match parsed(body@, identified(found.read)) {
            Err(e) => Err(e),
            Ok(bundle) => Ok(Some(Identity { name, ..bundle })),
        },
    }
}

/// A bundle that may not be there.
pub open spec fn stated(r: Result<Option<Bundle>, String>) -> Result<Option<Identity>, Seq<char>> {
    match r {
        Ok(b) => Ok(identity_of(b)),
        Err(e) => Err(e@),
    }
}

/// Once more what was read.
fn again(read: &Result<Bundle, String>) -> (r: Result<Bundle, String>)
    ensures
        identified(r) == identified(*read),
{
    match read {
        Ok(bundle) => Ok(bundle.again()),
        Err(e) => Err(e.clone()),
    }
}

/// Read the state that was written next to what it describes, and answer under
/// the name that the system knows the bundle by.
///
/// Which is the name of the file rather than the one inside it: what the bundle
/// wrote is listed beside it under that name.
pub fn read_state(path: &str, name: &str, found: &Found) -> (r: Result<Option<Bundle>, String>)
    ensures
        stated(r) == state_in(path@, name@, *found),
{
    match &found.body {
        Err(e) => Err(cannot_read(path, e.as_str())),
        Ok(None) => Ok(None),
        Ok(Some(body)) => match parse(body.as_str(), again(&found.read)) {
            Err(e) => Err(e),
            Ok(bundle) => Ok(
                Some(
                    Bundle {
                        name: name.to_owned(),
                        version: bundle.version,
                        signer: bundle.signer,
                        origin: bundle.origin,
                        persist: bundle.persist,
                    },
                ),
            ),
        },
    }
}

/// The state of an installed bundle.
pub open spec fn installed_state_of(root: Seq<char>, name: Seq<char>, found: Found) -> Result<
    Option<Identity>,
    Seq<char>,
> {
    state_in(path::joined(root, installed_path_of(name, STATE@)), name, found)
}

/// The state of a kept bundle.
pub open spec fn kept_state_of(root: Seq<char>, name: Seq<char>, found: Found) -> Result<
    Option<Identity>,
    Seq<char>,
> {
    state_in(path::joined(root, kept_path_of(name, STATE@)), name, found)
}

/// What an installed bundle is.
fn installed_state(root: &str, name: &str, found: &Found) -> (r: Result<Option<Bundle>, String>)
    ensures
        stated(r) == installed_state_of(root@, name@, *found),
{
    read_state(path::join(root, installed_path(name, STATE).as_str()).as_str(), name, found)
}

/// What a kept bundle was installed as.
fn kept_state(root: &str, name: &str, found: &Found) -> (r: Result<Option<Bundle>, String>)
    ensures
        stated(r) == kept_state_of(root@, name@, *found),
{
    read_state(path::join(root, kept_path(name, STATE).as_str()).as_str(), name, found)
}

/// The lines of a list that name something a bundle can have written.
pub open spec fn our_lines(lines: Seq<Seq<char>>) -> Seq<Seq<char>>
    decreases lines.len(),
{
    if lines.len() == 0 {
        Seq::empty()
    } else {
        let before = our_lines(lines.drop_last());
        if text::trim(lines.last()).len() > 0 && is_ours(lines.last()) {
            before.push(lines.last())
        } else {
            before
        }
    }
}

/// The paths that a list of what a bundle wrote names.
pub open spec fn paths_in(body: Seq<char>) -> Seq<Seq<char>> {
    path::path_set(our_lines(text::lines(body)))
}

/// The paths that a bundle wrote, as a look at its list found them.
pub open spec fn recorded_of(root: Seq<char>, name: Seq<char>, list: Look) -> Result<
    Seq<Seq<char>>,
    Seq<char>,
> {
    match list {
        Err(e) => Err(unreadable(path::joined(root, installed_path_of(name, FILES@)), e@)),
        Ok(None) => Ok(Seq::empty()),
        Ok(Some(body)) => Ok(paths_in(body@)),
    }
}

/// Paths that were read.
pub open spec fn paths_read(r: Result<Vec<String>, String>) -> Result<Seq<Seq<char>>, Seq<char>> {
    match r {
        Ok(paths) => Ok(text::texts(paths@)),
        Err(e) => Err(e@),
    }
}

/// The paths that an installed bundle wrote.
///
/// A path outside the two trees that a bundle installs into is dropped, so that a
/// corrupted list cannot point the removal at the rest of the system.
pub fn recorded(root: &str, name: &str, list: &Look) -> (r: Result<Vec<String>, String>)
    ensures
        paths_read(r) == recorded_of(root@, name@, *list),
{
    let mut paths: Vec<String> = Vec::new();
    assert(text::texts(paths@) =~= Seq::empty());
    let body = match list {
        Ok(Some(body)) => body,
        Ok(None) => {
            return Ok(paths);
        },
        Err(e) => {
            return Err(
                cannot_read(
                    path::join(root, installed_path(name, FILES).as_str()).as_str(),
                    e.as_str(),
                ),
            );
        },
    };
    let lines = text::lines_of(body.as_str());
    let ghost all = text::lines(body@);
    let n: usize = lines.len();
    let mut i: usize = 0;
    while i < n
        invariant
            i <= n == lines@.len(),
            text::texts(lines@) == all,
            text::texts(paths@) == path::path_set(our_lines(all.take(i as int))),
        decreases n - i,
    {
        let ghost line = lines@[i as int]@;
        let ghost had = our_lines(all.take(i as int));
        proof {
            assert(all.take(i + 1).drop_last() =~= all.take(i as int));
            assert(all.take(i + 1).last() == line);
        }
        if !text::blank(lines[i].as_str()) && ours(lines[i].as_str()) {
            assert(had.push(line).drop_last() =~= had);
            path::enlist(&mut paths, lines[i].as_str());
        }
        i += 1;
    }
    assert(all.take(i as int) =~= all);
    Ok(paths)
}

/// The list of what a bundle wrote, as it is stored: a path on each line.
pub open spec fn listing_of(paths: Seq<Seq<char>>) -> Seq<char> {
    text::ended(paths)
}

/// The list of what a bundle wrote, as it is stored.
pub fn listing(paths: &Vec<String>) -> (r: String)
    ensures
        r@ == listing_of(text::texts(paths@)),
{
    text::ended_of(paths)
}

/// What the system holds for an installed bundle: its name, the list of what it
/// wrote, and its state.
pub struct Holding {
    pub name: String,
    pub list: Look,
    pub state: Found,
}

/// The paths that each of the installed bundles wrote.
pub open spec fn claims(root: Seq<char>, holdings: Seq<Holding>) -> Result<
    Seq<Seq<Seq<char>>>,
    Seq<char>,
>
    decreases holdings.len(),
{
    if holdings.len() == 0 {
        Ok(Seq::empty())
    } else {
        match claims(root, holdings.drop_last()) {
            Err(e) => Err(e),
            Ok(before) => match recorded_of(root, holdings.last().name@, holdings.last().list) {
                Err(e) => Err(e),
                Ok(paths) => Ok(before.push(paths)),
            },
        }
    }
}

/// Which of the bundles wrote a path, the last of them that claims it.
pub open spec fn claimant(claims: Seq<Seq<Seq<char>>>, path: Seq<char>) -> Option<int>
    decreases claims.len(),
{
    if claims.len() == 0 {
        None
    } else if path::holds_route(claims.last(), path) {
        Some(claims.len() - 1)
    } else {
        claimant(claims.drop_last(), path)
    }
}

proof fn lemma_claims_stop(root: Seq<char>, holdings: Seq<Holding>, i: int)
    requires
        0 <= i <= holdings.len(),
        claims(root, holdings.take(i)) is Err,
    ensures
        claims(root, holdings) == claims(root, holdings.take(i)),
    decreases holdings.len() - i,
{
    if i == holdings.len() {
        assert(holdings.take(i) =~= holdings);
    } else {
        assert(holdings.take(i + 1).drop_last() =~= holdings.take(i));
        lemma_claims_stop(root, holdings, i + 1);
    }
}

pub(crate) proof fn lemma_claims_len(root: Seq<char>, holdings: Seq<Holding>)
    ensures
        claims(root, holdings) matches Ok(c) ==> c.len() == holdings.len(),
    decreases holdings.len(),
{
    if holdings.len() > 0 {
        lemma_claims_len(root, holdings.drop_last());
    }
}

pub(crate) proof fn lemma_claimant(c: Seq<Seq<Seq<char>>>, path: Seq<char>)
    ensures
        claimant(c, path) matches Some(i) ==> 0 <= i < c.len() && path::holds_route(c[i], path),
        claimant(c, path) is None ==> forall|i: int|
            0 <= i < c.len() ==> !path::holds_route(#[trigger] c[i], path),
    decreases c.len(),
{
    if c.len() > 0 && !path::holds_route(c.last(), path) {
        lemma_claimant(c.drop_last(), path);
        assert forall|i: int| 0 <= i < c.len() && claimant(c, path) is None implies !path::holds_route(
            #[trigger] c[i],
            path,
        ) by {
            if i < c.len() - 1 {
                assert(c.drop_last()[i] == c[i]);
            }
        }
    }
}

/// Lists of paths, as plain values.
pub open spec fn lists_of(s: Seq<Vec<String>>) -> Seq<Seq<Seq<char>>> {
    Seq::new(s.len(), |i: int| text::texts(s[i]@))
}

/// The paths that each of the installed bundles wrote.
fn claimed(root: &str, holdings: &Vec<Holding>) -> (r: Result<Vec<Vec<String>>, String>)
    ensures
        claims(root@, holdings@) == (match r {
            Ok(lists) => Ok(lists_of(lists@)),
            Err(e) => Err(e@),
        }),
{
    let ghost all = holdings@;
    let mut lists: Vec<Vec<String>> = Vec::new();
    let n: usize = holdings.len();
    let mut i: usize = 0;
    assert(lists_of(lists@) =~= Seq::empty());
    while i < n
        invariant
            i <= n == holdings@.len(),
            all == holdings@,
            claims(root@, all.take(i as int)) == Ok::<Seq<Seq<Seq<char>>>, Seq<char>>(
                lists_of(lists@),
            ),
        decreases n - i,
    {
        proof {
            assert(all.take(i + 1).drop_last() =~= all.take(i as int));
            assert(all.take(i + 1).last() == holdings@[i as int]);
        }
        match recorded(root, holdings[i].name.as_str(), &holdings[i].list) {
            Err(e) => {
                proof {
                    lemma_claims_stop(root@, all, i + 1);
                }
                return Err(e);
            },
            Ok(paths) => {
                let ghost had = lists_of(lists@);
                lists.push(paths);
                assert(lists_of(lists@) =~= had.push(text::texts(paths@)));
            },
        }
        i += 1;
    }
    assert(all.take(i as int) =~= all);
    Ok(lists)
}

/// Which of the bundles wrote a path.
fn writer(lists: &Vec<Vec<String>>, path: &str) -> (r: Option<usize>)
    ensures
        claimant(lists_of(lists@), path@) == (match r {
            Some(i) => Some(i as int),
            None => None,
        }),
{
    let ghost all = lists_of(lists@);
    let mut i: usize = lists.len();
    assert(all.take(i as int) =~= all);
    while i > 0
        invariant
            i <= lists@.len(),
            all == lists_of(lists@),
            claimant(all, path@) == claimant(all.take(i as int), path@),
        decreases i,
    {
        i -= 1;
        proof {
            assert(all.take(i + 1).drop_last() =~= all.take(i as int));
            assert(all.take(i + 1).last() == text::texts(lists@[i as int]@));
        }
        if path::listed(&lists[i], path) {
            return Some(i);
        }
    }
    None
}

/// The bundle that installed a path, when one of the installed ones claims it.
pub open spec fn owner_of(root: Seq<char>, path: Seq<char>, holdings: Seq<Holding>) -> Result<
    Option<Identity>,
    Seq<char>,
> {
    if !is_ours(path) {
        Ok(None)
    } else {
        match claims(root, holdings) {
            Err(e) => Err(e),
            Ok(c) => match claimant(c, path) {
                None => Ok(None),
                Some(i) => installed_state_of(root, holdings[i].name@, holdings[i].state),
            },
        }
    }
}

/// The bundle that installed `path`, when one of the installed ones claims it.
///
/// `path` is relative to the root, the way the list of what was installed holds
/// it.  A path that no bundle could have written is answered without reading
/// anything.
pub fn owner(root: &str, path: &str, holdings: &Vec<Holding>) -> (r: Result<Option<Bundle>, String>)
    ensures
        stated(r) == owner_of(root@, path@, holdings@),
{
    if !ours(path) {
        return Ok(None);
    }
    let lists = match claimed(root, holdings) {
        Ok(lists) => lists,
        Err(e) => {
            return Err(e);
        },
    };
    proof {
        lemma_claims_len(root@, holdings@);
        lemma_claimant(lists_of(lists@), path@);
    }
    match writer(&lists, path) {
        None => Ok(None),
        Some(i) => installed_state(root, holdings[i].name.as_str(), &holdings[i].state),
    }
}

/// What is said of a path that another bundle wrote.
pub open spec fn clash_error(
    name: Seq<char>,
    path: Seq<char>,
    other: Seq<char>,
    version: Seq<char>,
) -> Seq<char> {
    "The bundle "@ + name + " carries "@ + path + ", which the installed bundle "@ + version
        + " wrote.  Two bundles land in the same prefix and the ladder cannot choose between them: take "@
        + other + " away, or build "@ + name + " without that file"@
}

/// Why a bundle may not write a path, where another bundle wrote it.
pub open spec fn clash(
    root: Seq<char>,
    name: Seq<char>,
    path: Seq<char>,
    holdings: Seq<Holding>,
    c: Seq<Seq<Seq<char>>>,
) -> Option<Seq<char>> {
    match claimant(c, path) {
        None => None,
        Some(i) => {
            let other = holdings[i].name@;
            if other == name {
                None
            } else {
                match installed_state_of(root, other, holdings[i].state) {
                    Err(e) => Some(e),
                    Ok(Some(bundle)) => Some(
                        clash_error(name, path, other, other + " "@ + bundle.version),
                    ),
                    Ok(None) => Some(clash_error(name, path, other, other)),
                }
            }
        },
    }
}

/// Why a bundle may not write what another bundle wrote, path by path.
pub open spec fn clashes(
    root: Seq<char>,
    name: Seq<char>,
    holdings: Seq<Holding>,
    c: Seq<Seq<Seq<char>>>,
) -> spec_fn(Seq<char>) -> Option<Seq<char>> {
    |path: Seq<char>| clash(root, name, path, holdings, c)
}

/// Why an install is refused, where it would write over what another bundle
/// wrote.
pub open spec fn claim_error(
    root: Seq<char>,
    name: Seq<char>,
    wanted: Seq<Seq<char>>,
    holdings: Seq<Holding>,
) -> Option<Seq<char>> {
    match claims(root, holdings) {
        Err(e) => Some(e),
        Ok(c) => text::first_of(wanted, clashes(root, name, holdings, c)),
    }
}

/// Why a bundle may not write one path.
fn clash_at(
    root: &str,
    name: &str,
    path: &str,
    holdings: &Vec<Holding>,
    lists: &Vec<Vec<String>>,
) -> (r: Option<String>)
    requires
        lists@.len() == holdings@.len(),
    ensures
        text::text_of(r) == clash(root@, name@, path@, holdings@, lists_of(lists@)),
{
    proof {
        lemma_claimant(lists_of(lists@), path@);
    }
    let i = match writer(lists, path) {
        None => {
            return None;
        },
        Some(i) => i,
    };
    let other = &holdings[i].name;
    if text::equal(other.as_str(), name) {
        return None;
    }
    let mut version = other.clone();
    match installed_state(root, other.as_str(), &holdings[i].state) {
        Err(e) => {
            return Some(e);
        },
        Ok(Some(bundle)) => {
            version.append(" ");
            version.append(bundle.version.as_str());
        },
        Ok(None) => {},
    }
    let mut m = "The bundle ".to_owned();
    m.append(name);
    m.append(" carries ");
    m.append(path);
    m.append(", which the installed bundle ");
    m.append(version.as_str());
    m.append(
        " wrote.  Two bundles land in the same prefix and the ladder cannot choose between them: take ",
    );
    m.append(other.as_str());
    m.append(" away, or build ");
    m.append(name);
    m.append(" without that file");
    Some(m)
}

/// Refuse an install that would write over what another bundle wrote.
///
/// Before anything is written, because a bundle that is half installed over
/// another one is a system that neither of them describes.
pub fn claim(root: &str, name: &str, wanted: &Vec<String>, holdings: &Vec<Holding>) -> (r: Result<
    (),
    String,
>)
    ensures
        claim_error(root@, name@, text::texts(wanted@), holdings@) == (match r {
            Ok(_) => None,
            Err(e) => Some(e@),
        }),
{
    let lists = match claimed(root, holdings) {
        Ok(lists) => lists,
        Err(e) => {
            return Err(e);
        },
    };
    proof {
        lemma_claims_len(root@, holdings@);
    }
    let ghost all = text::texts(wanted@);
    let ghost why = clashes(root@, name@, holdings@, lists_of(lists@));
    let n: usize = wanted.len();
    let mut i: usize = 0;
    assert(text::first_of(all.take(0), why) is None);
    while i < n
        invariant
            i <= n == wanted@.len(),
            all == text::texts(wanted@),
            lists@.len() == holdings@.len(),
            claims(root@, holdings@) == Ok::<Seq<Seq<Seq<char>>>, Seq<char>>(lists_of(lists@)),
            why == clashes(root@, name@, holdings@, lists_of(lists@)),
            text::first_of(all.take(i as int), why) is None,
        decreases n - i,
    {
        proof {
            text::lemma_first_step(all, why, i as int);
            assert(all[i as int] == wanted@[i as int]@);
        }
        if let Some(e) = clash_at(root, name, wanted[i].as_str(), holdings, &lists) {
            return Err(e);
        }
        i += 1;
    }
    assert(all.take(i as int) =~= all);
    Ok(())
}

/// The directories that taking a file away may leave empty, the innermost first,
/// as long as they are inside the trees that a bundle installs into.
pub open spec fn dirs_from(names: Seq<Seq<char>>, n: nat) -> Seq<Seq<char>>
    decreases n,
{
    if n == 0 || !is_ours(path::spelled(names.take(n as int))) {
        Seq::empty()
    } else {
        seq![path::spelled(names.take(n as int))] + dirs_from(names, (n - 1) as nat)
    }
}

/// The directories that taking a path away may leave empty.
pub open spec fn dirs_behind(path: Seq<char>) -> Seq<Seq<char>> {
    let names = path::names(path);
    if names.len() == 0 {
        Seq::empty()
    } else {
        dirs_from(names, (names.len() - 1) as nat)
    }
}

/// The directories that taking a path away may leave empty, the innermost first.
///
/// Only those inside the trees of a bundle, so `run/lib` and whatever else put
/// something into it are left alone.
pub fn emptied(path: &str) -> (r: Vec<String>)
    ensures
        text::texts(r@) == dirs_behind(path@),
{
    let mut r: Vec<String> = Vec::new();
    assert(text::texts(r@) =~= Seq::empty());
    let mut names = path::parts(path);
    let ghost all = path::names(path@);
    if names.len() == 0 {
        return r;
    }
    names.pop();
    assert(text::texts(names@) =~= all.take(all.len() - 1));
    assert(text::texts(r@) + dirs_from(all, names@.len() as nat) =~= dirs_behind(path@));
    while names.len() > 0
        invariant
            names@.len() < all.len(),
            all == path::names(path@),
            text::texts(names@) == all.take(names@.len() as int),
            text::texts(r@) + dirs_from(all, names@.len() as nat) == dirs_behind(path@),
        decreases names@.len(),
    {
        let dir = path::spell(&names, 0);
        assert(text::texts(names@).skip(0) =~= text::texts(names@));
        if !ours(dir.as_str()) {
            assert(text::texts(r@) + Seq::<Seq<char>>::empty() =~= text::texts(r@));
            return r;
        }
        let ghost had = text::texts(r@);
        let ghost rest = dirs_from(all, (names@.len() - 1) as nat);
        r.push(dir);
        assert(text::texts(r@) =~= had.push(dir@));
        assert(had.push(dir@) + rest =~= had + (seq![dir@] + rest));
        let ghost now = names@.len() - 1;
        names.pop();
        assert(text::texts(names@) =~= all.take(now));
    }
    assert(text::texts(r@) + Seq::<Seq<char>>::empty() =~= text::texts(r@));
    r
}

/// What installing or removing a bundle did, or what it would do: the bundle that
/// was installed or removed, how many files it wrote, and how many files of the
/// bundle that was there before it took away.
#[derive(Debug, PartialEq, Eq)]
pub struct Outcome {
    pub bundle: Bundle,
    pub written: usize,
    pub removed: usize,
}

/// What installing or removing a bundle did, as plain values.
pub struct Account {
    pub bundle: Identity,
    pub written: nat,
    pub removed: nat,
}

impl View for Outcome {
    type V = Account;

    open spec fn view(&self) -> Account {
        Account {
            bundle: self.bundle@,
            written: self.written as nat,
            removed: self.removed as nat,
        }
    }
}

/// Something to do to the system, in a path relative to its root.
pub enum Task {
    /// Write a file whole, to a temporary name and renamed over its target.
    Write { path: String, mode: u32, data: Vec<u8> },
    /// Write down what the bundle is.
    Describe { path: String, mode: u32 },
    /// Write a copy of the signed file.
    Keep { path: String, mode: u32 },
    /// Take away a file that a bundle wrote, and each of these directories as
    /// long as they are empty.
    Unlink { path: String, dirs: Vec<String> },
    /// Take away a file of the copy that was kept.
    Discard { path: String },
    /// Take away the directory of the kept copies, if it is empty.
    Vacate { path: String },
}

/// Something to do to the system, as plain values.
pub enum Job {
    Write { path: Seq<char>, mode: u32, data: Seq<u8> },
    Describe { path: Seq<char>, mode: u32 },
    Keep { path: Seq<char>, mode: u32 },
    Unlink { path: Seq<char>, dirs: Seq<Seq<char>> },
    Discard { path: Seq<char> },
    Vacate { path: Seq<char> },
}

impl View for Task {
    type V = Job;

    open spec fn view(&self) -> Job {
        match *self {
            Task::Write { path, mode, data } => Job::Write { path: path@, mode, data: data@ },
            Task::Describe { path, mode } => Job::Describe { path: path@, mode },
            Task::Keep { path, mode } => Job::Keep { path: path@, mode },
            Task::Unlink { path, dirs } => Job::Unlink {
                path: path@,
                dirs: text::texts(dirs@),
            },
            Task::Discard { path } => Job::Discard { path: path@ },
            Task::Vacate { path } => Job::Vacate { path: path@ },
        }
    }
}

/// Things to do, as plain values.
pub open spec fn jobs(s: Seq<Task>) -> Seq<Job> {
    Seq::new(s.len(), |i: int| s[i]@)
}

/// Write each of these files.
pub open spec fn writes(files: Seq<Laid>) -> Seq<Job> {
    Seq::new(
        files.len(),
        |i: int| Job::Write { path: files[i].path, mode: files[i].mode, data: files[i].data },
    )
}

/// Take each of these paths away.
pub open spec fn unlinks(paths: Seq<Seq<char>>) -> Seq<Job> {
    Seq::new(paths.len(), |i: int| Job::Unlink { path: paths[i], dirs: dirs_behind(paths[i]) })
}

/// Take away the copy that was kept of a bundle.
pub open spec fn discards(name: Seq<char>) -> Seq<Job> {
    seq![
        Job::Discard { path: kept_path_of(name, KEPT@) },
        Job::Discard { path: kept_path_of(name, STATE@) },
        Job::Vacate { path: "var/lib/detc/bundles.d"@ },
    ]
}

/// The paths of files.
pub open spec fn paths_of(files: Seq<Laid>) -> Seq<Seq<char>> {
    Seq::new(files.len(), |i: int| files[i].path)
}

/// The paths that a bundle wants: those of its files, of its state, and of the
/// list of them all.
pub open spec fn wanted_of(l: Load) -> Seq<Seq<char>> {
    path::with_path(
        path::with_path(
            path::path_set(paths_of(l.files)),
            installed_path_of(l.bundle.name, STATE@),
        ),
        installed_path_of(l.bundle.name, FILES@),
    )
}

/// What is to be done to install a bundle over what the one before it wrote.
/// Everything is written before anything is taken away.
pub open spec fn install_jobs(l: Load, previous: Seq<Seq<char>>) -> Seq<Job> {
    let name = l.bundle.name;
    let wanted = wanted_of(l);
    writes(l.files) + unlinks(path::without_paths(previous, wanted)) + seq![
        Job::Write {
            path: installed_path_of(name, FILES@),
            mode: DATA_MODE,
            data: vstd::utf8::encode_utf8(listing_of(wanted)),
        },
        Job::Describe { path: installed_path_of(name, STATE@), mode: DATA_MODE },
    ] + if l.bundle.persist {
        seq![
            Job::Keep { path: kept_path_of(name, KEPT@), mode: DATA_MODE },
            Job::Describe { path: kept_path_of(name, STATE@), mode: DATA_MODE },
        ]
    } else {
        discards(name)
    }
}

/// What installing a bundle comes to: what it did, and what is to be done for it.
pub open spec fn installing(
    root: Seq<char>,
    l: Load,
    holdings: Seq<Holding>,
    list: Look,
    dry_run: bool,
) -> Result<(Account, Seq<Job>), Seq<char>> {
    let wanted = wanted_of(l);
    match claim_error(root, l.bundle.name, wanted, holdings) {
        Some(e) => Err(e),
        None => match recorded_of(root, l.bundle.name, list) {
            Err(e) => Err(e),
            Ok(previous) => Ok(
                (
                    Account {
                        bundle: l.bundle,
                        written: wanted.len(),
                        removed: path::without_paths(previous, wanted).len(),
                    },
                    if dry_run {
                        Seq::empty()
                    } else {
                        install_jobs(l, previous)
                    },
                ),
            ),
        },
    }
}

/// An outcome and what is to be done for it.
pub open spec fn worked(r: Result<(Outcome, Vec<Task>), String>) -> Result<
    (Account, Seq<Job>),
    Seq<char>,
> {
    match r {
        Ok((outcome, tasks)) => Ok((outcome@, jobs(tasks@))),
        Err(e) => Err(e@),
    }
}

/// The paths that a bundle wants.
fn wanted(name: &str, files: &Vec<Placed>) -> (r: Vec<String>)
    ensures
        text::texts(r@) == path::with_path(
            path::with_path(
                path::path_set(paths_of(laid_of(files@))),
                installed_path_of(name@, STATE@),
            ),
            installed_path_of(name@, FILES@),
        ),
{
    let ghost all = paths_of(laid_of(files@));
    let mut r: Vec<String> = Vec::new();
    let n: usize = files.len();
    let mut i: usize = 0;
    assert(text::texts(r@) =~= Seq::empty());
    while i < n
        invariant
            i <= n == files@.len(),
            all == paths_of(laid_of(files@)),
            text::texts(r@) == path::path_set(all.take(i as int)),
        decreases n - i,
    {
        proof {
            assert(all.take(i + 1).drop_last() =~= all.take(i as int));
            assert(all.take(i + 1).last() == files@[i as int].path@);
        }
        path::enlist(&mut r, files[i].path.as_str());
        i += 1;
    }
    assert(all.take(i as int) =~= all);
    path::enlist(&mut r, installed_path(name, STATE).as_str());
    path::enlist(&mut r, installed_path(name, FILES).as_str());
    r
}

/// Take each of these paths away, once the tasks before are done.
fn add_unlinks(tasks: &mut Vec<Task>, paths: &Vec<String>)
    ensures
        jobs(final(tasks)@) == jobs(old(tasks)@) + unlinks(text::texts(paths@)),
{
    let ghost had = jobs(tasks@);
    let ghost all = unlinks(text::texts(paths@));
    let n: usize = paths.len();
    let mut i: usize = 0;
    assert(had + all.take(0) =~= had);
    while i < n
        invariant
            i <= n == paths@.len(),
            all == unlinks(text::texts(paths@)),
            jobs(tasks@) == had + all.take(i as int),
        decreases n - i,
    {
        let ghost so_far = jobs(tasks@);
        let task = Task::Unlink { path: paths[i].clone(), dirs: emptied(paths[i].as_str()) };
        assert(task@ == all[i as int]);
        tasks.push(task);
        assert(jobs(tasks@) =~= so_far.push(task@));
        assert(so_far.push(task@) =~= had + all.take(i + 1));
        i += 1;
    }
    assert(all.take(i as int) =~= all);
}

/// Take away the copy that was kept of one bundle, once the tasks before are
/// done.
///
/// The directory goes with the last bundle in it, because whether a machine has
/// anything to put back is asked of the boot as whether it is empty.
fn add_discards(tasks: &mut Vec<Task>, name: &str)
    ensures
        jobs(final(tasks)@) == jobs(old(tasks)@) + discards(name@),
{
    let ghost had = jobs(tasks@);
    tasks.push(Task::Discard { path: kept_path(name, KEPT) });
    tasks.push(Task::Discard { path: kept_path(name, STATE) });
    tasks.push(Task::Vacate { path: kept_dir().to_owned() });
    assert(jobs(tasks@) =~= had + discards(name@));
}

/// Write each of these files.
fn write_tasks(files: Vec<Placed>) -> (r: Vec<Task>)
    ensures
        jobs(r@) == writes(laid_of(files@)),
{
    let ghost all = writes(laid_of(files@));
    let mut r: Vec<Task> = Vec::new();
    let n: usize = files.len();
    let mut i: usize = 0;
    assert(jobs(r@) =~= all.take(0));
    for file in it: files
        invariant
            i == it.index(),
            it.seq().len() == n,
            all == writes(laid_of(it.seq())),
            jobs(r@) == all.take(i as int),
    {
        let ghost had = jobs(r@);
        let task = Task::Write { path: file.path, mode: file.mode, data: file.data };
        assert(task@ == all[i as int]);
        r.push(task);
        assert(jobs(r@) =~= had.push(task@));
        assert(had.push(task@) =~= all.take(i + 1));
        i += 1;
    }
    assert(all.take(i as int) =~= all);
    r
}

/// Install a bundle, taking away whatever the bundle of the same name left.
///
/// What is to be done is in order: everything is written before anything is taken
/// away, so at every instant each path holds either the old content or the new,
/// and a path that both versions carry is never missing.
///
/// A path that another bundle wrote is refused before anything is written.
pub fn install(
    root: &str,
    content: Content,
    origin: &str,
    persist: bool,
    dry_run: bool,
    holdings: &Vec<Holding>,
    list: &Look,
) -> (r: Result<(Outcome, Vec<Task>), String>)
    ensures
        worked(r) == installing(
            root@,
            (Load {
                bundle: Identity { origin: origin@, persist, ..content@.bundle },
                files: content@.files,
            }),
            holdings@,
            *list,
            dry_run,
        ),
{
    let ghost l = Load {
        bundle: Identity { origin: origin@, persist, ..content@.bundle },
        files: content@.files,
    };
    let bundle = Bundle {
        name: content.bundle.name,
        version: content.bundle.version,
        signer: content.bundle.signer,
        origin: origin.to_owned(),
        persist,
    };
    let name = bundle.name.clone();
    let wanted = wanted(name.as_str(), &content.files);
    match claim(root, name.as_str(), &wanted, holdings) {
        Ok(_) => {},
        Err(e) => {
            return Err(e);
        },
    }
    let previous = match recorded(root, name.as_str(), list) {
        Ok(previous) => previous,
        Err(e) => {
            return Err(e);
        },
    };
    let stale = path::missing(&previous, &wanted);
    let outcome = Outcome { bundle, written: wanted.len(), removed: stale.len() };
    assert(text::texts(wanted@).len() == wanted@.len());
    assert(text::texts(stale@).len() == stale@.len());
    if dry_run {
        let none: Vec<Task> = Vec::new();
        assert(jobs(none@) =~= Seq::empty());
        return Ok((outcome, none));
    }
    let mut tasks = write_tasks(content.files);
    add_unlinks(&mut tasks, &stale);
    let ghost first = jobs(tasks@);
    let listed = listing(&wanted);
    tasks.push(
        Task::Write {
            path: installed_path(name.as_str(), FILES),
            mode: DATA_MODE,
            data: vstd::slice::slice_to_vec(listed.as_str().as_bytes()),
        },
    );
    tasks.push(Task::Describe { path: installed_path(name.as_str(), STATE), mode: DATA_MODE });
    let ghost second = seq![
        Job::Write {
            path: installed_path_of(name@, FILES@),
            mode: DATA_MODE,
            data: vstd::utf8::encode_utf8(listing_of(text::texts(wanted@))),
        },
        Job::Describe { path: installed_path_of(name@, STATE@), mode: DATA_MODE },
    ];
    assert(jobs(tasks@) =~= first + second);
    if persist {
        tasks.push(Task::Keep { path: kept_path(name.as_str(), KEPT), mode: DATA_MODE });
        tasks.push(Task::Describe { path: kept_path(name.as_str(), STATE), mode: DATA_MODE });
        assert(jobs(tasks@) =~= first + second + seq![
            Job::Keep { path: kept_path_of(name@, KEPT@), mode: DATA_MODE },
            Job::Describe { path: kept_path_of(name@, STATE@), mode: DATA_MODE },
        ]);
    } else {
        add_discards(&mut tasks, name.as_str());
    }
    Ok((outcome, tasks))
}

/// What removing a bundle comes to, if there is one.
pub open spec fn removing(
    root: Seq<char>,
    name: Seq<char>,
    installed: Found,
    kept: Found,
    list: Look,
    dry_run: bool,
) -> Result<Option<(Account, Seq<Job>)>, Seq<char>> {
    match (installed_state_of(root, name, installed), kept_state_of(root, name, kept)) {
        (Err(e), _) => Err(e),
        (Ok(_), Err(e)) => Err(e),
        (Ok(None), Ok(None)) => Ok(None),
        (Ok(first), Ok(second)) => {
            let bundle = if first is Some {
                first->Some_0
            } else {
                second->Some_0
            };
            match recorded_of(root, name, list) {
                Err(e) => Err(e),
                Ok(paths) => Ok(
                    Some(
                        (
                            Account { bundle, written: 0, removed: paths.len() },
                            if dry_run {
                                Seq::empty()
                            } else {
                                unlinks(paths) + discards(name)
                            },
                        ),
                    ),
                ),
            }
        },
    }
}

/// Take away one bundle, and the copy that was kept of it.
///
/// A name that names nothing is nothing to do.  A bundle that was kept but is not
/// installed is still taken away: that is the machine between the reboot that
/// emptied the tmpfs and the restore that fills it again.
pub fn remove(
    root: &str,
    name: &str,
    installed: &Found,
    kept: &Found,
    list: &Look,
    dry_run: bool,
) -> (r: Result<Option<(Outcome, Vec<Task>)>, String>)
    ensures
        removing(root@, name@, *installed, *kept, *list, dry_run) == (match r {
            Err(e) => Err(e@),
            Ok(None) => Ok(None),
            Ok(Some((outcome, tasks))) => Ok(Some((outcome@, jobs(tasks@)))),
        }),
{
    let first = match installed_state(root, name, installed) {
        Ok(first) => first,
        Err(e) => {
            return Err(e);
        },
    };
    let second = match kept_state(root, name, kept) {
        Ok(second) => second,
        Err(e) => {
            return Err(e);
        },
    };
    let bundle = match first {
        Some(bundle) => bundle,
        None => match second {
            Some(bundle) => bundle,
            None => {
                return Ok(None);
            },
        },
    };
    let paths = match recorded(root, name, list) {
        Ok(paths) => paths,
        Err(e) => {
            return Err(e);
        },
    };
    let outcome = Outcome { bundle, written: 0, removed: paths.len() };
    assert(text::texts(paths@).len() == paths@.len());
    let mut tasks: Vec<Task> = Vec::new();
    assert(jobs(tasks@) =~= Seq::empty());
    if !dry_run {
        add_unlinks(&mut tasks, &paths);
        assert(jobs(tasks@) =~= unlinks(text::texts(paths@)));
        add_discards(&mut tasks, name);
    }
    Ok(Some((outcome, tasks)))
}

/// The names of the bundles that a system knows, those that are installed and those
/// that were kept, in their order and each of them once.
pub fn known(installed: &Vec<String>, kept: &Vec<String>) -> (r: Vec<String>)
    ensures
        text::ascending(text::texts(r@)),
        text::texts(r@).to_set() == text::texts(installed@).to_set().union(
            text::texts(kept@).to_set(),
        ),
{
    let mut r: Vec<String> = Vec::new();
    assert(text::texts(r@).to_set() =~= Set::empty());
    enlist_all(&mut r, installed);
    enlist_all(&mut r, kept);
    assert(text::texts(r@).to_set() =~= text::texts(installed@).to_set().union(
        text::texts(kept@).to_set(),
    ));
    r
}

/// Put names in their places in a list, those that are not in it.
fn enlist_all(list: &mut Vec<String>, names: &Vec<String>)
    requires
        text::ascending(text::texts(old(list)@)),
    ensures
        text::ascending(text::texts(final(list)@)),
        text::texts(final(list)@).to_set() == text::texts(old(list)@).to_set().union(
            text::texts(names@).to_set(),
        ),
{
    let ghost was = text::texts(list@).to_set();
    let ghost all = text::texts(names@);
    let n: usize = names.len();
    let mut i: usize = 0;
    assert(was.union(all.take(0).to_set()) =~= was);
    while i < n
        invariant
            i <= n == names@.len(),
            all == text::texts(names@),
            text::ascending(text::texts(list@)),
            text::texts(list@).to_set() == was.union(all.take(i as int).to_set()),
        decreases n - i,
    {
        assert(all[i as int] == names@[i as int]@);
        proof {
            text::lemma_take_set(all, i as int);
        }
        text::enlist(list, names[i].as_str());
        assert(text::texts(list@).to_set() =~= was.union(all.take(i + 1).to_set()));
        i += 1;
    }
    assert(all.take(i as int) =~= all);
}

/// How a bundle that was kept is installed again.
pub struct Terms {
    pub origin: String,
    pub persist: bool,
    pub allow_unsigned: bool,
}

/// How a bundle that was kept is installed again: as it was installed, and to be
/// kept once more.  One that was taken without a signature is taken without one
/// again.
pub open spec fn restoring(
    root: Seq<char>,
    name: Seq<char>,
    file: Result<Vec<u8>, String>,
    state: Found,
) -> Result<(Seq<char>, bool), Seq<char>> {
    match file {
        Err(e) => Err(
            "Cannot read the bundle kept in "@ + path::joined(root, kept_path_of(name, KEPT@)) + ": "@
                + e@,
        ),
        Ok(_) => match kept_state_of(root, name, state) {
            Err(e) => Err(e),
            Ok(None) => Ok((Seq::empty(), false)),
            Ok(Some(bundle)) => Ok((bundle.origin, bundle.signer == UNSIGNED@)),
        },
    }
}

/// Install again one bundle that was kept, as it was installed, given what was
/// read of its copy.
///
/// The signature is checked again, so a key that was withdrawn stops a bundle that
/// this machine had already accepted.
pub fn restore(root: &str, name: &str, file: &Result<Vec<u8>, String>, state: &Found) -> (r: Result<
    Terms,
    String,
>)
    ensures
        restoring(root@, name@, *file, *state) == (match r {
            Ok(terms) => Ok((terms.origin@, terms.allow_unsigned)),
            Err(e) => Err(e@),
        }),
        r is Ok ==> r->Ok_0.persist,
{
    if let Err(e) = file {
        let mut m = "Cannot read the bundle kept in ".to_owned();
        m.append(path::join(root, kept_path(name, KEPT).as_str()).as_str());
        m.append(": ");
        m.append(e.as_str());
        return Err(m);
    }
    match kept_state(root, name, state) {
        Err(e) => Err(e),
        Ok(None) => {
            let origin = String::new();
            assert(origin@ =~= Seq::empty());
            Ok(Terms { origin, persist: true, allow_unsigned: false })
        },
        Ok(Some(bundle)) => {
            let allow_unsigned = text::equal(bundle.signer.as_str(), UNSIGNED);
            Ok(Terms { origin: bundle.origin, persist: true, allow_unsigned })
        },
    }
}

/// Outcomes and the names of their bundles, as plain values.
pub open spec fn accounts(s: Seq<(String, Result<Outcome, String>)>) -> Seq<
    (Seq<char>, Result<Account, Seq<char>>),
> {
    Seq::new(s.len(), |i: int| (s[i].0@, account(s[i].1)))
}

/// What came of an install, as plain values.
pub open spec fn account(r: Result<Outcome, String>) -> Result<Account, Seq<char>> {
    match r {
        Ok(o) => Ok(o@),
        Err(e) => Err(e@),
    }
}

/// A restore that is under way, as plain values: the bundles to put back, and what is
/// answered for those that had their turn.
pub struct Walk {
    pub names: Seq<Seq<char>>,
    pub answers: Seq<(Seq<char>, Result<Account, Seq<char>>)>,
}

/// A restore before its first turn.
pub open spec fn begun(names: Seq<Seq<char>>) -> Walk {
    Walk { names, answers: Seq::empty() }
}

/// A restore after one more turn, by what came of it.
pub open spec fn answered(w: Walk, outcome: Result<Account, Seq<char>>) -> Walk {
    Walk { answers: w.answers.push((w.names[w.answers.len() as int], outcome)), ..w }
}

/// A restore after several turns, by what came of each.
pub open spec fn answered_all(w: Walk, outcomes: Seq<Result<Account, Seq<char>>>) -> Walk
    decreases outcomes.len(),
{
    if outcomes.len() == 0 {
        w
    } else {
        answered(answered_all(w, outcomes.drop_last()), outcomes.last())
    }
}

/// A restore that is under way.
pub struct Recovery {
    names: Vec<String>,
    answers: Vec<(String, Result<Outcome, String>)>,
}

impl View for Recovery {
    type V = Walk;

    closed spec fn view(&self) -> Walk {
        Walk { names: text::texts(self.names@), answers: accounts(self.answers@) }
    }
}

impl Recovery {
    /// Whether each of the first bundles is answered for, by its name.
    pub open spec fn wf(&self) -> bool {
        &&& self@.answers.len() <= self@.names.len()
        &&& forall|i: int|
            0 <= i < self@.answers.len() ==> (#[trigger] self@.answers[i]).0 == self@.names[i]
    }

    /// Start a restore of the bundles that were kept and are not installed.
    pub fn start(root: &str, kept: &Result<Vec<String>, String>, installed: &Vec<String>) -> (r:
        Result<Self, String>)
        ensures
            match *kept {
                Err(e) => r is Err && r->Err_0@ == unreadable(
                    path::joined(root@, "var/lib/detc/bundles.d"@),
                    e@,
                ),
                Ok(kept) => {
                    &&& r is Ok
                    &&& r->Ok_0.wf()
                    &&& r->Ok_0@ == begun(r->Ok_0@.names)
                    &&& stands_out(text::texts(kept@), text::texts(installed@), r->Ok_0@.names)
                },
            },
    {
        match outstanding(root, kept, installed) {
            Err(e) => Err(e),
            Ok(names) => {
                let answers: Vec<(String, Result<Outcome, String>)> = Vec::new();
                assert(accounts(answers@) =~= Seq::empty());
                Ok(Recovery { names, answers })
            },
        }
    }

    /// The bundle that is to be put back next, when there is one.
    pub fn next(&self) -> (r: Option<&str>)
        requires
            self.wf(),
        ensures
            match r {
                Some(name) => self@.answers.len() < self@.names.len() && name@
                    == self@.names[self@.answers.len() as int],
                None => self@.answers.len() == self@.names.len(),
            },
    {
        assert(self@.names.len() == self.names@.len());
        let at: usize = self.answers.len();
        if at < self.names.len() {
            Some(self.names[at].as_str())
        } else {
            None
        }
    }

    /// Take down what came of the bundle whose turn it is.  One that could not be put
    /// back does not stop the others.
    pub fn answer(&mut self, outcome: Result<Outcome, String>)
        requires
            old(self).wf(),
            old(self)@.answers.len() < old(self)@.names.len(),
        ensures
            final(self).wf(),
            final(self)@ == answered(old(self)@, account(outcome)),
    {
        let ghost was = self@;
        assert(self@.names.len() == self.names@.len());
        let name = self.names[self.answers.len()].clone();
        assert(name@ == was.names[was.answers.len() as int]);
        self.answers.push((name, outcome));
        assert(accounts(self.answers@) =~= was.answers.push((name@, account(outcome))));
    }

    /// What is answered for the bundles that had their turn, each by its name.
    pub fn end(self) -> (r: Vec<(String, Result<Outcome, String>)>)
        ensures
            accounts(r@) == self@.answers,
    {
        self.answers
    }
}

/// Each bundle is answered for by its name, in the order of the names and once, by what
/// came of it and whatever came of the others.
pub proof fn law_each_bundle_is_answered_for_by_name(
    names: Seq<Seq<char>>,
    outcomes: Seq<Result<Account, Seq<char>>>,
)
    requires
        outcomes.len() <= names.len(),
    ensures
        answered_all(begun(names), outcomes) == (Walk {
            names,
            answers: Seq::new(outcomes.len(), |i: int| (names[i], outcomes[i])),
        }),
    decreases outcomes.len(),
{
    let want = Seq::new(outcomes.len(), |i: int| (names[i], outcomes[i]));
    if outcomes.len() > 0 {
        law_each_bundle_is_answered_for_by_name(names, outcomes.drop_last());
        assert(answered_all(begun(names), outcomes).answers =~= want);
    } else {
        assert(want =~= Seq::empty());
    }
}

/// What was found of a kept bundle when its turn to be put back came: its copy, the state
/// beside it, who may sign, what its manifest says, what the system holds, and the list
/// of what the bundle wrote.
pub struct Trial {
    pub file: Result<Vec<u8>, String>,
    pub state: Found,
    pub signers: Signers,
    pub read: Result<Identity, Seq<char>>,
    pub holdings: Seq<Holding>,
    pub list: Look,
}

/// The payload of a kept bundle, opened again to be installed as it was installed and to
/// be kept once more.
pub open spec fn reopened(root: Seq<char>, name: Seq<char>, t: Trial) -> Result<Load, Seq<char>> {
    match restoring(root, name, t.file, t.state) {
        Err(e) => Err(e),
        Ok((origin, allow_unsigned)) => match unpacked(t.signers, t.file->Ok_0@, allow_unsigned) {
            Err(e) => Err(e),
            Ok(p) => match opened(p, t.read) {
                Err(e) => Err(e),
                Ok(l) => Ok(
                    Load {
                        bundle: Identity { origin, persist: true, ..l.bundle },
                        files: l.files,
                    },
                ),
            },
        },
    }
}

/// What putting a kept bundle back comes to.
pub open spec fn reinstalling(root: Seq<char>, name: Seq<char>, t: Trial, dry_run: bool) -> Result<
    (Account, Seq<Job>),
    Seq<char>,
> {
    match reopened(root, name, t) {
        Err(e) => Err(e),
        Ok(l) => installing(root, l, t.holdings, t.list, dry_run),
    }
}

/// The bundles that states describe, those that are there.
pub open spec fn states_of(root: Seq<char>, kept: bool, states: Seq<(String, Found)>) -> Result<
    Seq<Identity>,
    Seq<char>,
>
    decreases states.len(),
{
    if states.len() == 0 {
        Ok(Seq::empty())
    } else {
        match states_of(root, kept, states.drop_last()) {
            Err(e) => Err(e),
            Ok(before) => {
                let (name, found) = states.last();
                match if kept {
                    kept_state_of(root, name@, found)
                } else {
                    installed_state_of(root, name@, found)
                } {
                    Err(e) => Err(e),
                    Ok(None) => Ok(before),
                    Ok(Some(bundle)) => Ok(before.push(bundle)),
                }
            },
        }
    }
}

/// Bundles, as plain values.
pub open spec fn identities(s: Seq<Bundle>) -> Seq<Identity> {
    Seq::new(s.len(), |i: int| s[i]@)
}

/// Bundles that were read.
pub open spec fn bundles_read(r: Result<Vec<Bundle>, String>) -> Result<Seq<Identity>, Seq<char>> {
    match r {
        Ok(s) => Ok(identities(s@)),
        Err(e) => Err(e@),
    }
}

proof fn lemma_states_stop(root: Seq<char>, kept: bool, states: Seq<(String, Found)>, i: int)
    requires
        0 <= i <= states.len(),
        states_of(root, kept, states.take(i)) is Err,
    ensures
        states_of(root, kept, states) == states_of(root, kept, states.take(i)),
    decreases states.len() - i,
{
    if i == states.len() {
        assert(states.take(i) =~= states);
    } else {
        assert(states.take(i + 1).drop_last() =~= states.take(i));
        lemma_states_stop(root, kept, states, i + 1);
    }
}

/// The bundles that states describe.
fn read_states(root: &str, kept: bool, states: &Vec<(String, Found)>) -> (r: Result<
    Vec<Bundle>,
    String,
>)
    ensures
        bundles_read(r) == states_of(root@, kept, states@),
{
    let ghost all = states@;
    let mut r: Vec<Bundle> = Vec::new();
    let n: usize = states.len();
    let mut i: usize = 0;
    assert(identities(r@) =~= Seq::empty());
    while i < n
        invariant
            i <= n == states@.len(),
            all == states@,
            states_of(root@, kept, all.take(i as int)) == Ok::<Seq<Identity>, Seq<char>>(
                identities(r@),
            ),
        decreases n - i,
    {
        proof {
            assert(all.take(i + 1).drop_last() =~= all.take(i as int));
            assert(all.take(i + 1).last() == states@[i as int]);
        }
        let state = if kept {
            kept_state(root, states[i].0.as_str(), &states[i].1)
        } else {
            installed_state(root, states[i].0.as_str(), &states[i].1)
        };
        match state {
            Err(e) => {
                proof {
                    lemma_states_stop(root@, kept, all, i + 1);
                }
                return Err(e);
            },
            Ok(None) => {},
            Ok(Some(bundle)) => {
                let ghost had = identities(r@);
                r.push(bundle);
                assert(identities(r@) =~= had.push(bundle@));
            },
        }
        i += 1;
    }
    assert(all.take(i as int) =~= all);
    Ok(r)
}

/// Every bundle that is installed, given the names of them and what was found of
/// their states.
///
/// The state is read from the content itself, so it cannot go stale: it goes away
/// with the tmpfs, which is exactly when the files it describes do.
pub fn installed(root: &str, states: &Vec<(String, Found)>) -> (r: Result<Vec<Bundle>, String>)
    ensures
        bundles_read(r) == states_of(root@, false, states@),
{
    read_states(root, false, states)
}

/// Every bundle that was kept, given the names of them and what was found of their
/// states.
pub fn kept(root: &str, states: &Vec<(String, Found)>) -> (r: Result<Vec<Bundle>, String>)
    ensures
        bundles_read(r) == states_of(root@, true, states@),
{
    read_states(root, true, states)
}

/// Whether a list is the bundles that were kept and are not installed, in the
/// order of their names.
pub open spec fn stands_out(
    kept: Seq<Seq<char>>,
    installed: Seq<Seq<char>>,
    names: Seq<Seq<char>>,
) -> bool {
    &&& text::ascending(names)
    &&& forall|name: Seq<char>| #[trigger]
        names.contains(name) <==> is_named_well(name) && kept.contains(name + KEPT@)
            && !installed.contains(name + STATE@)
}

/// The bundles that were kept and are not installed, in the order of their names,
/// given the names of the files in the directory of the kept copies and those of
/// the files in the directory of the installed states.
///
/// Which is what a machine is missing between the reboot that empties the tmpfs
/// and the restore that fills it again.
pub fn outstanding(root: &str, kept: &Result<Vec<String>, String>, installed: &Vec<String>) -> (r:
    Result<Vec<String>, String>)
    ensures
        match *kept {
            Err(e) => r is Err && r->Err_0@ == unreadable(
                path::joined(root@, "var/lib/detc/bundles.d"@),
                e@,
            ),
            Ok(kept) => r is Ok && stands_out(
                text::texts(kept@),
                text::texts(installed@),
                text::texts(r->Ok_0@),
            ),
        },
{
    let all = match names(path::join(root, kept_dir()).as_str(), kept, KEPT) {
        Ok(all) => all,
        Err(e) => {
            return Err(e);
        },
    };
    let ghost whole = text::texts(all@);
    let ghost there = text::texts(installed@);
    let mut r: Vec<String> = Vec::new();
    let n: usize = all.len();
    let mut i: usize = 0;
    assert(text::texts(r@) =~= Seq::empty());
    while i < n
        invariant
            i <= n == all@.len(),
            whole == text::texts(all@),
            there == text::texts(installed@),
            text::ascending(whole),
            text::ascending(text::texts(r@)),
            forall|a: int, j: int|
                0 <= a < r@.len() && i <= j < n ==> text::before(
                    #[trigger] text::texts(r@)[a],
                    #[trigger] whole[j],
                ),
            forall|name: Seq<char>| #[trigger]
                text::texts(r@).contains(name) <==> whole.take(i as int).contains(name)
                    && !there.contains(name + STATE@),
        decreases n - i,
    {
        let ghost had = text::texts(r@);
        let ghost name = whole[i as int];
        assert(name == all@[i as int]@);
        let mut file = all[i].clone();
        file.append(STATE);
        if !text::listed(installed, file.as_str()) {
            r.push(all[i].clone());
            assert(text::texts(r@) =~= had.push(name));
        }
        proof {
            let now = text::texts(r@);
            text::lemma_take_set(whole, i as int);
            assert forall|t: Seq<char>| #[trigger] now.contains(t) <==> whole.take(i + 1).contains(t)
                && !there.contains(t + STATE@) by {
                assert(whole.take(i + 1).contains(t) == whole.take(i + 1).to_set().contains(t));
                assert(whole.take(i as int).contains(t) == whole.take(i as int).to_set().contains(t));
                if now.contains(t) && t != name {
                    let j = choose|j: int| 0 <= j < now.len() && now[j] == t;
                    assert(had[j] == t);
                }
                if had.contains(t) {
                    let j = choose|j: int| 0 <= j < had.len() && had[j] == t;
                    assert(now[j] == t);
                }
                if t == name && !there.contains(t + STATE@) {
                    assert(now[now.len() - 1] == t);
                }
                if t == name && there.contains(t + STATE@) {
                    assert(now == had);
                }
            }
            assert forall|a: int, j: int| 0 <= a < now.len() && i + 1 <= j < n implies text::before(
                #[trigger] now[a],
                #[trigger] whole[j],
            ) by {
                if a < had.len() {
                    assert(now[a] == had[a]);
                } else {
                    assert(now[a] == name);
                }
            }
            assert forall|a: int, b: int| 0 <= a < b < now.len() implies text::before(
                #[trigger] now[a],
                #[trigger] now[b],
            ) by {
                assert(now[a] == had[a]);
                if b < had.len() {
                    assert(now[b] == had[b]);
                } else {
                    assert(now[b] == name);
                }
            }
        }
        i += 1;
    }
    assert(whole.take(i as int) =~= whole);
    proof {
        let now = text::texts(r@);
        assert forall|name: Seq<char>| #[trigger] now.contains(name) <==> is_named_well(name)
            && text::texts(kept->Ok_0@).contains(name + KEPT@) && !there.contains(name + STATE@) by {
            assert(whole.contains(name) == (is_named_well(name) && text::texts(
                kept->Ok_0@,
            ).contains(name + KEPT@)));
        }
    }
    Ok(r)
}

/// Whether one of the bundles that were kept is not installed, by the names of the files
/// in the two directories.
pub open spec fn wants_restore(kept: Seq<Seq<char>>, installed: Seq<Seq<char>>) -> bool {
    exists|name: Seq<char>|
        is_named_well(name) && #[trigger] kept.contains(name + KEPT@) && !installed.contains(
            name + STATE@,
        )
}

/// Whether there is anything to install again: something was kept, and it is not
/// installed.  Which is the machine after a reboot.
pub fn needs_restore(root: &str, kept: &Result<Vec<String>, String>, installed: &Vec<String>) -> (r:
    bool)
    ensures
        r == (kept is Ok && wants_restore(text::texts(kept->Ok_0@), text::texts(installed@))),
{
    match outstanding(root, kept, installed) {
        Err(_) => false,
        Ok(names) => {
            let ghost all = text::texts(names@);
            proof {
                if names@.len() > 0 {
                    assert(all.contains(all[0]));
                    assert(text::texts(kept->Ok_0@).contains(all[0] + KEPT@));
                }
                if wants_restore(text::texts(kept->Ok_0@), text::texts(installed@)) {
                    let name = choose|name: Seq<char>|
                        is_named_well(name) && #[trigger] text::texts(kept->Ok_0@).contains(
                            name + KEPT@,
                        ) && !text::texts(installed@).contains(name + STATE@);
                    assert(all.contains(name));
                }
            }
            names.len() > 0
        },
    }
}

/// A file of a source tree, by where it sits in the tree, and what was read of it.
pub struct Source {
    pub name: String,
    pub data: Result<Vec<u8>, String>,
}

/// The mode that a file of a source tree is carried with, if it is carried.  A
/// tree of the system that a bundle may not carry stops the build, where a file
/// that is simply in the wrong place is left behind.
pub open spec fn carried_mode(name: Seq<char>) -> Result<Option<u32>, Seq<char>> {
    match refusal_of(name) {
        Some(why) => Err(why),
        None => if name == MANIFEST@ {
            Ok(Some(DATA_MODE))
        } else {
            match placed(name) {
                Ok((_, mode)) => Ok(Some(mode)),
                Err(_) => Ok(None),
            }
        },
    }
}

/// The members that the files of a source tree make.
pub open spec fn collected(files: Seq<Source>) -> Result<Seq<Member>, Seq<char>>
    decreases files.len(),
{
    if files.len() == 0 {
        Ok(Seq::empty())
    } else {
        match collected(files.drop_last()) {
            Err(e) => Err(e),
            Ok(before) => match carried_mode(files.last().name@) {
                Err(e) => Err(e),
                Ok(None) => Ok(before),
                Ok(Some(mode)) => match files.last().data {
                    Err(e) => Err(e@),
                    Ok(data) => Ok(
                        before.push(Member { name: files.last().name@, mode, data: data@ }),
                    ),
                },
            },
        }
    }
}

proof fn lemma_collected_stops(files: Seq<Source>, i: int)
    requires
        0 <= i <= files.len(),
        collected(files.take(i)) is Err,
    ensures
        collected(files) == collected(files.take(i)),
    decreases files.len() - i,
{
    if i == files.len() {
        assert(files.take(i) =~= files);
    } else {
        assert(files.take(i + 1).drop_last() =~= files.take(i));
        lemma_collected_stops(files, i + 1);
    }
}

/// The mode that a file of a source tree is carried with, if it is carried.
pub fn member_mode(name: &str) -> (r: Result<Option<u32>, String>)
    ensures
        var::outcome(r) == carried_mode(name@),
{
    if let Some(why) = refused(name) {
        return Err(why);
    }
    if text::equal(name, MANIFEST) {
        return Ok(Some(DATA_MODE));
    }
    match place(name) {
        Ok((_, mode)) => Ok(Some(mode)),
        Err(_) => Ok(None),
    }
}

/// Take the files of a source tree that a bundle can carry.
pub fn collect(files: Vec<Source>) -> (r: Result<Vec<Entry>, String>)
    ensures
        tar::members_read(r) == collected(files@),
{
    let ghost all = files@;
    let mut r: Vec<Entry> = Vec::new();
    let n: usize = files.len();
    let mut i: usize = 0;
    assert(tar::members_of(r@) =~= Seq::empty());
    for file in it: files
        invariant
            i == it.index(),
            it.seq().len() == n,
            it.seq() == all,
            all == files@,
            collected(all.take(i as int)) == Ok::<Seq<Member>, Seq<char>>(tar::members_of(r@)),
    {
        proof {
            assert(all.take(i + 1).drop_last() =~= all.take(i as int));
            assert(all.take(i + 1).last() == file);
        }
        match member_mode(file.name.as_str()) {
            Err(e) => {
                proof {
                    lemma_collected_stops(all, i + 1);
                }
                return Err(e);
            },
            Ok(None) => {},
            Ok(Some(mode)) => match file.data {
                Err(e) => {
                    proof {
                        lemma_collected_stops(all, i + 1);
                    }
                    return Err(e);
                },
                Ok(data) => {
                    let ghost had = tar::members_of(r@);
                    let entry = Entry::new(file.name, mode, data);
                    r.push(entry);
                    assert(tar::members_of(r@) =~= had.push(entry@));
                },
            },
        }
        i += 1;
    }
    assert(all.take(i as int) =~= all);
    Ok(r)
}

impl Ranked for Entry {
    open spec fn precedes(self, other: Self) -> bool {
        text::before(self.name@, other.name@)
    }

    proof fn asymmetric(a: Self, b: Self) {
        text::lemma_before_asymmetric(a.name@, b.name@);
    }

    proof fn chained(a: Self, b: Self, c: Self) {
        if text::before(c.name@, a.name@) && a.name@ != b.name@ {
            text::lemma_before_total(a.name@, b.name@);
            text::lemma_before_transitive(c.name@, a.name@, b.name@);
        }
    }

    fn before(&self, other: &Self) -> bool {
        text::less(self.name.as_str(), other.name.as_str())
    }
}

/// The order that members are packed in.
pub open spec fn by_name() -> spec_fn(Member, Member) -> bool {
    |a: Member, b: Member| text::before(a.name, b.name)
}

/// A member, as plain values.
pub open spec fn as_member() -> spec_fn(Entry) -> Member {
    |e: Entry| e@
}

/// A bundle that was built.
pub open spec fn built(r: Result<(Bundle, Vec<u8>), String>) -> Result<
    (Identity, Seq<u8>),
    Seq<char>,
> {
    match r {
        Ok((bundle, file)) => Ok((bundle@, file@)),
        Err(e) => Err(e@),
    }
}

/// Whether this is how putting the two halves of a bundle together ends.
pub open spec fn joins(
    bundle: Identity,
    payload: Seq<u8>,
    signature: Option<Seq<u8>>,
    members: Seq<Member>,
    r: Result<(Identity, Seq<u8>), Seq<char>>,
) -> bool {
    match tar::packing_error(two_halves(payload, signature)) {
        Some(e) => r == Err::<(Identity, Seq<u8>), Seq<char>>(e),
        None => r matches Ok((b, file)) && b == bundle && bundles(file, payload, signature, members),
    }
}

/// Whether this is how closing a payload ends: unsigned without a key, and with
/// the signature that the key makes over the payload otherwise.
pub open spec fn closes(
    bundle: Identity,
    payload: Seq<u8>,
    key: Option<(String, Read)>,
    members: Seq<Member>,
    r: Result<(Identity, Seq<u8>), Seq<char>>,
) -> bool {
    match key {
        None => joins(bundle, payload, None, members, r),
        Some((path, body)) => match signers::signature_of(NAMESPACE@, payload, path@, body) {
            Err(e) => r == Err::<(Identity, Seq<u8>), Seq<char>>(e),
            Ok(signature) => {
                &&& signers::public_half(body) matches Some(public) && signers::signs(
                    signature,
                    public,
                    NAMESPACE@,
                    payload,
                )
                &&& joins(bundle, payload, Some(signature), members, r)
            },
        },
    }
}

/// Whether this is how packing members, in the order of their names, ends.
pub open spec fn packs(
    bundle: Identity,
    members: Seq<Member>,
    key: Option<(String, Read)>,
    r: Result<(Identity, Seq<u8>), Seq<char>>,
) -> bool {
    match tar::packing_error(members) {
        Some(e) => r == Err::<(Identity, Seq<u8>), Seq<char>>(e),
        None => exists|payload: Seq<u8>|
            #[trigger] tar::carries(payload, members) && closes(bundle, payload, key, members, r),
    }
}

/// Whether this is how building a bundle out of a source tree ends.
pub open spec fn creates(
    dir: Seq<char>,
    manifest: Read,
    read: Result<Identity, Seq<char>>,
    files: Seq<Source>,
    key: Option<(String, Read)>,
    r: Result<(Identity, Seq<u8>), Seq<char>>,
) -> bool {
    match said(manifest) {
        Err(e) => r == Err::<(Identity, Seq<u8>), Seq<char>>(
            unreadable(path::joined(dir, MANIFEST@), e),
        ),
        Ok(t) => match parsed(t, read) {
            Err(e) => r == Err::<(Identity, Seq<u8>), Seq<char>>(e),
            Ok(bundle) => match collected(files) {
                Err(e) => r == Err::<(Identity, Seq<u8>), Seq<char>>(e),
                Ok(members) => exists|sorted: Seq<Member>|
                    #[trigger] order::sorted_as(members, sorted, by_name()) && packs(
                        bundle,
                        sorted,
                        key,
                        r,
                    ),
            },
        },
    }
}

/// Put the two halves of a bundle together.
fn join(
    bundle: Bundle,
    payload: Vec<u8>,
    signature: Option<Vec<u8>>,
    Ghost(members): Ghost<Seq<Member>>,
) -> (r: Result<(Bundle, Vec<u8>), String>)
    requires
        tar::carries(payload@, members),
    ensures
        joins(bundle@, payload@, bytes_of(signature), members, built(r)),
{
    let ghost want = two_halves(payload@, bytes_of(signature));
    let mut halves: Vec<Entry> = Vec::new();
    halves.push(Entry::new(PAYLOAD.to_owned(), DATA_MODE, payload));
    if let Some(signature) = signature {
        halves.push(Entry::new(SIGNATURE.to_owned(), DATA_MODE, signature));
    }
    assert(tar::members_of(halves@) =~= want);
    match tar::write(halves.as_slice()) {
        Ok(file) => Ok((bundle, file)),
        Err(e) => Err(e),
    }
}

/// Build a bundle out of a source tree, and sign it when a key is given.
///
/// Only the trees that a bundle carries are taken.  The bytes are a function of
/// the names and the contents alone: no times, no identities, and the members
/// sorted.
pub fn create(
    dir: &str,
    manifest: &Read,
    read: Result<Bundle, String>,
    files: Vec<Source>,
    key: &Option<(String, Read)>,
) -> (r: Result<(Bundle, Vec<u8>), String>)
    ensures
        creates(dir@, *manifest, identified(read), files@, *key, built(r)),
{
    let t = match manifest {
        Ok(t) => t,
        Err(e) => {
            return Err(cannot_read(path::join(dir, MANIFEST).as_str(), e.as_str()));
        },
    };
    let bundle = match parse(t.as_str(), read) {
        Ok(bundle) => bundle,
        Err(e) => {
            return Err(e);
        },
    };
    let entries = match collect(files) {
        Ok(entries) => entries,
        Err(e) => {
            return Err(e);
        },
    };
    let ghost all = entries@;
    let entries = order::arrange(entries);
    let ghost sorted = tar::members_of(entries@);
    proof {
        order::lemma_arranged_views(all, entries@, as_member(), by_name());
        assert(all.map_values(as_member()) =~= tar::members_of(all));
        assert(entries@.map_values(as_member()) =~= sorted);
        assert(order::sorted_as(tar::members_of(all), sorted, by_name()));
    }
    let payload = match tar::write(entries.as_slice()) {
        Ok(payload) => payload,
        Err(e) => {
            let r = Err(e);
            assert(packs(bundle@, sorted, *key, built(r)));
            return r;
        },
    };
    let ghost packed = payload@;
    assert(tar::carries(packed, sorted));
    match key {
        None => join(bundle, payload, None, Ghost(sorted)),
        Some((path, body)) => {
            match signers::sign(NAMESPACE, payload.as_slice(), path.as_str(), body) {
                Ok(signature) => join(bundle, payload, Some(signature), Ghost(sorted)),
                Err(e) => Err(e),
            }
        },
    }
}

pub(crate) proof fn lemma_in_tree_at(name: Seq<char>, tree: Seq<char>, i: int)
    requires
        in_tree(name, tree),
        0 <= i < tree.len(),
    ensures
        i < name.len(),
        name[i] == tree[i],
{
    if name != tree {
        let below = tree + ".d/"@;
        assert(name.subrange(0, below.len() as int)[i] == below[i]);
    }
}

/// How the trees begin.
pub(crate) proof fn lemma_trees()
    ensures
        carried_trees().len() == 5,
        carried_trees()[0].0.len() > 10 && carried_trees()[0].0[0] == 'v'
            && carried_trees()[0].0[10] == 's',
        carried_trees()[1].0.len() > 0 && carried_trees()[1].0[0] == 't',
        carried_trees()[2].0.len() > 0 && carried_trees()[2].0[0] == 'r',
        carried_trees()[3].0.len() > 0 && carried_trees()[3].0[0] == 'p',
        carried_trees()[4].0.len() > 0 && carried_trees()[4].0[0] == 'p',
        tree_of(var::USER_VARIABLES_NAME@).len() > 10,
        tree_of(var::USER_VARIABLES_NAME@)[0] == 'v',
        tree_of(var::USER_VARIABLES_NAME@)[10] == 'u',
{
    reveal_strlit("detc/");
    reveal_strlit("detc/variables/system");
    reveal_strlit("detc/variables/user");
    reveal_strlit("detc/templates");
    reveal_strlit("detc/resources");
    reveal_strlit("detc/probes/");
    reveal_strlit("system");
    reveal_strlit("detc/providers");
    let prefix = "detc/"@;
    assert("detc/variables/system"@.subrange(0, 5) =~= prefix);
    assert("detc/variables/user"@.subrange(0, 5) =~= prefix);
    assert("detc/templates"@.subrange(0, 5) =~= prefix);
    assert("detc/resources"@.subrange(0, 5) =~= prefix);
    assert(("detc/probes/"@ + "system"@).subrange(0, 5) =~= prefix);
    assert("detc/providers"@.subrange(0, 5) =~= prefix);
}

pub(crate) proof fn lemma_tree_from(name: Seq<char>, n: nat)
    ensures
        tree_from(name, n) matches Some(code) ==> exists|i: int|
            n <= i < carried_trees().len() && in_tree(name, (#[trigger] carried_trees()[i]).0)
                && carried_trees()[i].1 == code,
        tree_from(name, n) is None ==> forall|i: int|
            n <= i < carried_trees().len() ==> !in_tree(name, (#[trigger] carried_trees()[i]).0),
    decreases carried_trees().len() - n,
{
    if n < carried_trees().len() && !in_tree(name, carried_trees()[n as int].0) {
        lemma_tree_from(name, n + 1);
    }
}

/// The variables of the administrator are nothing that a bundle carries: a payload
/// that holds one is refused, and a source tree that holds one is not built.
pub proof fn law_the_variables_of_the_administrator_are_not_carried(name: Seq<char>)
    requires
        in_tree(name, tree_of(var::USER_VARIABLES_NAME@)),
    ensures
        placed(name) is Err,
        carried_mode(name) is Err,
{
    let user = tree_of(var::USER_VARIABLES_NAME@);
    lemma_trees();
    lemma_in_tree_at(name, user, 0);
    lemma_in_tree_at(name, user, 10);
    assert forall|i: int| 0 <= i < carried_trees().len() implies !in_tree(
        name,
        (#[trigger] carried_trees()[i]).0,
    ) by {
        if in_tree(name, carried_trees()[i].0) {
            if i == 0 {
                lemma_in_tree_at(name, carried_trees()[i].0, 10);
            } else {
                lemma_in_tree_at(name, carried_trees()[i].0, 0);
            }
        }
    }
    lemma_tree_from(name, 0);
}

proof fn lemma_lands(base: Seq<char>, name: Seq<char>)
    requires
        base.len() > 0,
        base[0] != '/',
        base.last() != '/',
        name.len() > 0,
        name[0] != '/',
        name[0] != '.',
    ensures
        path::lies_in(path::joined(base, name), base),
        path::names(path::joined(base, name)) == path::names(base) + path::names(name),
{
    text::lemma_split_first(name, '/');
    path::lemma_names_joined(base, name);
    let all = path::names(base) + path::names(name);
    assert(all.take(path::names(base).len() as int) =~= path::names(base));
    assert((base + seq!['/'] + name)[0] == base[0]);
}

proof fn lemma_two_names(a: Seq<char>, b: Seq<char>)
    requires
        a.len() > 0,
        b.len() > 0,
        b[0] != '.',
        b[0] != '/',
        !a.contains('/'),
    ensures
        path::names(a + seq!['/'] + b) == seq![a] + path::names(b),
{
    text::lemma_split_first(b, '/');
    path::lemma_names_joined(a, b);
    path::lemma_one_name(a);
}

/// The directory of the installed states.
pub open spec fn state_dir() -> Seq<Seq<char>> {
    seq!["run"@, "detc"@, "bundles.d"@]
}

/// The directory of the kept copies.
pub open spec fn copy_dir() -> Seq<Seq<char>> {
    seq!["var"@, "lib"@, "detc"@, "bundles.d"@]
}

pub(crate) proof fn lemma_bases()
    ensures
        path::names("run/detc"@) == seq!["run"@, "detc"@],
        path::names("run/lib/detc"@) == seq!["run"@, "lib"@, "detc"@],
        path::names("run/detc/bundles.d"@) == state_dir(),
        path::names("var/lib/detc/bundles.d"@) == copy_dir(),
        "run"@ != ".."@,
        "lib"@ != ".."@,
        "detc"@ != ".."@,
        "var"@ != ".."@,
        "bundles.d"@ != ".."@,
        "detc"@ != "lib"@,
        "run"@ != "var"@,
{
    reveal_strlit("run");
    reveal_strlit("lib");
    reveal_strlit("detc");
    reveal_strlit("var");
    reveal_strlit("bundles.d");
    reveal_strlit("..");
    reveal_strlit("run/detc");
    reveal_strlit("run/lib/detc");
    reveal_strlit("run/detc/bundles.d");
    reveal_strlit("var/lib/detc/bundles.d");
    let lib = "lib"@ + seq!['/'] + "detc"@;
    let run = "detc"@ + seq!['/'] + "bundles.d"@;
    let var = "lib"@ + seq!['/'] + run;
    path::lemma_one_name("detc"@);
    path::lemma_one_name("bundles.d"@);
    lemma_two_names("run"@, "detc"@);
    lemma_two_names("lib"@, "detc"@);
    lemma_two_names("run"@, lib);
    lemma_two_names("detc"@, "bundles.d"@);
    lemma_two_names("run"@, run);
    lemma_two_names("lib"@, run);
    lemma_two_names("var"@, var);
    assert("run"@ + seq!['/'] + "detc"@ =~= "run/detc"@);
    assert("run"@ + seq!['/'] + lib =~= "run/lib/detc"@);
    assert("run"@ + seq!['/'] + run =~= "run/detc/bundles.d"@);
    assert("var"@ + seq!['/'] + var =~= "var/lib/detc/bundles.d"@);
    assert(seq!["run"@] + seq!["detc"@] =~= seq!["run"@, "detc"@]);
    assert(seq!["run"@] + (seq!["lib"@] + seq!["detc"@]) =~= seq!["run"@, "lib"@, "detc"@]);
    assert(seq!["run"@] + (seq!["detc"@] + seq!["bundles.d"@]) =~= state_dir());
    assert(seq!["var"@] + (seq!["lib"@] + (seq!["detc"@] + seq!["bundles.d"@])) =~= copy_dir());
    assert("run"@[0] == 'r' && "var"@[0] == 'v' && "lib"@[0] == 'l' && "detc"@[0] == 'd'
        && "bundles.d"@[0] == 'b' && ".."@[0] == '.');
}

/// A member that a bundle can carry lands in one of the two trees that a bundle
/// installs into: the programs in the one of the executables, and everything else
/// in the one of the data, each with the mode that goes with it.
pub proof fn law_a_member_lands_in_its_tree(name: Seq<char>)
    requires
        placed(name) is Ok,
        !path::climbs(name),
    ensures
        placed(name) matches Ok((path, mode)) && is_ours(path) && {
            ||| mode == DATA_MODE && path::lies_in(path, "run/detc"@)
            ||| mode == EXEC_MODE && path::lies_in(path, "run/lib/detc"@)
        },
{
    lemma_placed(name);
}

pub(crate) proof fn lemma_placed(name: Seq<char>)
    requires
        placed(name) is Ok,
    ensures
        placed(name) matches Ok((path, mode)) && {
            ||| mode == DATA_MODE && path::lies_in(path, "run/detc"@) && path::names(path) == seq![
                "run"@,
                "detc"@,
            ] + path::names(name)
            ||| mode == EXEC_MODE && path::lies_in(path, "run/lib/detc"@) && path::names(path)
                == seq!["run"@, "lib"@, "detc"@] + path::names(name)
        },
        !path::climbs(name) ==> is_ours(placed(name)->Ok_0.0),
{
    lemma_trees();
    lemma_tree_from(name, 0);
    let i = choose|i: int|
        0 <= i < carried_trees().len() && in_tree(name, (#[trigger] carried_trees()[i]).0);
    lemma_in_tree_at(name, carried_trees()[i].0, 0);
    reveal_strlit("run/detc");
    reveal_strlit("run/lib/detc");
    lemma_lands("run/detc"@, name);
    lemma_lands("run/lib/detc"@, name);
    lemma_bases();
    let all = path::names(placed(name)->Ok_0.0);
    if all.contains(".."@) {
        let j = choose|j: int| 0 <= j < all.len() && all[j] == ".."@;
        let n = all.len() - path::names(name).len();
        assert(path::names(name)[j - n] == ".."@);
    }
}

/// An install takes nothing away that it wants, takes away everything else that
/// the version before it wrote, and does so after it has written its files.
pub proof fn law_what_both_versions_carry_is_never_missing(l: Load, previous: Seq<Seq<char>>)
    ensures
        forall|i: int|
            0 <= i < install_jobs(l, previous).len() && (#[trigger] install_jobs(
                l,
                previous,
            )[i]) is Unlink ==> l.files.len() <= i && !path::holds_route(
                wanted_of(l),
                install_jobs(l, previous)[i]->Unlink_path,
            ),
        forall|i: int|
            0 <= i < l.files.len() ==> (#[trigger] install_jobs(l, previous)[i]) == (Job::Write {
                path: l.files[i].path,
                mode: l.files[i].mode,
                data: l.files[i].data,
            }),
        forall|j: int|
            0 <= j < previous.len() && !path::holds_route(wanted_of(l), #[trigger] previous[j])
                ==> install_jobs(l, previous).contains(
                Job::Unlink { path: previous[j], dirs: dirs_behind(previous[j]) },
            ),
{
    let wanted = wanted_of(l);
    let stale = path::without_paths(previous, wanted);
    let all = install_jobs(l, previous);
    path::lemma_without_paths(previous, wanted);
    let n = l.files.len() as int;
    let m = stale.len() as int;
    assert forall|i: int| 0 <= i < all.len() && (#[trigger] all[i]) is Unlink implies n <= i
        && !path::holds_route(wanted, all[i]->Unlink_path) by {
        if i < n {
            assert(all[i] == writes(l.files)[i]);
        } else if i < n + m {
            assert(all[i] == unlinks(stale)[i - n]);
            assert(all[i]->Unlink_path == stale[i - n]);
        }
    }
    assert forall|i: int| 0 <= i < l.files.len() implies (#[trigger] all[i]) == (Job::Write {
        path: l.files[i].path,
        mode: l.files[i].mode,
        data: l.files[i].data,
    }) by {
        assert(all[i] == writes(l.files)[i]);
    }
    assert forall|j: int|
        0 <= j < previous.len() && !path::holds_route(wanted, #[trigger] previous[j]) implies all.contains(
        Job::Unlink { path: previous[j], dirs: dirs_behind(previous[j]) },
    ) by {
        let k = choose|k: int| 0 <= k < stale.len() && stale[k] == previous[j];
        assert(all[n + k] == unlinks(stale)[k]);
    }
}

proof fn lemma_ours_is_not_blank(p: Seq<char>)
    requires
        is_ours(p),
    ensures
        text::trim(p).len() > 0,
{
    if text::trim(p).len() == 0 {
        text::lemma_trimmed_away(p);
        assert(!p.contains('/')) by {
            if p.contains('/') {
                let i = choose|i: int| 0 <= i < p.len() && p[i] == '/';
                assert(text::is_space(p[i]));
            }
        }
        text::lemma_split_whole(p, '/');
        assert(path::names_of(seq![p], 0) =~= Seq::empty());
        reveal_with_fuel(path::names_of, 2);
        reveal_strlit("run/detc");
        reveal_strlit("run/lib/detc");
        let run = seq!['r', 'u', 'n'];
        let one = seq!['d', 'e', 't', 'c'];
        let two = seq!['l', 'i', 'b', '/', 'd', 'e', 't', 'c'];
        assert("run/detc"@ =~= run + seq!['/'] + one);
        assert("run/lib/detc"@ =~= run + seq!['/'] + two);
        text::lemma_split_first(one, '/');
        text::lemma_split_first(two, '/');
        path::lemma_names_joined(run, one);
        path::lemma_names_joined(run, two);
        text::lemma_split_whole(run, '/');
        assert(path::names_of(seq![run], 0) =~= Seq::empty());
        assert(path::names(run) =~= seq![run]);
        assert(path::names("run/detc"@)[0] == run);
        assert(path::names("run/lib/detc"@)[0] == run);
        assert(path::names(p)[0] == run) by {
            if path::lies_in(p, "run/detc"@) {
                let b = path::names("run/detc"@);
                assert(path::names(p).take(b.len() as int)[0] == b[0]);
            } else {
                let b = path::names("run/lib/detc"@);
                assert(path::names(p).take(b.len() as int)[0] == b[0]);
            }
        }
        assert(p[0] == 'r');
        assert(text::is_space(p[0]));
    }
}

proof fn lemma_our_lines_whole(lines: Seq<Seq<char>>)
    requires
        forall|i: int| 0 <= i < lines.len() ==> is_ours(#[trigger] lines[i]),
    ensures
        our_lines(lines) == lines,
    decreases lines.len(),
{
    if lines.len() > 0 {
        let less = lines.drop_last();
        assert forall|i: int| 0 <= i < less.len() implies is_ours(#[trigger] less[i]) by {
            assert(less[i] == lines[i]);
        }
        lemma_our_lines_whole(less);
        assert(is_ours(lines[lines.len() - 1]));
        lemma_ours_is_not_blank(lines.last());
        assert(less.push(lines.last()) =~= lines);
    }
}

proof fn lemma_listing_read_back(paths: Seq<Seq<char>>)
    requires
        path::in_path_order(paths),
        forall|i: int|
            0 <= i < paths.len() ==> is_ours(#[trigger] paths[i]) && text::is_line(paths[i]),
    ensures
        paths_in(listing_of(paths)) == paths,
{
    text::lemma_ended_lines(paths);
    lemma_our_lines_whole(paths);
    path::lemma_path_set_whole(paths);
}

pub(crate) proof fn lemma_file_in(base: Seq<char>, file: Seq<char>)
    requires
        file.len() > 0,
        file[0] != '.',
        !file.contains('/'),
    ensures
        path::names(base + seq!['/'] + file) == path::names(base).push(file),
{
    text::lemma_split_whole(file, '/');
    assert(file != seq!['.']);
    path::lemma_names_joined(base, file);
    path::lemma_one_name(file);
    assert(path::names(base) + seq![file] =~= path::names(base).push(file));
}

pub(crate) proof fn lemma_file_name(name: Seq<char>, suffix: Seq<char>)
    requires
        is_named_well(name),
        suffix == STATE@ || suffix == FILES@ || suffix == KEPT@,
    ensures
        (name + suffix).len() > 0,
        (name + suffix)[0] != '.',
        !(name + suffix).contains('/'),
        !(name + suffix).contains('\n'),
        (name + suffix).last() != '\r',
        name + suffix != ".."@,
{
    reveal_strlit(".yaml");
    reveal_strlit(".files");
    reveal_strlit(".detc");
    reveal_strlit("..");
    let file = name + suffix;
    assert(file[0] == name[0]);
    assert forall|i: int| 0 <= i < file.len() implies file[i] != '/' && file[i] != '\n' by {
        if i < name.len() {
            assert(name_char(name[i]));
        } else {
            assert(file[i] == suffix[i - name.len()]);
        }
    }
    assert(file.last() == suffix.last());
    assert(".."@[0] == '.');
}

/// The state and the list of a bundle lie in the directory of the states, each
/// under the name of the bundle.
pub(crate) proof fn lemma_state_path(name: Seq<char>, suffix: Seq<char>)
    requires
        is_named_well(name),
        suffix == STATE@ || suffix == FILES@,
    ensures
        is_ours(installed_path_of(name, suffix)),
        text::is_line(installed_path_of(name, suffix)),
        path::names(installed_path_of(name, suffix)) == state_dir().push(name + suffix),
{
    let file = name + suffix;
    let p = installed_path_of(name, suffix);
    lemma_bases();
    lemma_file_name(name, suffix);
    reveal_strlit("run/detc/bundles.d");
    reveal_strlit("run/detc");
    let base = "run/detc/bundles.d"@;
    assert(p =~= base + seq!['/'] + file);
    lemma_file_in(base, file);
    let all = path::names(p);
    assert(all.take(2) =~= seq!["run"@, "detc"@]);
    assert(p[0] == 'r');
    assert(!path::climbs(p)) by {
        if all.contains(".."@) {
            let j = choose|j: int| 0 <= j < all.len() && all[j] == ".."@;
            assert(j < 3 ==> all[j] == state_dir()[j]);
        }
    }
    assert forall|i: int| 0 <= i < p.len() implies p[i] != '\n' by {
        if i < base.len() {
            assert(p[i] == base[i]);
        } else if i > base.len() {
            assert(p[i] == file[i - base.len() - 1]);
        }
    }
    assert(p.last() == file.last());
}

/// The list that an install writes is read back as the paths that it wrote, so
/// that taking the bundle away takes away every one of them.
///
/// A path that holds a line feed, or that ends in a carriage return, cannot stand
/// on a line.
pub proof fn law_what_was_written_is_what_is_recorded(l: Load)
    requires
        is_named_well(l.bundle.name),
        forall|i: int|
            0 <= i < l.files.len() ==> is_ours((#[trigger] l.files[i]).path) && text::is_line(
                l.files[i].path,
            ),
    ensures
        paths_in(listing_of(wanted_of(l))) == wanted_of(l),
        forall|i: int|
            0 <= i < l.files.len() ==> path::holds_route(
                wanted_of(l),
                (#[trigger] l.files[i]).path,
            ),
{
    let own = paths_of(l.files);
    let a = path::path_set(own);
    let state = installed_path_of(l.bundle.name, STATE@);
    let list = installed_path_of(l.bundle.name, FILES@);
    let b = path::with_path(a, state);
    let c = path::with_path(b, list);
    path::lemma_path_set(own, state);
    path::lemma_path_set_from(own);
    path::lemma_with_path_ordered(a, state);
    path::lemma_with_path_from(a, state);
    path::lemma_with_path_ordered(b, list);
    path::lemma_with_path_from(b, list);
    lemma_state_path(l.bundle.name, STATE@);
    lemma_state_path(l.bundle.name, FILES@);
    assert forall|i: int| 0 <= i < a.len() implies is_ours(#[trigger] a[i]) && text::is_line(a[i]) by {
        let j = choose|j: int| 0 <= j < own.len() && own[j] == a[i];
        assert(own[j] == l.files[j].path);
    }
    assert forall|i: int| 0 <= i < b.len() implies is_ours(#[trigger] b[i]) && text::is_line(b[i]) by {
        if b[i] != state {
            let j = choose|j: int| 0 <= j < a.len() && a[j] == b[i];
        }
    }
    assert forall|i: int| 0 <= i < c.len() implies is_ours(#[trigger] c[i]) && text::is_line(c[i]) by {
        if c[i] != list {
            let j = choose|j: int| 0 <= j < b.len() && b[j] == c[i];
        }
    }
    lemma_listing_read_back(c);
    assert forall|i: int| 0 <= i < l.files.len() implies path::holds_route(
        c,
        (#[trigger] l.files[i]).path,
    ) by {
        let p = l.files[i].path;
        assert(own[i] == p);
        path::lemma_path_set(own, p);
        path::lemma_with_path_holds(a, state, p);
        path::lemma_with_path_holds(b, list, p);
    }
}

/// Whether the names of members are all different.
pub open spec fn named_apart(s: Seq<Member>) -> bool {
    forall|i: int, j: int| 0 <= i < j < s.len() ==> (#[trigger] s[i]).name != (#[trigger] s[j]).name
}

/// The names of members.
pub open spec fn names_in(s: Seq<Member>) -> Seq<Seq<char>> {
    Seq::new(s.len(), |i: int| s[i].name)
}

proof fn lemma_sorted_names(a: Seq<Member>, x: Seq<Member>)
    requires
        named_apart(a),
        order::sorted_as(a, x, by_name()),
    ensures
        text::ascending(names_in(x)),
        x.to_set() == a.to_set(),
        x.len() == a.len(),
{
    let (from, to) = choose|from: Seq<int>, to: Seq<int>| order::sorts(a, x, by_name(), from, to);
    assert forall|p: int, q: int| 0 <= p < q < x.len() implies text::before(
        #[trigger] names_in(x)[p],
        #[trigger] names_in(x)[q],
    ) by {
        assert(from[p] != from[q]);
        assert(x[p] == a[from[p]] && x[q] == a[from[q]]);
        assert(x[p].name != x[q].name) by {
            if from[p] < from[q] {
                assert(a[from[p]].name != a[from[q]].name);
            } else {
                assert(a[from[q]].name != a[from[p]].name);
            }
        }
        assert(!by_name()(x[q], x[p]));
        text::lemma_before_total(x[p].name, x[q].name);
    }
    assert forall|m: Member| x.to_set().contains(m) == a.to_set().contains(m) by {
        if x.contains(m) {
            let p = choose|p: int| 0 <= p < x.len() && x[p] == m;
            assert(x[p] == a[from[p]]);
        }
        if a.contains(m) {
            let i = choose|i: int| 0 <= i < a.len() && a[i] == m;
            assert(from[to[i]] == i);
            assert(x[to[i]] == a[from[to[i]]]);
        }
    }
    assert(x.to_set() =~= a.to_set());
}

/// A tree is packed in one way, in whichever order its files were walked: what is
/// packed is the same members in the same order, and so the same bytes.
pub proof fn law_a_tree_is_packed_in_one_way(
    a: Seq<Member>,
    b: Seq<Member>,
    x: Seq<Member>,
    y: Seq<Member>,
)
    requires
        named_apart(a),
        named_apart(b),
        a.to_set() == b.to_set(),
        order::sorted_as(a, x, by_name()),
        order::sorted_as(b, y, by_name()),
    ensures
        x == y,
        tar::archive_of(x) == tar::archive_of(y),
{
    lemma_sorted_names(a, x);
    lemma_sorted_names(b, y);
    let p = names_in(x);
    let q = names_in(y);
    assert forall|n: Seq<char>| p.to_set().contains(n) == q.to_set().contains(n) by {
        if p.contains(n) {
            let i = choose|i: int| 0 <= i < p.len() && p[i] == n;
            assert(x.to_set().contains(x[i]));
            assert(y.contains(x[i]));
            let j = choose|j: int| 0 <= j < y.len() && y[j] == x[i];
            assert(q[j] == n);
        }
        if q.contains(n) {
            let i = choose|i: int| 0 <= i < q.len() && q[i] == n;
            assert(y.to_set().contains(y[i]));
            assert(x.contains(y[i]));
            let j = choose|j: int| 0 <= j < x.len() && x[j] == y[i];
            assert(p[j] == n);
        }
    }
    assert(p.to_set() =~= q.to_set());
    text::lemma_listing(p);
    text::lemma_listing(q);
    assert(p == q);
    assert(x.len() == p.len() && y.len() == q.len());
    assert forall|i: int| 0 <= i < x.len() implies x[i] == y[i] by {
        assert(p[i] == q[i]);
        assert(y.to_set().contains(y[i]));
        assert(x.contains(y[i]));
        let j = choose|j: int| 0 <= j < x.len() && x[j] == y[i];
        assert(p[j] == q[i]);
        if j < i {
            assert(text::before(p[j], p[i]));
            text::lemma_before_irreflexive(p[i]);
        } else if i < j {
            assert(text::before(p[i], p[j]));
            text::lemma_before_irreflexive(p[i]);
        }
    }
    assert(x =~= y);
}

/// Whether a member is one that a payload may hold: the manifest, or one that lands
/// somewhere.
spec fn has_a_place(m: Member) -> bool {
    m.name == MANIFEST@ || placed(m.name) is Ok
}

proof fn lemma_collected_lands(files: Seq<Source>)
    requires
        collected(files) is Ok,
    ensures
        forall|i: int|
            0 <= i < collected(files)->Ok_0.len() ==> has_a_place(
                #[trigger] collected(files)->Ok_0[i],
            ),
    decreases files.len(),
{
    if files.len() > 0 {
        lemma_collected_lands(files.drop_last());
        let before = collected(files.drop_last())->Ok_0;
        let all = collected(files)->Ok_0;
        assert forall|i: int| 0 <= i < all.len() implies has_a_place(#[trigger] all[i]) by {
            if i < before.len() {
                assert(all[i] == before[i]);
            }
        }
    }
}

proof fn lemma_laid_out_whole(members: Seq<Member>)
    requires
        named_apart(members),
        forall|i: int| 0 <= i < members.len() ==> has_a_place(#[trigger] members[i]),
    ensures
        laid_out(members) matches Ok((manifest, files)) && {
            &&& forall|i: int|
                0 <= i < members.len() && (#[trigger] members[i]).name == MANIFEST@ ==> manifest
                    == Some(members[i].data) && files.len() + 1 == members.len()
            &&& manifest is None ==> files.len() == members.len()
        },
        laid_out(members)->Ok_0.0 is None ==> forall|i: int|
            0 <= i < members.len() ==> (#[trigger] members[i]).name != MANIFEST@,
    decreases members.len(),
{
    if members.len() > 0 {
        let less = members.drop_last();
        let last = members.last();
        assert forall|i: int, j: int| 0 <= i < j < less.len() implies (#[trigger] less[i]).name != (
        #[trigger] less[j]).name by {
            assert(less[i] == members[i] && less[j] == members[j]);
        }
        assert forall|i: int| 0 <= i < less.len() implies has_a_place(#[trigger] less[i]) by {
            assert(less[i] == members[i]);
        }
        lemma_laid_out_whole(less);
        assert(has_a_place(members[members.len() - 1]));
        assert(!seen_before(members, members.len() - 1, last.name)) by {
            if seen_before(members, members.len() - 1, last.name) {
                let j = choose|j: int|
                    0 <= j < members.len() - 1 && j < members.len() && (#[trigger] members[j]).name
                        == last.name;
                assert(members[j].name != members[members.len() - 1].name);
            }
        }
        let (manifest, files) = laid_out(less)->Ok_0;
        if last.name == MANIFEST@ {
            assert forall|j: int| 0 <= j < less.len() implies (#[trigger] less[j]).name
                != MANIFEST@ by {
                assert(members[j].name != members[members.len() - 1].name);
            }
            assert(manifest is None) by {
                lemma_manifest_from(less);
            }
        }
        assert forall|i: int| 0 <= i < members.len() && (#[trigger] members[i]).name == MANIFEST@ implies laid_out(
            members,
        )->Ok_0.0 == Some(members[i].data) && laid_out(members)->Ok_0.1.len() + 1
            == members.len() by {
            if i < less.len() {
                assert(less[i] == members[i]);
                assert(last.name != MANIFEST@);
            }
        }
        if laid_out(members)->Ok_0.0 is None {
            assert forall|i: int| 0 <= i < members.len() implies (#[trigger] members[i]).name
                != MANIFEST@ by {
                if i < less.len() {
                    assert(less[i] == members[i]);
                }
            }
        }
    }
}

proof fn lemma_manifest_from(members: Seq<Member>)
    requires
        laid_out(members) is Ok,
        forall|i: int| 0 <= i < members.len() ==> (#[trigger] members[i]).name != MANIFEST@,
    ensures
        laid_out(members)->Ok_0.0 is None,
    decreases members.len(),
{
    if members.len() > 0 {
        assert(members[members.len() - 1].name != MANIFEST@);
        assert forall|i: int| 0 <= i < members.drop_last().len() implies (
        #[trigger] members.drop_last()[i]).name != MANIFEST@ by {
            assert(members.drop_last()[i] == members[i]);
        }
        lemma_manifest_from(members.drop_last());
    }
}

/// What was built out of a tree can be opened: every file that was taken is one that a
/// system lays down, and the manifest of the tree is what says what the bundle is.
pub proof fn law_what_was_built_can_be_opened(
    files: Seq<Source>,
    sorted: Seq<Member>,
    manifest: Seq<u8>,
    signer: Seq<char>,
)
    requires
        collected(files) is Ok,
        named_apart(collected(files)->Ok_0),
        order::sorted_as(collected(files)->Ok_0, sorted, by_name()),
        collected(files)->Ok_0.contains(
            Member { name: MANIFEST@, mode: DATA_MODE, data: manifest },
        ),
        text::decoded(manifest) is Some,
    ensures
        gathered(signer, sorted) matches Ok(p) && {
            &&& p.signer == signer
            &&& Some(p.manifest) == text::decoded(manifest)
            &&& p.files.len() + 1 == sorted.len()
        },
{
    let all = collected(files)->Ok_0;
    lemma_collected_lands(files);
    lemma_sorted_names(all, sorted);
    assert forall|i: int| 0 <= i < sorted.len() implies has_a_place(#[trigger] sorted[i]) by {
        assert(sorted.to_set().contains(sorted[i]));
        assert(all.contains(sorted[i]));
        let k = choose|k: int| 0 <= k < all.len() && all[k] == sorted[i];
        assert(has_a_place(all[k]));
    }
    assert forall|i: int, j: int| 0 <= i < j < sorted.len() implies (#[trigger] sorted[i]).name != (
    #[trigger] sorted[j]).name by {
        assert(text::before(names_in(sorted)[i], names_in(sorted)[j]));
        text::lemma_before_irreflexive(sorted[i].name);
    }
    lemma_laid_out_whole(sorted);
    let m = Member { name: MANIFEST@, mode: DATA_MODE, data: manifest };
    assert(all.to_set().contains(m));
    assert(sorted.contains(m));
    let k = choose|k: int| 0 <= k < sorted.len() && sorted[k] == m;
    assert(sorted[k].name == MANIFEST@);
}

/// A bundle that a key signed is taken by every system that allows the key, and is
/// known to be from whoever the system vouches for the key as.
pub proof fn law_a_signed_bundle_is_taken_where_its_key_is_allowed(
    signers: Signers,
    payload: Seq<u8>,
    signature: Seq<u8>,
    key: Seq<u8>,
    allow_unsigned: bool,
)
    requires
        signers::signs(signature, key, NAMESPACE@, payload),
        signers::allowed(signers) matches Ok(keys) && signers::vouching(keys, key) is Some,
    ensures
        signer_for(signers, payload, Some(signature), allow_unsigned) == Ok::<Seq<char>, Seq<char>>(
            signers::vouching(signers::allowed(signers)->Ok_0, key)->Some_0,
        ),
{
    signers::law_a_signature_is_taken(signers, NAMESPACE@, payload, signature, key);
}

/// Whether no path is claimed twice.
pub open spec fn apart(c: Seq<Seq<Seq<char>>>) -> bool {
    forall|i: int, j: int, path: Seq<char>|
        0 <= i < c.len() && 0 <= j < c.len() && #[trigger] path::holds_route(c[i], path)
            && #[trigger] path::holds_route(c[j], path) ==> i == j
}

/// A path is of one bundle: where no path is claimed twice, an install that is not
/// refused wants none that a bundle of another name claims, so that none is
/// claimed twice afterwards either.
pub proof fn law_a_path_is_of_one_bundle(
    root: Seq<char>,
    l: Load,
    holdings: Seq<Holding>,
    list: Look,
    dry_run: bool,
    i: int,
    path: Seq<char>,
)
    requires
        installing(root, l, holdings, list, dry_run) is Ok,
        apart(claims(root, holdings)->Ok_0),
        0 <= i < holdings.len(),
        holdings[i].name@ != l.bundle.name,
        wanted_of(l).contains(path),
    ensures
        claims(root, holdings) matches Ok(c) && !path::holds_route(c[i], path),
{
    let c = claims(root, holdings)->Ok_0;
    let why = clashes(root, l.bundle.name, holdings, c);
    lemma_claims_len(root, holdings);
    lemma_claimant(c, path);
    lemma_no_complaint(wanted_of(l), why, path);
    assert(why(path) is None);
    if path::holds_route(c[i], path) {
        let j = claimant(c, path)->Some_0;
        assert(path::holds_route(c[j], path));
        assert(i == j);
    }
}

pub(crate) proof fn lemma_no_complaint(
    names: Seq<Seq<char>>,
    why: spec_fn(Seq<char>) -> Option<Seq<char>>,
    name: Seq<char>,
)
    requires
        text::first_of(names, why) is None,
        names.contains(name),
    ensures
        why(name) is None,
    decreases names.len(),
{
    let i = choose|i: int| 0 <= i < names.len() && names[i] == name;
    if i < names.len() - 1 {
        assert(names.drop_last()[i] == name);
        lemma_no_complaint(names.drop_last(), why, name);
    }
}

/// The trees that a bundle carries are five: three of data and two of
/// programs.
pub proof fn law_a_bundle_carries_five_trees()
    ensures
        carried_trees() == seq![
            ("variables/system"@, false),
            ("templates"@, false),
            ("resources"@, false),
            ("probes/system"@, true),
            ("providers"@, true),
        ],
        tree_of(var::USER_VARIABLES_NAME@) == "variables/user"@,
        DATA_MODE == 0o644,
        EXEC_MODE == 0o755,
{
    reveal_strlit("detc/");
    reveal_strlit("detc/variables/system");
    reveal_strlit("detc/variables/user");
    reveal_strlit("detc/templates");
    reveal_strlit("detc/resources");
    reveal_strlit("detc/probes/");
    reveal_strlit("system");
    reveal_strlit("detc/providers");
    reveal_strlit("variables/system");
    reveal_strlit("variables/user");
    reveal_strlit("templates");
    reveal_strlit("resources");
    reveal_strlit("probes/system");
    reveal_strlit("providers");
    let prefix = "detc/"@;
    let probes = "detc/probes/"@ + "system"@;
    assert("detc/variables/system"@.subrange(0, 5) =~= prefix);
    assert("detc/variables/user"@.subrange(0, 5) =~= prefix);
    assert("detc/templates"@.subrange(0, 5) =~= prefix);
    assert("detc/resources"@.subrange(0, 5) =~= prefix);
    assert(probes.subrange(0, 5) =~= prefix);
    assert("detc/providers"@.subrange(0, 5) =~= prefix);
    assert(tree_of("detc/variables/system"@) =~= "variables/system"@);
    assert(tree_of("detc/variables/user"@) =~= "variables/user"@);
    assert(tree_of("detc/templates"@) =~= "templates"@);
    assert(tree_of("detc/resources"@) =~= "resources"@);
    assert(tree_of(probes) =~= "probes/system"@);
    assert(tree_of("detc/providers"@) =~= "providers"@);
    assert(carried_trees() =~= seq![
        ("variables/system"@, false),
        ("templates"@, false),
        ("resources"@, false),
        ("probes/system"@, true),
        ("providers"@, true),
    ]);
}

proof fn lemma_in_one_tree(name: Seq<char>, k: int)
    requires
        0 <= k < 5,
        in_tree(name, carried_trees()[k].0),
    ensures
        tree_from(name, 0) == Some(carried_trees()[k].1),
        name.len() > 0,
        name[0] != 'b',
        name[0] != '/',
{
    law_a_bundle_carries_five_trees();
    reveal_strlit("variables/system");
    reveal_strlit("templates");
    reveal_strlit("resources");
    reveal_strlit("probes/system");
    reveal_strlit("providers");
    lemma_in_tree_at(name, carried_trees()[k].0, 0);
    lemma_in_tree_at(name, carried_trees()[k].0, 3);
    assert forall|i: int| 0 <= i < 5 && i != k implies !in_tree(
        name,
        (#[trigger] carried_trees()[i]).0,
    ) by {
        if in_tree(name, carried_trees()[i].0) {
            lemma_in_tree_at(name, carried_trees()[i].0, 0);
            lemma_in_tree_at(name, carried_trees()[i].0, 3);
        }
    }
    lemma_tree_from(name, 0);
    assert(in_tree(name, carried_trees()[k].0));
}

/// A file of a tree of data is put below `run/detc` for everybody to read, and
/// a file of a tree of programs below `run/lib/detc` for everybody to run,
/// under the path that it has in the bundle. Nothing else has a place.
pub proof fn law_every_tree_has_its_place(name: Seq<char>)
    ensures
        in_tree(name, "variables/system"@) || in_tree(name, "templates"@) || in_tree(
            name,
            "resources"@,
        ) ==> placed(name) == Ok::<(Seq<char>, u32), Seq<char>>(("run/detc/"@ + name, 0o644)),
        in_tree(name, "probes/system"@) || in_tree(name, "providers"@) ==> placed(name) == Ok::<
            (Seq<char>, u32),
            Seq<char>,
        >(("run/lib/detc/"@ + name, 0o755)),
        placed(name) is Ok ==> in_tree(name, "variables/system"@) || in_tree(name, "templates"@)
            || in_tree(name, "resources"@) || in_tree(name, "probes/system"@) || in_tree(
            name,
            "providers"@,
        ),
        name == "bundles.d"@ || text::begins(name, "bundles.d/"@) ==> placed(name) is Err,
{
    law_a_bundle_carries_five_trees();
    reveal_strlit("run/detc/");
    reveal_strlit("run/detc");
    reveal_strlit("run/lib/detc/");
    reveal_strlit("run/lib/detc");
    reveal_strlit("bundles.d");
    reveal_strlit("bundles.d/");
    assert("run/detc"@ + seq!['/'] + name =~= "run/detc/"@ + name);
    assert("run/lib/detc"@ + seq!['/'] + name =~= "run/lib/detc/"@ + name);
    let all = carried_trees();
    if name == "bundles.d"@ || text::begins(name, "bundles.d/"@) {
        if text::begins(name, "bundles.d/"@) {
            assert(name.subrange(0, 10)[0] == 'b');
        }
    }
    lemma_tree_from(name, 0);
    if in_tree(name, all[0].0) {
        lemma_in_one_tree(name, 0);
    }
    if in_tree(name, all[1].0) {
        lemma_in_one_tree(name, 1);
    }
    if in_tree(name, all[2].0) {
        lemma_in_one_tree(name, 2);
    }
    if in_tree(name, all[3].0) {
        lemma_in_one_tree(name, 3);
    }
    if in_tree(name, all[4].0) {
        lemma_in_one_tree(name, 4);
    }
}

/// A tree is its main file and what is below its directory of drop-ins.
pub proof fn law_a_tree_is_its_file_and_its_dropins(tree: Seq<char>, rest: Seq<char>)
    ensures
        in_tree(tree, tree),
        in_tree(tree + ".d/"@ + rest, tree),
        forall|name: Seq<char>|
            in_tree(name, tree) ==> name == tree || #[trigger] text::begins(name, tree + ".d/"@),
{
    let name = tree + ".d/"@ + rest;
    assert(name.subrange(0, (tree + ".d/"@).len() as int) =~= tree + ".d/"@);
}

/// A directory that holds anything that has a place is walked into.
pub proof fn law_what_has_a_place_is_reached(dir: Seq<char>, rest: Seq<char>)
    requires
        placed(dir + seq!['/'] + rest) is Ok || refusal_of(dir + seq!['/'] + rest) is Some,
    ensures
        is_reachable(dir),
{
    let name = dir + seq!['/'] + rest;
    lemma_tree_from(name, 0);
    if refusal_of(name) is Some {
        lemma_leads_to(dir, rest, tree_of(var::USER_VARIABLES_NAME@));
    } else {
        let i = choose|i: int|
            0 <= i < carried_trees().len() && in_tree(name, (#[trigger] carried_trees()[i]).0)
                && carried_trees()[i].1 == tree_from(name, 0)->0;
        lemma_leads_to(dir, rest, carried_trees()[i].0);
    }
}

proof fn lemma_leads_to(dir: Seq<char>, rest: Seq<char>, tree: Seq<char>)
    requires
        in_tree(dir + seq!['/'] + rest, tree),
    ensures
        leads_to(dir, tree),
{
    reveal_strlit(".");
    reveal_strlit(".d/");
    let name = dir + seq!['/'] + rest;
    if name == tree {
        assert(tree.subrange(0, dir.len() as int) =~= dir);
    } else {
        let below = tree + ".d/"@;
        assert forall|i: int| 0 <= i < below.len() implies name[i] == below[i] by {
            assert(name.subrange(0, below.len() as int)[i] == below[i]);
        }
        if dir.len() <= tree.len() {
            assert forall|i: int| 0 <= i < dir.len() implies tree[i] == dir[i] by {
                assert(name[i] == dir[i]);
                assert(below[i] == tree[i]);
            }
            assert(tree.subrange(0, dir.len() as int) =~= dir);
        } else {
            let dot = tree + "."@;
            assert forall|i: int| 0 <= i < dot.len() implies dir[i] == dot[i] by {
                assert(name[i] == dir[i]);
                assert(below[i] == dot[i]);
            }
            assert(dir.subrange(0, dot.len() as int) =~= dot);
        }
    }
}

/// The name of a bundle is a plain file name: no separator, no white space and
/// no dot in front.
pub proof fn law_a_bundle_is_named_like_a_file(name: Seq<char>)
    requires
        is_named_well(name),
    ensures
        name.len() > 0,
        name[0] != '.',
        !name.contains('/'),
        !name.contains(' '),
        !name.contains('\n'),
        forall|i: int|
            0 <= i < name.len() ==> ('a' <= #[trigger] name[i] <= 'z') || ('A' <= name[i] <= 'Z') || (
            '0' <= name[i] <= '9') || name[i] == '-' || name[i] == '_' || name[i] == '.',
{
    assert(forall|i: int| 0 <= i < name.len() ==> name_char(#[trigger] name[i]));
}

/// Letters, digits, dashes, underscores and, behind the first, dots make a name.
pub proof fn law_plain_characters_make_a_name(name: Seq<char>, c: char)
    requires
        is_named_well(name),
        ('a' <= c <= 'z') || ('A' <= c <= 'Z') || ('0' <= c <= '9') || c == '-' || c == '_' || c == '.',
    ensures
        is_named_well(name.push(c)),
        c != '.' ==> is_named_well(seq![c]),
        !is_named_well(Seq::empty()),
        !is_named_well(seq!['.']),
{
    let more = name.push(c);
    assert forall|i: int| 0 <= i < more.len() implies name_char(#[trigger] more[i]) by {
        if i < name.len() {
            assert(more[i] == name[i]);
        }
    }
    assert(more[0] == name[0]);
}

/// A manifest is taken when it says a name and a version and the name is one
/// that a file can have, and what it says is kept as it is.
pub proof fn law_a_manifest_says_a_name_and_a_version(t: Seq<char>, b: Identity)
    ensures
        text::trim(t).len() == 0 ==> parsed(t, Ok(b)) is Err,
        text::trim(t).len() > 0 ==> (parsed(t, Ok(b)) is Ok <==> text::trim(b.name).len() > 0
            && text::trim(b.version).len() > 0 && is_named_well(b.name)),
        parsed(t, Ok(b)) matches Ok(r) ==> r == b,
        text::trim(t).len() > 0 ==> forall|e: Seq<char>| (#[trigger] parsed(t, Err(e))) is Err,
{
    assert(text::trim(nameless().name).len() == 0) by {
        let at = text::law_trim_takes_the_space_around(nameless().name);
    }
}

/// A bundle is a payload and at most one signature of it, and anything else
/// that is in the file, or in it twice, is refused.
pub proof fn law_a_bundle_is_two_halves(
    members: Seq<Member>,
    payload: Seq<u8>,
    signature: Option<Seq<u8>>,
    i: int,
    j: int,
)
    ensures
        halves(two_halves(payload, signature)) == Ok::<
            (Option<Seq<u8>>, Option<Seq<u8>>),
            Seq<char>,
        >((Some(payload), signature)),
        0 <= i < members.len() && members[i].name != "payload.tar"@ && members[i].name
            != "payload.tar.sig"@ ==> halves(members) is Err,
        0 <= i < j < members.len() && members[i].name == members[j].name ==> halves(members) is Err,
        halves(members) matches Ok((Some(p), _)) ==> exists|k: int|
            0 <= k < members.len() && (#[trigger] members[k]).name == "payload.tar"@ && members[k].data
                == p,
        halves(members) matches Ok((_, Some(s))) ==> exists|k: int|
            0 <= k < members.len() && (#[trigger] members[k]).name == "payload.tar.sig"@
                && members[k].data == s,
{
    lemma_two_halves(payload, signature);
    lemma_halves(members);
}

proof fn lemma_halves(members: Seq<Member>)
    ensures
        halves(members) matches Ok((payload, signature)) ==> {
            &&& forall|i: int|
                0 <= i < members.len() ==> (#[trigger] members[i]).name == "payload.tar"@
                    || members[i].name == "payload.tar.sig"@
            &&& forall|i: int, j: int|
                0 <= i < j < members.len() ==> (#[trigger] members[i]).name
                    != (#[trigger] members[j]).name
            &&& payload is Some <==> exists|k: int|
                0 <= k < members.len() && (#[trigger] members[k]).name == "payload.tar"@
            &&& signature is Some <==> exists|k: int|
                0 <= k < members.len() && (#[trigger] members[k]).name == "payload.tar.sig"@
            &&& payload matches Some(p) ==> exists|k: int|
                0 <= k < members.len() && (#[trigger] members[k]).name == "payload.tar"@
                    && members[k].data == p
            &&& signature matches Some(s) ==> exists|k: int|
                0 <= k < members.len() && (#[trigger] members[k]).name == "payload.tar.sig"@
                    && members[k].data == s
        },
    decreases members.len(),
{
    reveal_strlit("payload.tar");
    reveal_strlit("payload.tar.sig");
    assert("payload.tar"@.len() != "payload.tar.sig"@.len());
    if members.len() > 0 && halves(members) is Ok {
        let less = members.drop_last();
        let n: int = members.len() - 1;
        lemma_halves(less);
        let (p, s) = halves(less)->Ok_0;
        assert(forall|i: int| 0 <= i < n ==> #[trigger] less[i] == members[i]);
        assert forall|i: int| 0 <= i < members.len() implies (#[trigger] members[i]).name
            == "payload.tar"@ || members[i].name == "payload.tar.sig"@ by {
            if i < n {
                assert(less[i] == members[i]);
            }
        }
        assert forall|i: int, j: int| 0 <= i < j < members.len() implies (#[trigger] members[i]).name
            != (#[trigger] members[j]).name by {
            assert(less[i] == members[i]);
            if j < n {
                assert(less[j] == members[j]);
            }
        }
        if p is Some {
            let k = choose|k: int|
                0 <= k < less.len() && (#[trigger] less[k]).name == "payload.tar"@ && less[k].data
                    == p->0;
            assert(members[k] == less[k]);
        }
        if s is Some {
            let k = choose|k: int|
                0 <= k < less.len() && (#[trigger] less[k]).name == "payload.tar.sig"@ && less[k].data
                    == s->0;
            assert(members[k] == less[k]);
        }
        assert(members[n] == members.last());
        if exists|k: int| 0 <= k < members.len() && (#[trigger] members[k]).name == "payload.tar"@ {
            let k = choose|k: int|
                0 <= k < members.len() && (#[trigger] members[k]).name == "payload.tar"@;
            if k < n {
                assert(less[k].name == "payload.tar"@);
            }
        }
        if exists|k: int| 0 <= k < members.len() && (#[trigger] members[k]).name == "payload.tar.sig"@ {
            let k = choose|k: int|
                0 <= k < members.len() && (#[trigger] members[k]).name == "payload.tar.sig"@;
            if k < n {
                assert(less[k].name == "payload.tar.sig"@);
            }
        }
    }
}

/// A bundle without a signature is taken only where that is allowed, and is
/// then said to be unsigned. One with a signature is held to it, whatever is
/// allowed.
pub proof fn law_an_unsigned_bundle_is_taken_only_where_that_is_allowed(
    signers: Signers,
    payload: Seq<u8>,
    signature: Seq<u8>,
)
    ensures
        signer_for(signers, payload, None, false) is Err,
        signer_for(signers, payload, None, true) == Ok::<Seq<char>, Seq<char>>("unsigned"@),
        signer_for(signers, payload, Some(signature), true) == signer_for(
            signers,
            payload,
            Some(signature),
            false,
        ),
        signer_for(signers, payload, Some(signature), true) == signers::signer_of(
            signers,
            "detc-bundle"@,
            payload,
            signature,
        ),
{
}

/// A file is authentic when it is a payload that its signature vouches for,
/// and what is authentic of it is that payload.
pub proof fn law_what_is_authentic_is_the_payload(
    signers: Signers,
    file: Seq<u8>,
    payload: Seq<u8>,
    signature: Option<Seq<u8>>,
    allow_unsigned: bool,
)
    ensures
        tar::held(file) == Ok::<Seq<Member>, Seq<char>>(two_halves(payload, signature)) ==> {
            &&& authentic(signers, file, allow_unsigned) is Ok <==> signer_for(
                signers,
                payload,
                signature,
                allow_unsigned,
            ) is Ok
            &&& authentic(signers, file, allow_unsigned) matches Ok((p, signer)) ==> p == payload
                && signer_for(signers, payload, signature, allow_unsigned) == Ok::<
                Seq<char>,
                Seq<char>,
            >(signer)
        },
        tar::held(file) is Err ==> authentic(signers, file, allow_unsigned) is Err,
        tar::held(file) == Ok::<Seq<Member>, Seq<char>>(Seq::empty()) ==> authentic(
            signers,
            file,
            allow_unsigned,
        ) is Err,
        authentic(signers, file, allow_unsigned) is Err ==> unpacked(signers, file, allow_unsigned) is Err,
{
    lemma_two_halves(payload, signature);
}

/// A member of a payload is laid out at its place with its own bytes, but for
/// the manifest, which is kept apart; a member that has no place, or a name
/// that was there already, is refused.
pub proof fn law_a_member_is_laid_out_at_its_place(members: Seq<Member>, member: Member)
    requires
        laid_out(members) is Ok,
    ensures
        ({
            let (manifest, files) = laid_out(members)->Ok_0;
            let again = exists|j: int|
                0 <= j < members.len() && (#[trigger] members[j]).name == member.name;
            let after = laid_out(members.push(member));
            &&& again ==> after is Err
            &&& !again && member.name == "bundle.yaml"@ ==> after == Ok::<
                (Option<Seq<u8>>, Seq<Laid>),
                Seq<char>,
            >((Some(member.data), files))
            &&& !again && member.name != "bundle.yaml"@ && placed(member.name) is Err ==> after is Err
            &&& !again && member.name != "bundle.yaml"@ && placed(member.name) is Ok ==> after == Ok::<
                (Option<Seq<u8>>, Seq<Laid>),
                Seq<char>,
            >(
                (
                    manifest,
                    files.push(
                        Laid {
                            path: (placed(member.name)->Ok_0).0,
                            mode: (placed(member.name)->Ok_0).1,
                            data: member.data,
                        },
                    ),
                ),
            )
        }),
{
    let all = members.push(member);
    assert(all.drop_last() =~= members);
    assert(all.last() == member);
    if exists|j: int| 0 <= j < members.len() && (#[trigger] members[j]).name == member.name {
        let j = choose|j: int| 0 <= j < members.len() && (#[trigger] members[j]).name == member.name;
        assert(all[j].name == member.name);
    }
    if seen_before(all, members.len() as int, member.name) {
        let j = choose|j: int|
            0 <= j < members.len() && j < all.len() && (#[trigger] all[j]).name == member.name;
        assert(members[j] == all[j]);
    }
}

/// A bundle that is opened is what its manifest says, signed by who signed it,
/// whatever the manifest says of that.
pub proof fn law_the_signature_says_who_signed(p: Parcel, b: Identity)
    requires
        opened(p, Ok(b)) is Ok,
    ensures
        ({
            let l = opened(p, Ok(b))->Ok_0;
            &&& l.bundle.signer == p.signer
            &&& l.bundle.name == b.name
            &&& l.bundle.version == b.version
            &&& l.bundle.origin == b.origin
            &&& l.bundle.persist == b.persist
            &&& l.files == p.files
            &&& is_named_well(b.name)
        }),
{
}

/// A payload without a manifest, or with one that is not text, is refused.
pub proof fn law_a_payload_needs_its_manifest(signer: Seq<char>, members: Seq<Member>)
    ensures
        laid_out(members) is Err ==> gathered(signer, members) is Err,
        laid_out(members) is Ok && (laid_out(members)->Ok_0).0 is None ==> gathered(signer, members) is Err,
        laid_out(members) matches Ok((Some(manifest), files)) ==> (text::decoded(manifest) is None
            ==> gathered(signer, members) is Err),
        gathered(signer, members) matches Ok(p) ==> p.signer == signer && laid_out(members) is Ok
            && p.files == (laid_out(members)->Ok_0).1,
{
}

/// What is installed is described below `run`, and what is kept for the next
/// boot below `var`, each under the name of the bundle.
pub proof fn law_bundles_have_their_places(name: Seq<char>)
    requires
        is_named_well(name),
    ensures
        installed_path_of(name, STATE@) == "run/detc/bundles.d/"@ + name + ".yaml"@,
        installed_path_of(name, FILES@) == "run/detc/bundles.d/"@ + name + ".files"@,
        kept_path_of(name, STATE@) == "var/lib/detc/bundles.d/"@ + name + ".yaml"@,
        kept_path_of(name, KEPT@) == "var/lib/detc/bundles.d/"@ + name + ".detc"@,
{
    reveal_strlit("run/detc/bundles.d/");
    reveal_strlit("run/detc/bundles.d");
    reveal_strlit("var/lib/detc/bundles.d/");
    reveal_strlit("var/lib/detc/bundles.d");
    assert(name_char(name[0]));
    assert((name + STATE@)[0] == name[0] && (name + FILES@)[0] == name[0] && (name + KEPT@)[0]
        == name[0]);
    assert(installed_path_of(name, STATE@) =~= "run/detc/bundles.d/"@ + name + ".yaml"@);
    assert(installed_path_of(name, FILES@) =~= "run/detc/bundles.d/"@ + name + ".files"@);
    assert(kept_path_of(name, STATE@) =~= "var/lib/detc/bundles.d/"@ + name + ".yaml"@);
    assert(kept_path_of(name, KEPT@) =~= "var/lib/detc/bundles.d/"@ + name + ".detc"@);
}

/// What is recorded of a bundle is every path that its list names and that
/// lies in the trees that a bundle writes, and no other.
pub proof fn law_only_our_paths_are_recorded(lines: Seq<Seq<char>>, line: Seq<char>)
    ensures
        our_lines(Seq::empty()).len() == 0,
        text::trim(line).len() > 0 && is_ours(line) ==> our_lines(lines.push(line)) == our_lines(
            lines,
        ).push(line),
        text::trim(line).len() == 0 || !is_ours(line) ==> our_lines(lines.push(line)) == our_lines(
            lines,
        ),
        path::climbs(line) ==> !is_ours(line),
        is_ours(line) ==> path::lies_in(line, "run/detc"@) || path::lies_in(line, "run/lib/detc"@),
        !path::climbs(line) && path::lies_in(line, "run/detc"@) ==> is_ours(line),
        !path::climbs(line) && path::lies_in(line, "run/lib/detc"@) ==> is_ours(line),
{
    assert(lines.push(line).drop_last() =~= lines);
}

/// What is recorded stands in the order of paths and holds the paths of the
/// list, each once.
pub proof fn law_recorded_paths_are_a_set(body: Seq<char>, path: Seq<char>)
    ensures
        path::in_path_order(paths_in(body)),
        path::holds_route(paths_in(body), path) <==> path::holds_route(
            our_lines(text::lines(body)),
            path,
        ),
{
    path::lemma_path_set(our_lines(text::lines(body)), path);
}

/// A bundle is refused when it would write a path that another bundle wrote,
/// and only then: its own paths are no obstacle.
pub proof fn law_a_bundle_does_not_write_anothers_file(
    root: Seq<char>,
    name: Seq<char>,
    wanted: Seq<Seq<char>>,
    holdings: Seq<Holding>,
    k: int,
)
    requires
        claims(root, holdings) is Ok,
    ensures
        ({
            let c = claims(root, holdings)->Ok_0;
            &&& 0 <= k < wanted.len() && claimant(c, wanted[k]) is Some && holdings[claimant(
                c,
                wanted[k],
            )->0].name@ != name ==> claim_error(root, name, wanted, holdings) is Some
            &&& (forall|q: int|
                0 <= q < wanted.len() ==> claimant(c, #[trigger] wanted[q]) is None
                    || holdings[claimant(c, wanted[q])->0].name@ == name) ==> claim_error(
                root,
                name,
                wanted,
                holdings,
            ) is None
        }),
{
    let c = claims(root, holdings)->Ok_0;
    let why = clashes(root, name, holdings, c);
    text::law_the_first_complaint_is_given(wanted, why);
    if 0 <= k < wanted.len() && claimant(c, wanted[k]) is Some && holdings[claimant(
        c,
        wanted[k],
    )->0].name@ != name {
        assert(why(wanted[k]) is Some);
    }
    if forall|q: int|
        0 <= q < wanted.len() ==> claimant(c, #[trigger] wanted[q]) is None || holdings[claimant(
            c,
            wanted[q],
        )->0].name@ == name {
        assert forall|q: int| 0 <= q < wanted.len() implies why(#[trigger] wanted[q]) is None by {}
    }
}

/// A path is claimed by a bundle whose record holds it, and by none when no
/// record does.
pub proof fn law_a_path_is_claimed_by_a_record_that_holds_it(c: Seq<Seq<Seq<char>>>, path: Seq<char>)
    ensures
        claimant(c, path) matches Some(i) ==> 0 <= i < c.len() && path::holds_route(c[i], path),
        claimant(c, path) is None ==> forall|i: int|
            0 <= i < c.len() ==> !path::holds_route(#[trigger] c[i], path),
    decreases c.len(),
{
    if c.len() > 0 {
        let less = c.drop_last();
        law_a_path_is_claimed_by_a_record_that_holds_it(less, path);
        assert(forall|i: int| 0 <= i < less.len() ==> #[trigger] less[i] == c[i]);
        if claimant(c, path) is None {
            assert forall|i: int| 0 <= i < c.len() implies !path::holds_route(#[trigger] c[i], path) by {
                if i < less.len() {
                    assert(less[i] == c[i]);
                }
            }
        }
    }
}

/// A path has an owner when it is one that bundles write and the record of an
/// installed bundle holds it; the owner is that bundle, under its own name.
pub proof fn law_the_owner_of_a_path_is_who_recorded_it(
    root: Seq<char>,
    path: Seq<char>,
    holdings: Seq<Holding>,
    i: int,
)
    requires
        claims(root, holdings) is Ok,
        0 <= i < holdings.len(),
        apart(claims(root, holdings)->Ok_0),
    ensures
        !is_ours(path) ==> owner_of(root, path, holdings) == Ok::<Option<Identity>, Seq<char>>(None),
        is_ours(path) && path::holds_route(claims(root, holdings)->Ok_0[i], path) ==> owner_of(
            root,
            path,
            holdings,
        ) == installed_state_of(root, holdings[i].name@, holdings[i].state),
        (forall|j: int|
            0 <= j < claims(root, holdings)->Ok_0.len() ==> !path::holds_route(
                #[trigger] claims(root, holdings)->Ok_0[j],
                path,
            )) ==> owner_of(root, path, holdings) == Ok::<Option<Identity>, Seq<char>>(None),
        installed_state_of(root, holdings[i].name@, holdings[i].state) matches Ok(Some(b)) ==> b.name
            == holdings[i].name@,
{
    let c = claims(root, holdings)->Ok_0;
    lemma_claims_len(root, holdings);
    law_a_path_is_claimed_by_a_record_that_holds_it(c, path);
    if path::holds_route(c[i], path) {
        let j = claimant(c, path)->0;
        assert(path::holds_route(c[j], path));
    }
}

/// Installing writes every file, takes away what the version before wrote and
/// this one does not, and records what it wrote; a bundle that is to last is
/// kept for the next boot, and of one that is not, nothing is kept.
pub proof fn law_installing_writes_and_records(l: Load, previous: Seq<Seq<char>>, path: Seq<char>)
    ensures
        ({
            let all = install_jobs(l, previous);
            let wanted = wanted_of(l);
            let gone = path::without_paths(previous, wanted);
            let n = (l.files.len() + gone.len()) as int;
            &&& all.len() == n + (if l.bundle.persist {
                4int
            } else {
                5
            })
            &&& forall|i: int|
                0 <= i < l.files.len() ==> #[trigger] all[i] == (Job::Write {
                    path: l.files[i].path,
                    mode: l.files[i].mode,
                    data: l.files[i].data,
                })
            &&& forall|i: int|
                0 <= i < gone.len() ==> (all[l.files.len() + i] matches Job::Unlink { path, .. } && path
                    == #[trigger] gone[i])
            &&& gone.contains(path) <==> previous.contains(path) && !path::holds_route(wanted, path)
            &&& all[n] == (Job::Write {
                path: installed_path_of(l.bundle.name, FILES@),
                mode: 0o644,
                data: vstd::utf8::encode_utf8(text::ended(wanted)),
            })
            &&& all[n + 1] == (Job::Describe {
                path: installed_path_of(l.bundle.name, STATE@),
                mode: 0o644,
            })
            &&& l.bundle.persist ==> all[n + 2] == (Job::Keep {
                path: kept_path_of(l.bundle.name, KEPT@),
                mode: 0o644,
            }) && all[n + 3] == (Job::Describe {
                path: kept_path_of(l.bundle.name, STATE@),
                mode: 0o644,
            })
            &&& !l.bundle.persist ==> all[n + 2] == (Job::Discard {
                path: kept_path_of(l.bundle.name, KEPT@),
            }) && all[n + 3] == (Job::Discard { path: kept_path_of(l.bundle.name, STATE@) }) && all[n
                + 4] == (Job::Vacate { path: "var/lib/detc/bundles.d"@ })
        }),
{
    let wanted = wanted_of(l);
    path::law_paths_without_others(previous, wanted, path);
    let gone = path::without_paths(previous, wanted);
    let all = install_jobs(l, previous);
    assert forall|i: int| 0 <= i < gone.len() implies (all[l.files.len() + i] matches Job::Unlink {
        path,
        ..
    } && path == #[trigger] gone[i]) by {
        assert(all[l.files.len() + i] == unlinks(gone)[i]);
    }
}

/// What a bundle wants to write is its files and the two that describe it.
pub proof fn law_a_bundle_wants_its_files_and_two_more(l: Load, path: Seq<char>)
    ensures
        path::in_path_order(wanted_of(l)),
        path::holds_route(wanted_of(l), path) <==> (exists|i: int|
            0 <= i < l.files.len() && path::names((#[trigger] l.files[i]).path) == path::names(path))
            || path::names(path) == path::names(installed_path_of(l.bundle.name, STATE@))
            || path::names(path) == path::names(installed_path_of(l.bundle.name, FILES@)),
{
    let files = paths_of(l.files);
    let first = path::path_set(files);
    let state = installed_path_of(l.bundle.name, STATE@);
    let list = installed_path_of(l.bundle.name, FILES@);
    path::lemma_path_set(files, path);
    path::lemma_with_path_ordered(first, state);
    path::lemma_with_path_holds(first, state, path);
    path::lemma_with_path_ordered(path::with_path(first, state), list);
    path::lemma_with_path_holds(path::with_path(first, state), list, path);
    if path::holds_route(files, path) {
        let i = choose|i: int| 0 <= i < files.len() && path::names(#[trigger] files[i]) == path::names(path);
        assert(l.files[i].path == files[i]);
    }
    if exists|i: int|
        0 <= i < l.files.len() && path::names((#[trigger] l.files[i]).path) == path::names(path) {
        let i = choose|i: int|
            0 <= i < l.files.len() && path::names((#[trigger] l.files[i]).path) == path::names(path);
        assert(files[i] == l.files[i].path);
    }
}

/// A trial says what an installation would say and does nothing.
pub proof fn law_a_trial_says_the_same_and_does_nothing(
    root: Seq<char>,
    l: Load,
    holdings: Seq<Holding>,
    list: Look,
)
    ensures
        installing(root, l, holdings, list, true) is Ok <==> installing(
            root,
            l,
            holdings,
            list,
            false,
        ) is Ok,
        installing(root, l, holdings, list, true) matches Ok((account, jobs)) ==> jobs.len() == 0
            && account == (installing(root, l, holdings, list, false)->Ok_0).0,
        installing(root, l, holdings, list, false) matches Ok((account, jobs)) ==> {
            &&& recorded_of(root, l.bundle.name, list) is Ok
            &&& claim_error(root, l.bundle.name, wanted_of(l), holdings) is None
            &&& account.bundle == l.bundle
            &&& account.written == wanted_of(l).len()
            &&& account.removed == path::without_paths(
                recorded_of(root, l.bundle.name, list)->Ok_0,
                wanted_of(l),
            ).len()
            &&& jobs == install_jobs(l, recorded_of(root, l.bundle.name, list)->Ok_0)
        },
{
}

/// Removing a bundle takes away every path that it recorded and what was kept
/// of it; a bundle that is neither installed nor kept is not there to remove,
/// and a trial takes nothing away.
pub proof fn law_removing_takes_away_what_was_recorded(
    root: Seq<char>,
    name: Seq<char>,
    installed: Found,
    kept: Found,
    list: Look,
    i: int,
)
    requires
        removing(root, name, installed, kept, list, false) is Ok,
    ensures
        ({
            let here = installed_state_of(root, name, installed);
            let there = kept_state_of(root, name, kept);
            let r = removing(root, name, installed, kept, list, false)->Ok_0;
            &&& here is Ok && there is Ok
            &&& r is None <==> here->Ok_0 is None && there->Ok_0 is None
            &&& r matches Some((account, jobs)) ==> {
                &&& recorded_of(root, name, list) is Ok
                &&& account.written == 0
                &&& account.removed == recorded_of(root, name, list)->Ok_0.len()
                &&& here->Ok_0 matches Some(b) ==> account.bundle == b
                &&& here->Ok_0 is None ==> Some(account.bundle) == there->Ok_0
                &&& jobs.len() == recorded_of(root, name, list)->Ok_0.len() + 3
                &&& 0 <= i < recorded_of(root, name, list)->Ok_0.len() ==> (
                jobs[i] matches Job::Unlink { path, .. } && path == recorded_of(
                    root,
                    name,
                    list,
                )->Ok_0[i])
                &&& jobs[jobs.len() - 3] == (Job::Discard { path: kept_path_of(name, KEPT@) })
                &&& jobs[jobs.len() - 2] == (Job::Discard { path: kept_path_of(name, STATE@) })
                &&& removing(root, name, installed, kept, list, true) == Ok::<
                    Option<(Account, Seq<Job>)>,
                    Seq<char>,
                >(Some((account, Seq::empty())))
            }
        }),
{
}

/// The directories that may be left empty behind a path are those above it
/// that bundles write into, the nearest first.
pub proof fn law_directories_are_vacated_from_below(path: Seq<char>, i: int)
    requires
        0 <= i < dirs_behind(path).len(),
    ensures
        i < path::names(path).len() - 1,
        dirs_behind(path)[i] == path::spelled(
            path::names(path).take(path::names(path).len() - 1 - i),
        ),
        is_ours(dirs_behind(path)[i]),
{
    lemma_dirs_from(path::names(path), (path::names(path).len() - 1) as nat, i);
}

proof fn lemma_dirs_from(names: Seq<Seq<char>>, n: nat, i: int)
    requires
        0 <= i < dirs_from(names, n).len(),
    ensures
        i < n,
        dirs_from(names, n)[i] == path::spelled(names.take(n - i)),
        is_ours(dirs_from(names, n)[i]),
    decreases n,
{
    let rest = dirs_from(names, (n - 1) as nat);
    if i > 0 {
        lemma_dirs_from(names, (n - 1) as nat, i - 1);
        assert(dirs_from(names, n)[i] == rest[i - 1]);
    }
}

/// A bundle is put back from where it came, and without a signature only if it
/// was taken without one; what is put back is kept again.
pub proof fn law_a_restoration_asks_for_the_same_signature(
    root: Seq<char>,
    name: Seq<char>,
    t: Trial,
    b: Identity,
)
    requires
        t.file is Ok,
        kept_state_of(root, name, t.state) == Ok::<Option<Identity>, Seq<char>>(Some(b)),
    ensures
        restoring(root, name, t.file, t.state) == Ok::<(Seq<char>, bool), Seq<char>>(
            (b.origin, b.signer == "unsigned"@),
        ),
        reopened(root, name, t) matches Ok(l) ==> {
            &&& l.bundle.persist
            &&& l.bundle.origin == b.origin
            &&& unpacked(t.signers, t.file->Ok_0@, b.signer == "unsigned"@) is Ok
            &&& l.files == unpacked(t.signers, t.file->Ok_0@, b.signer == "unsigned"@)->Ok_0.files
            &&& l.bundle.signer == unpacked(
                t.signers,
                t.file->Ok_0@,
                b.signer == "unsigned"@,
            )->Ok_0.signer
        },
        unpacked(t.signers, t.file->Ok_0@, b.signer == "unsigned"@) is Err ==> reopened(root, name, t) is Err,
{
}

/// What nothing is known of is put back only with a signature.
pub proof fn law_what_has_no_state_needs_a_signature(
    root: Seq<char>,
    name: Seq<char>,
    file: Vec<u8>,
    state: Found,
)
    ensures
        kept_state_of(root, name, state) == Ok::<Option<Identity>, Seq<char>>(None) ==> restoring(
            root,
            name,
            Ok(file),
            state,
        ) == Ok::<(Seq<char>, bool), Seq<char>>((Seq::empty(), false)),
        kept_state_of(root, name, state) is Err ==> restoring(root, name, Ok(file), state) is Err,
        forall|e: String| (#[trigger] restoring(root, name, Err(e), state)) is Err,
{
}

/// A state says what its manifest says, under the name of the file that it is
/// in; a file that is not there is no state.
pub proof fn law_a_state_is_named_by_its_file(path: Seq<char>, name: Seq<char>, found: Found)
    ensures
        found.body is Err ==> state_in(path, name, found) is Err,
        found.body is Ok && found.body->Ok_0 is None ==> state_in(path, name, found) == Ok::<
            Option<Identity>,
            Seq<char>,
        >(None),
        state_in(path, name, found) matches Ok(Some(b)) ==> {
            &&& b.name == name
            &&& found.read is Ok
            &&& b.version == found.read->Ok_0@.version
            &&& b.signer == found.read->Ok_0@.signer
            &&& b.origin == found.read->Ok_0@.origin
            &&& b.persist == found.read->Ok_0@.persist
        },
{
    let at = text::law_trim_takes_the_space_around(nameless().name);
}

/// The states are those of the bundles that have one, in their order, and one
/// that cannot be read is an error.
pub proof fn law_states_are_read_in_their_order(
    root: Seq<char>,
    kept: bool,
    states: Seq<(String, Found)>,
    one: (String, Found),
)
    requires
        states_of(root, kept, states) is Ok,
    ensures
        ({
            let before = states_of(root, kept, states)->Ok_0;
            let after = states_of(root, kept, states.push(one));
            let state = if kept {
                kept_state_of(root, one.0@, one.1)
            } else {
                installed_state_of(root, one.0@, one.1)
            };
            &&& state is Err ==> after is Err
            &&& state matches Ok(None) ==> after == Ok::<Seq<Identity>, Seq<char>>(before)
            &&& state matches Ok(Some(b)) ==> after == Ok::<Seq<Identity>, Seq<char>>(before.push(b))
        }),
{
    assert(states.push(one).drop_last() =~= states);
}

/// A source tree is packed without what has no place in a bundle; the manifest
/// and everything that has a place are taken, with their own bytes and the
/// mode of their place.
pub proof fn law_what_has_a_place_is_packed(files: Seq<Source>, file: Source)
    requires
        collected(files) is Ok,
    ensures
        ({
            let before = collected(files)->Ok_0;
            let after = collected(files.push(file));
            let name = file.name@;
            &&& in_tree(name, "variables/user"@) ==> after is Err
            &&& !in_tree(name, "variables/user"@) && name != "bundle.yaml"@ && placed(name) is Err
                ==> after == Ok::<Seq<Member>, Seq<char>>(before)
            &&& !in_tree(name, "variables/user"@) && name == "bundle.yaml"@ && file.data is Ok ==> after
                == Ok::<Seq<Member>, Seq<char>>(
                before.push(Member { name, mode: 0o644, data: file.data->Ok_0@ }),
            )
            &&& !in_tree(name, "variables/user"@) && name != "bundle.yaml"@ && placed(name) is Ok
                && file.data is Ok ==> after == Ok::<Seq<Member>, Seq<char>>(
                before.push(
                    Member { name, mode: (placed(name)->Ok_0).1, data: file.data->Ok_0@ },
                ),
            )
            &&& !in_tree(name, "variables/user"@) && (name == "bundle.yaml"@ || placed(name) is Ok)
                && file.data is Err ==> after is Err
        }),
{
    assert(files.push(file).drop_last() =~= files);
    law_a_bundle_carries_five_trees();
}

/// The members of a payload are packed in the order of their names.
pub proof fn law_members_are_packed_by_name(members: Seq<Member>, sorted: Seq<Member>, p: int, q: int)
    requires
        order::sorted_as(members, sorted, by_name()),
        0 <= p < q < sorted.len(),
    ensures
        sorted.len() == members.len(),
        members.contains(sorted[p]),
        sorted[p].name == sorted[q].name || text::before(sorted[p].name, sorted[q].name),
{
    let (from, to) = choose|from: Seq<int>, to: Seq<int>|
        order::sorts(members, sorted, by_name(), from, to);
    assert(order::sorts(members, sorted, by_name(), from, to));
    assert(from[p] != from[q]);
    assert(sorted[p] == members[from[p]]);
    assert(!by_name()(sorted[q], sorted[p]));
    if sorted[p].name != sorted[q].name {
        text::lemma_before_total(sorted[p].name, sorted[q].name);
    }
}

/// A bundle that is built with a key carries the signature of that key on its
/// payload, and one that is built without carries none.
pub proof fn law_a_bundle_is_signed_by_its_key(
    bundle: Identity,
    payload: Seq<u8>,
    members: Seq<Member>,
    path: String,
    body: Read,
    b: Identity,
    file: Seq<u8>,
)
    ensures
        closes(bundle, payload, None, members, Ok((b, file))) ==> b == bundle && bundles(
            file,
            payload,
            None,
            members,
        ),
        closes(bundle, payload, Some((path, body)), members, Ok((b, file))) ==> {
            &&& b == bundle
            &&& signers::signature_of("detc-bundle"@, payload, path@, body) is Ok
            &&& bundles(
                file,
                payload,
                Some(signers::signature_of("detc-bundle"@, payload, path@, body)->Ok_0),
                members,
            )
            &&& signers::public_half(body) is Some
            &&& signers::signs(
                signers::signature_of("detc-bundle"@, payload, path@, body)->Ok_0,
                signers::public_half(body)->0,
                "detc-bundle"@,
                payload,
            )
        },
        bundles(file, payload, None, members) ==> tar::carries(
            file,
            seq![Member { name: "payload.tar"@, mode: 0o644, data: payload }],
        ) && tar::carries(payload, members),
{
}

/// A bundle is built from a directory whose manifest says what it is, out of
/// everything in it that has a place.
pub proof fn law_a_bundle_is_built_from_its_directory(
    dir: Seq<char>,
    manifest: Read,
    read: Result<Identity, Seq<char>>,
    files: Seq<Source>,
    key: Option<(String, Read)>,
    b: Identity,
    file: Seq<u8>,
)
    requires
        creates(dir, manifest, read, files, key, Ok((b, file))),
    ensures
        manifest is Ok,
        parsed(manifest->Ok_0@, read) is Ok,
        collected(files) is Ok,
        exists|sorted: Seq<Member>|
            #[trigger] order::sorted_as(collected(files)->Ok_0, sorted, by_name())
                && tar::packing_error(sorted) is None,
{
}

/// A bundle is opened when its payload is authentic, can be read, has a place
/// for everything and a manifest that says what it is.
pub proof fn law_a_sound_bundle_is_opened(
    signers: Signers,
    file: Seq<u8>,
    allow_unsigned: bool,
    signer: Seq<char>,
    members: Seq<Member>,
    manifest: Seq<u8>,
    files: Seq<Laid>,
    p: Parcel,
    b: Identity,
)
    ensures
        laid_out(members) == Ok::<(Option<Seq<u8>>, Seq<Laid>), Seq<char>>((Some(manifest), files))
            && text::decoded(manifest) is Some ==> gathered(signer, members) == Ok::<Parcel, Seq<char>>(
            Parcel { signer, files, manifest: text::decoded(manifest)->0 },
        ),
        authentic(signers, file, allow_unsigned) matches Ok((payload, who)) ==> unpacked(
            signers,
            file,
            allow_unsigned,
        ) == (match tar::held(payload) {
            Ok(all) => gathered(who, all),
            Err(e) => Err(e),
        }),
        opened(p, Ok(b)) is Ok <==> text::trim(p.manifest).len() > 0 && text::trim(b.name).len() > 0
            && text::trim(b.version).len() > 0 && is_named_well(b.name),
{
    law_a_manifest_says_a_name_and_a_version(p.manifest, b);
}

/// An installation is refused only for another bundle's file or for a record
/// that cannot be read, and a removal only for what cannot be read.
pub proof fn law_nothing_else_refuses_an_installation(
    root: Seq<char>,
    l: Load,
    holdings: Seq<Holding>,
    list: Look,
    name: Seq<char>,
    installed: Found,
    kept: Found,
    dry_run: bool,
    t: Trial,
)
    ensures
        installing(root, l, holdings, list, dry_run) is Ok <==> claim_error(
            root,
            l.bundle.name,
            wanted_of(l),
            holdings,
        ) is None && recorded_of(root, l.bundle.name, list) is Ok,
        installed_state_of(root, name, installed) is Ok && kept_state_of(root, name, kept) is Ok
            && recorded_of(root, name, list) is Ok ==> removing(
            root,
            name,
            installed,
            kept,
            list,
            dry_run,
        ) is Ok,
        installed_state_of(root, name, installed) is Err || kept_state_of(root, name, kept) is Err
            ==> removing(root, name, installed, kept, list, dry_run) is Err,
        list matches Ok(None) ==> recorded_of(root, name, list) == Ok::<Seq<Seq<char>>, Seq<char>>(
            Seq::empty(),
        ),
        list matches Ok(Some(body)) ==> recorded_of(root, name, list) == Ok::<
            Seq<Seq<char>>,
            Seq<char>,
        >(paths_in(body@)),
        list is Err ==> recorded_of(root, name, list) is Err,
        restoring(root, name, t.file, t.state) matches Ok((origin, allow)) ==> (unpacked(
            t.signers,
            t.file->Ok_0@,
            allow,
        ) matches Ok(p) ==> (opened(p, t.read) matches Ok(opened_load) ==> reopened(root, name, t)
            == Ok::<Load, Seq<char>>(
            Load {
                bundle: Identity { origin, persist: true, ..opened_load.bundle },
                files: opened_load.files,
            },
        ))),
        reinstalling(root, name, t, dry_run) == (match reopened(root, name, t) {
            Ok(again) => installing(root, again, t.holdings, t.list, dry_run),
            Err(e) => Err(e),
        }),
{
}

} // verus!
