//! A reader and a writer for the subset of `ustar` that a bundle is made of.
//!
//! The blocks themselves are read and written by the `tar` crate.  What is
//! decided here is what an archive may hold: regular files, names that fit in
//! a header, and modes that are permissions.  Everything else stops a read
//! instead of being skipped over, because a bundle is unpacked by a process
//! running as root, and an archive that can say more than *this file has these
//! bytes* can say something that was not meant.
//!
//! What is written depends on the members and on nothing else.

use std::io::Read;

use vstd::prelude::*;
use vstd::utf8::*;

use crate::text;

verus! {

/// The size of a header, of a block of data, and of the unit that everything
/// is padded to.
pub const BLOCK: usize = 512;

/// The size of the record that the archive is padded to a multiple of.
pub const RECORD: usize = 10240;

/// The largest archive that is read or written.
pub const MAX_SIZE: usize = 33554432;

/// The longest name that fits in the name field of a header.
pub const MAX_NAME: usize = 100;

/// One member of an archive: its path relative to the top, its permission
/// bits, and its contents.
#[derive(Clone, Debug, PartialEq, Eq)]
pub struct Entry {
    pub name: String,
    pub mode: u32,
    pub data: Vec<u8>,
}

/// One member of an archive, as plain values.
pub struct Member {
    pub name: Seq<char>,
    pub mode: u32,
    pub data: Seq<u8>,
}

impl View for Entry {
    type V = Member;

    open spec fn view(&self) -> Member {
        Member { name: self.name@, mode: self.mode, data: self.data@ }
    }
}

/// Members as plain values.
pub open spec fn members_of(s: Seq<Entry>) -> Seq<Member> {
    Seq::new(s.len(), |i: int| s[i]@)
}

impl Entry {
    /// A member of an archive.
    pub fn new(name: String, mode: u32, data: Vec<u8>) -> (r: Self)
        ensures
            r@ == (Member { name: name@, mode, data: data@ }),
    {
        Entry { name, mode, data }
    }
}

/// What is wrong with the components of a name, from the first on.
pub open spec fn component_error(name: Seq<char>, components: Seq<Seq<char>>) -> Option<Seq<char>>
    decreases components.len(),
{
    if components.len() == 0 {
        None
    } else if components[0] == ".."@ {
        Some("A bundle cannot hold "@ + name + ", which climbs out of the archive"@)
    } else if components[0].len() == 0 || components[0] == "."@ {
        Some("A bundle cannot hold "@ + name + ", whose path is not written plainly"@)
    } else {
        component_error(name, components.drop_first())
    }
}

/// What is wrong with a name: it has to be a relative path of plain
/// components, naming a file.
pub open spec fn name_error(name: Seq<char>) -> Option<Seq<char>> {
    if name.len() == 0 {
        Some("A bundle cannot hold an entry with no name"@)
    } else if name.contains('\0') {
        Some("A bundle cannot hold a name with a NUL in it"@)
    } else if name[0] == '/' {
        Some("A bundle cannot hold "@ + name + ", which is an absolute path"@)
    } else if name.last() == '/' {
        Some("A bundle cannot hold "@ + name + ", which names a directory"@)
    } else {
        component_error(name, text::split(name, '/'))
    }
}

/// The message for an archive that is too large.
pub open spec fn too_large_error() -> Seq<char> {
    "The archive is larger than the 32 MiB that a bundle may hold"@
}

/// The zero bytes that fill the last block of so many bytes.
pub open spec fn padding(size: nat) -> nat {
    ((BLOCK - size % (BLOCK as nat)) % (BLOCK as int)) as nat
}

/// So many zero bytes.
pub open spec fn zeros(n: nat) -> Seq<u8> {
    Seq::new(n, |i: int| 0u8)
}

/// One member as it lies in an archive: its header, its contents, and what
/// fills the last block.
pub open spec fn laid(header: Seq<u8>, data: Seq<u8>) -> Seq<u8> {
    header + data + zeros(padding(data.len()))
}

/// Members as they lie in an archive, one after the other.
pub open spec fn laid_all(members: Seq<(Seq<u8>, Seq<u8>)>) -> Seq<u8>
    decreases members.len(),
{
    if members.len() == 0 {
        Seq::empty()
    } else {
        laid_all(members.drop_last()) + laid(members.last().0, members.last().1)
    }
}

/// The header that `tar` makes for a name, a mode and a size, and for an
/// owner, a group and a time, or its complaint.
pub uninterp spec fn tar_header(
    name: Seq<char>,
    mode: u32,
    size: u64,
    owner: u64,
    group: u64,
    time: u64,
) -> Result<Seq<u8>, Seq<char>>;

/// The mode that `tar` reads in a header, or its complaint.
pub uninterp spec fn tar_mode(header: Seq<u8>) -> Result<u32, Seq<char>>;

/// The size that `tar` reads in a header, or its complaint.
pub uninterp spec fn tar_size(header: Seq<u8>) -> Result<u64, Seq<char>>;

/// The members that `tar` reads in an archive, each as a header and contents,
/// up to its first complaint.
pub uninterp spec fn tar_members(archive: Seq<u8>) -> Seq<Result<(Seq<u8>, Seq<u8>), Seq<char>>>;

/// Whether a header is of the ustar format.
pub open spec fn is_ustar(header: Seq<u8>) -> bool {
    header.subrange(257, 265) == seq![0x75u8, 0x73, 0x74, 0x61, 0x72, 0, 0x30, 0x30]
}

/// Whether a header is of the GNU format.
pub open spec fn is_gnu(header: Seq<u8>) -> bool {
    header.subrange(257, 265) == seq![0x75u8, 0x73, 0x74, 0x61, 0x72, 0x20, 0x20, 0]
}

/// Bytes up to the first that is zero.
pub open spec fn truncated(s: Seq<u8>) -> Seq<u8>
    decreases s.len(),
{
    if s.len() == 0 || s[0] == 0 {
        Seq::empty()
    } else {
        seq![s[0]] + truncated(s.drop_first())
    }
}

/// The name that is written in a header.
pub open spec fn header_name(header: Seq<u8>) -> Seq<u8> {
    let name = truncated(header.subrange(0, 100));
    let prefix = truncated(header.subrange(345, 500));
    if is_ustar(header) && prefix.len() > 0 {
        prefix + seq![0x2fu8] + name
    } else {
        name
    }
}

/// The kinds of member that an archive can hold.
#[derive(Clone, Copy, Debug, PartialEq, Eq, Structural)]
pub enum Kind {
    Regular,
    Link,
    Symlink,
    Char,
    Block,
    Directory,
    Fifo,
    Continuous,
    Extension,
    LongName,
    Other,
}

/// The kind of member that a header is of.
pub open spec fn header_kind(header: Seq<u8>) -> Kind {
    let flag = header[156];
    if flag == 0 || flag == 0x30 {
        Kind::Regular
    } else if flag == 0x31 {
        Kind::Link
    } else if flag == 0x32 {
        Kind::Symlink
    } else if flag == 0x33 {
        Kind::Char
    } else if flag == 0x34 {
        Kind::Block
    } else if flag == 0x35 {
        Kind::Directory
    } else if flag == 0x36 {
        Kind::Fifo
    } else if flag == 0x37 {
        Kind::Continuous
    } else if flag == 0x78 || flag == 0x67 {
        Kind::Extension
    } else if flag == 0x4c || flag == 0x4b {
        Kind::LongName
    } else {
        Kind::Other
    }
}

/// What a kind of member is called.
pub open spec fn kind_text(kind: Kind) -> Seq<char> {
    match kind {
        Kind::Link => "a hard link"@,
        Kind::Symlink => "a symbolic link"@,
        Kind::Char => "a character device"@,
        Kind::Block => "a block device"@,
        Kind::Directory => "a directory"@,
        Kind::Fifo => "a named pipe"@,
        Kind::Continuous => "a contiguous file"@,
        Kind::Extension => "a pax extension header, which can rewrite the entry that follows it"@,
        Kind::LongName => "a GNU long name header, which can rewrite the entry that follows it"@,
        _ => "of a kind that this format does not have"@,
    }
}

/// What a member that is not a regular file is.
pub fn describe(kind: Kind) -> (r: &'static str)
    ensures
        r@ == kind_text(kind),
{
    match kind {
        Kind::Link => "a hard link",
        Kind::Symlink => "a symbolic link",
        Kind::Char => "a character device",
        Kind::Block => "a block device",
        Kind::Directory => "a directory",
        Kind::Fifo => "a named pipe",
        Kind::Continuous => "a contiguous file",
        Kind::Extension => "a pax extension header, which can rewrite the entry that follows it",
        Kind::LongName => "a GNU long name header, which can rewrite the entry that follows it",
        _ => "of a kind that this format does not have",
    }
}

/// Whether every header is one that `tar` makes for the size of the contents
/// behind it.
pub open spec fn made(members: Seq<(Seq<u8>, Seq<u8>)>) -> bool {
    forall|i: int| 0 <= i < members.len() ==> made_for(#[trigger] members[i])
}

/// Whether a header is one that `tar` makes for the size of its contents.
pub open spec fn made_for(member: (Seq<u8>, Seq<u8>)) -> bool {
    exists|name: Seq<char>, mode: u32, owner: u64, group: u64, time: u64|
        member.1.len() <= u64::MAX && #[trigger] tar_header(
            name,
            mode,
            member.1.len() as u64,
            owner,
            group,
            time,
        ) == Ok::<Seq<u8>, Seq<char>>(member.0)
}

/// A member as it was read.
pub open spec fn raw(r: Result<(Vec<u8>, Vec<u8>), String>) -> Result<
    (Seq<u8>, Seq<u8>),
    Seq<char>,
> {
    match r {
        Ok(member) => Ok((member.0@, member.1@)),
        Err(e) => Err(e@),
    }
}

/// Members as they were read.
pub open spec fn raw_all(s: Seq<Result<(Vec<u8>, Vec<u8>), String>>) -> Seq<
    Result<(Seq<u8>, Seq<u8>), Seq<char>>,
> {
    Seq::new(s.len(), |i: int| raw(s[i]))
}

/// Members without a complaint among them.
pub open spec fn all_read(members: Seq<(Seq<u8>, Seq<u8>)>) -> Seq<
    Result<(Seq<u8>, Seq<u8>), Seq<char>>,
> {
    Seq::new(members.len(), |i: int| Ok(members[i]))
}

/// `tar::Archive::entries`, raw, reads the members of an archive in their
/// order: each header as it stands, a block long, and the contents that follow
/// it.  Of an archive that is made of laid out members and ends in zero blocks
/// it reads those members, when every header is one that `tar` makes for the
/// size of the contents behind it.
#[verifier::external_body]
fn read_members(archive: &[u8]) -> (r: Vec<Result<(Vec<u8>, Vec<u8>), String>>)
    ensures
        raw_all(r@) == tar_members(archive@),
        forall|i: int|
            0 <= i < r@.len() ==> (#[trigger] r@[i] matches Ok(member) ==> member.0@.len() == BLOCK),
        forall|members: Seq<(Seq<u8>, Seq<u8>)>, n: nat|
            n >= BLOCK && made(members) && archive@ == #[trigger] laid_all(members) + #[trigger] zeros(n)
                ==> raw_all(r@) == all_read(members),
{
    let mut archive = tar::Archive::new(archive);
    let entries = archive.entries().map(|entries| entries.raw(true));
    entries.into_iter().flatten().map(|entry| {
        let mut entry = entry.map_err(|e| e.to_string())?;
        let mut data = Vec::new();
        entry.read_to_end(&mut data).map_err(|e| e.to_string())?;
        Ok((entry.header().as_bytes().to_vec(), data))
    }).collect()
}

/// `tar::Header::as_ustar` knows a header of the ustar format by its magic and
/// its version.
#[verifier::external_body]
fn ustar(header: &Vec<u8>) -> (r: bool)
    requires
        header@.len() == BLOCK,
    ensures
        r == is_ustar(header@),
{
    tar::Header::from_byte_slice(header).as_ustar().is_some()
}

/// `tar::Header::as_gnu` knows a header of the GNU format by its magic and its
/// version.
#[verifier::external_body]
fn gnu(header: &Vec<u8>) -> (r: bool)
    requires
        header@.len() == BLOCK,
    ensures
        r == is_gnu(header@),
{
    tar::Header::from_byte_slice(header).as_gnu().is_some()
}

/// `tar::Header::path_bytes` reads the name field up to its first zero byte,
/// after the prefix field and a separator where a ustar header has one.
#[verifier::external_body]
fn name_bytes(header: &Vec<u8>) -> (r: Vec<u8>)
    requires
        header@.len() == BLOCK,
    ensures
        r@ == header_name(header@),
{
    tar::Header::from_byte_slice(header).path_bytes().into_owned()
}

/// `tar::Header::entry_type` tells the kinds of member apart by the type flag.
#[verifier::external_body]
fn kind(header: &Vec<u8>) -> (r: Kind)
    requires
        header@.len() == BLOCK,
    ensures
        r == header_kind(header@),
{
    match tar::Header::from_byte_slice(header).entry_type() {
        tar::EntryType::Regular => Kind::Regular,
        tar::EntryType::Link => Kind::Link,
        tar::EntryType::Symlink => Kind::Symlink,
        tar::EntryType::Char => Kind::Char,
        tar::EntryType::Block => Kind::Block,
        tar::EntryType::Directory => Kind::Directory,
        tar::EntryType::Fifo => Kind::Fifo,
        tar::EntryType::Continuous => Kind::Continuous,
        tar::EntryType::XHeader | tar::EntryType::XGlobalHeader => Kind::Extension,
        tar::EntryType::GNULongName | tar::EntryType::GNULongLink => Kind::LongName,
        _ => Kind::Other,
    }
}

/// `tar::Header::mode` reads the mode field.
#[verifier::external_body]
fn mode(header: &Vec<u8>) -> (r: Result<u32, String>)
    requires
        header@.len() == BLOCK,
    ensures
        tar_mode(header@) == (match r {
            Ok(mode) => Ok(mode),
            Err(e) => Err(e@),
        }),
{
    tar::Header::from_byte_slice(header).mode().map_err(|e| e.to_string())
}

/// `tar::Header::size` reads the size field.
#[verifier::external_body]
fn size(header: &Vec<u8>) -> (r: Result<u64, String>)
    requires
        header@.len() == BLOCK,
    ensures
        tar_size(header@) == (match r {
            Ok(size) => Ok(size),
            Err(e) => Err(e@),
        }),
{
    tar::Header::from_byte_slice(header).size().map_err(|e| e.to_string())
}

/// Whether a name and a mode can be written in the header of a bundle.
pub open spec fn fits(name: Seq<char>, mode: u32) -> bool {
    &&& name_error(name) is None
    &&& encode_utf8(name).len() <= MAX_NAME
    &&& mode <= 0o777
}

/// Whether a header says that a regular file has this name, mode and size.
pub open spec fn says(header: Seq<u8>, name: Seq<char>, mode: u32, size: u64) -> bool {
    &&& is_ustar(header)
    &&& header_name(header) == encode_utf8(name)
    &&& header_kind(header) == Kind::Regular
    &&& tar_mode(header) == Ok::<u32, Seq<char>>(mode)
    &&& tar_size(header) == Ok::<u64, Seq<char>>(size)
}

/// The setters of `tar::Header` fill in a ustar header for a regular file and
/// seal it with its checksum.  A name that is written plainly and fits its
/// field is taken, and the name, the kind, a mode that is a permission and the
/// size are read back as they were set.
#[verifier::external_body]
fn make_header(name: &str, mode: u32, size: u64, owner: u64, group: u64, time: u64) -> (r: Result<
    Vec<u8>,
    String,
>)
    ensures
        tar_header(name@, mode, size, owner, group, time) == (match r {
            Ok(header) => Ok(header@),
            Err(e) => Err(e@),
        }),
        r is Ok ==> r->Ok_0@.len() == BLOCK,
        fits(name@, mode) ==> r is Ok && says(r->Ok_0@, name@, mode, size),
{
    let mut header = tar::Header::new_ustar();
    header.set_path(name).map_err(|e| e.to_string())?;
    header.set_entry_type(tar::EntryType::Regular);
    header.set_mode(mode);
    header.set_size(size);
    header.set_uid(owner);
    header.set_gid(group);
    header.set_mtime(time);
    header.set_cksum();
    Ok(header.as_bytes().to_vec())
}

/// `tar::Builder::append` lays a member out: the header, the contents, and the
/// zero bytes that fill the last block.
#[verifier::external_body]
fn lay(header: &Vec<u8>, data: &Vec<u8>) -> (r: Result<Vec<u8>, String>)
    requires
        header@.len() == BLOCK,
    ensures
        r is Ok && r->Ok_0@ == laid(header@, data@),
{
    let mut archive = tar::Builder::new(Vec::new());
    let header = tar::Header::from_byte_slice(header);
    archive.append(header, data.as_slice()).map_err(|e| e.to_string())?;
    Ok(archive.get_ref().clone())
}

/// `tar::Builder::into_inner` ends an archive with two zero blocks.
#[verifier::external_body]
fn ending() -> (r: Result<Vec<u8>, String>)
    ensures
        r is Ok && r->Ok_0@ == zeros(2 * (BLOCK as nat)),
{
    tar::Builder::new(Vec::new()).into_inner().map_err(|e| e.to_string())
}

/// Refuse a name that a bundle cannot hold: one that is not a relative path of
/// plain components, naming a file.
pub fn check(name: &str) -> (r: Result<(), String>)
    ensures
        match r {
            Ok(_) => name_error(name@) is None,
            Err(e) => name_error(name@) == Some(e@),
        },
{
    let cs = text::chars_of(name);
    if cs.len() == 0 {
        return Err("A bundle cannot hold an entry with no name".to_string());
    }
    let mut i: usize = 0;
    let n: usize = cs.len();
    while i < n
        invariant
            i <= n == cs@.len(),
            cs@ == name@,
            forall|j: int| 0 <= j < i ==> name@[j] != '\0',
        decreases n - i,
    {
        if cs[i] == '\0' {
            assert(name@[i as int] == '\0');
            return Err("A bundle cannot hold a name with a NUL in it".to_string());
        }
        i += 1;
    }
    if cs[0] == '/' {
        return Err(refusal(name, ", which is an absolute path"));
    }
    if cs[n - 1] == '/' {
        return Err(refusal(name, ", which names a directory"));
    }
    let components = text::pieces(name, '/');
    let mut k: usize = 0;
    let m: usize = components.len();
    assert(text::texts(components@).skip(0) =~= text::texts(components@));
    while k < m
        invariant
            k <= m == components@.len(),
            component_error(name@, text::split(name@, '/')) == component_error(
                name@,
                text::texts(components@).skip(k as int),
            ),
            name_error(name@) == component_error(name@, text::split(name@, '/')),
        decreases m - k,
    {
        let ghost rest = text::texts(components@).skip(k as int);
        assert(rest[0] == components@[k as int]@);
        assert(rest.drop_first() =~= text::texts(components@).skip(k + 1));
        let component = components[k].as_str();
        if text::equal(component, "..") {
            return Err(refusal(name, ", which climbs out of the archive"));
        }
        if component.is_empty() || text::equal(component, ".") {
            return Err(refusal(name, ", whose path is not written plainly"));
        }
        k += 1;
    }
    Ok(())
}

/// The message that refuses a name.
fn refusal(name: &str, why: &str) -> (r: String)
    ensures
        r@ == "A bundle cannot hold "@ + name@ + why@,
{
    let mut r = "A bundle cannot hold ".to_string();
    r.append(name);
    r.append(why);
    r
}

/// What a member takes up in an archive.
pub open spec fn room(data: nat) -> nat {
    BLOCK as nat + data + padding(data)
}

/// What members take up in an archive.
pub open spec fn built(entries: Seq<Member>) -> nat
    decreases entries.len(),
{
    if entries.len() == 0 {
        0
    } else {
        built(entries.drop_last()) + room(entries.last().data.len())
    }
}

/// The zero bytes that fill the last record of so many bytes.
pub open spec fn filling(size: nat) -> nat {
    ((RECORD - size % (RECORD as nat)) % (RECORD as int)) as nat
}

/// What an archive takes up whose members take up so many bytes: two zero
/// blocks follow them, and then what fills the last record.
pub open spec fn ended(size: nat) -> nat {
    size + 2 * (BLOCK as nat) + filling(size + 2 * (BLOCK as nat))
}

/// What is wrong with a member that would follow so many bytes.  The archive
/// has to be within its limit with the end that it would have behind the
/// member.
pub open spec fn entry_error(behind: nat, entry: Member) -> Option<Seq<char>> {
    if name_error(entry.name) is Some {
        name_error(entry.name)
    } else if encode_utf8(entry.name).len() > MAX_NAME {
        Some(
            "A bundle cannot hold "@ + entry.name
                + ", whose name is longer than the 100 bytes of a header"@,
        )
    } else if entry.mode > 0o777 {
        Some(
            "A bundle cannot hold "@ + entry.name + " with the mode "@ + text::octal(
                entry.mode as nat,
            ) + ", which is more than a permission"@,
        )
    } else if ended(behind + room(entry.data.len())) > MAX_SIZE {
        Some(too_large_error())
    } else {
        None
    }
}

/// What is wrong with the first member that cannot be written.
pub open spec fn packing_error(entries: Seq<Member>) -> Option<Seq<char>>
    decreases entries.len(),
{
    if entries.len() == 0 {
        None
    } else if packing_error(entries.drop_last()) is Some {
        packing_error(entries.drop_last())
    } else {
        entry_error(built(entries.drop_last()), entries.last())
    }
}

/// The header of a member.  Nothing of the machine that writes it is in it: the
/// owner, the group and the time are zero.
pub open spec fn header_of(entry: Member) -> Result<Seq<u8>, Seq<char>> {
    tar_header(entry.name, entry.mode, entry.data.len() as u64, 0, 0, 0)
}

/// A member as a header and contents.
pub open spec fn part_of(entry: Member) -> (Seq<u8>, Seq<u8>) {
    (header_of(entry)->Ok_0, entry.data)
}

/// Members as headers and contents.
pub open spec fn parts_of(entries: Seq<Member>) -> Seq<(Seq<u8>, Seq<u8>)> {
    Seq::new(entries.len(), |i: int| part_of(entries[i]))
}

/// The archive that members are written to: each laid out behind the one
/// before, then two zero blocks, then what fills the last record.
pub open spec fn archive_of(entries: Seq<Member>) -> Seq<u8> {
    let body = laid_all(parts_of(entries)) + zeros(2 * (BLOCK as nat));
    body + zeros(filling(body.len()))
}

/// Whether the header of a member says what the member is.
pub open spec fn sealed(entry: Member) -> bool {
    &&& entry.data.len() <= MAX_SIZE
    &&& fits(entry.name, entry.mode)
    &&& header_of(entry) is Ok
    &&& header_of(entry)->Ok_0.len() == BLOCK
    &&& says(header_of(entry)->Ok_0, entry.name, entry.mode, entry.data.len() as u64)
}

/// Whether an archive holds these members and nothing else, and is no larger
/// than an archive may be.
pub open spec fn carries(archive: Seq<u8>, entries: Seq<Member>) -> bool {
    &&& archive.len() <= MAX_SIZE
    &&& archive == archive_of(entries)
    &&& forall|i: int| 0 <= i < entries.len() ==> sealed(#[trigger] entries[i])
}

/// The member that a header and contents are, or why a bundle cannot hold it.
pub open spec fn member_of(header: Seq<u8>, data: Seq<u8>) -> Result<Member, Seq<char>> {
    if !is_ustar(header) && !is_gnu(header) {
        Err("The archive is not in the ustar format"@)
    } else {
        match text::decoded(header_name(header)) {
            None => Err("The archive holds a name that is not valid UTF-8"@),
            Some(name) => if name_error(name) is Some {
                Err(name_error(name)->Some_0)
            } else if header_kind(header) != Kind::Regular {
                Err(
                    "The archive holds "@ + name + ", "@ + kind_text(header_kind(header))
                        + "; a bundle is regular files and nothing else"@,
                )
            } else {
                match (tar_mode(header), tar_size(header)) {
                    (Err(e), _) => Err("The archive does not say the mode of "@ + name + ": "@ + e),
                    (Ok(mode), size) => if mode > 0o777 {
                        Err(
                            "The archive holds "@ + name + " with the mode "@ + text::octal(
                                mode as nat,
                            ) + ", which is more than a permission"@,
                        )
                    } else {
                        match size {
                            Err(e) => Err(
                                "The archive does not say the size of "@ + name + ": "@ + e,
                            ),
                            Ok(size) => if data.len() != size {
                                Err("The archive ends in the middle of "@ + name)
                            } else {
                                Ok(Member { name, mode, data })
                            },
                        }
                    },
                }
            },
        }
    }
}

/// The members that were read, or why the first that a bundle cannot hold is
/// refused.
pub open spec fn unpacked(raw: Seq<Result<(Seq<u8>, Seq<u8>), Seq<char>>>) -> Result<
    Seq<Member>,
    Seq<char>,
>
    decreases raw.len(),
{
    if raw.len() == 0 {
        Ok(Seq::empty())
    } else {
        match unpacked(raw.drop_last()) {
            Err(e) => Err(e),
            Ok(entries) => match raw.last() {
                Err(e) => Err("The archive cannot be read: "@ + e),
                Ok((header, data)) => match member_of(header, data) {
                    Err(e) => Err(e),
                    Ok(entry) => Ok(entries.push(entry)),
                },
            },
        }
    }
}

/// What an archive holds, or why it is refused.
pub open spec fn held(archive: Seq<u8>) -> Result<Seq<Member>, Seq<char>> {
    if archive.len() > MAX_SIZE {
        Err(too_large_error())
    } else if archive.len() % (BLOCK as nat) != 0 {
        Err("The archive ends in the middle of a block"@)
    } else {
        unpacked(tar_members(archive))
    }
}

/// An archive, as it was written.
pub open spec fn members_read(r: Result<Vec<Entry>, String>) -> Result<Seq<Member>, Seq<char>> {
    match r {
        Ok(entries) => Ok(members_of(entries@)),
        Err(e) => Err(e@),
    }
}

proof fn lemma_unpacked_stops(raw: Seq<Result<(Seq<u8>, Seq<u8>), Seq<char>>>, i: int)
    requires
        0 <= i <= raw.len(),
        unpacked(raw.take(i)) is Err,
    ensures
        unpacked(raw) == unpacked(raw.take(i)),
    decreases raw.len() - i,
{
    if i == raw.len() {
        assert(raw.take(i) =~= raw);
    } else {
        assert(raw.take(i + 1).drop_last() =~= raw.take(i));
        lemma_unpacked_stops(raw, i + 1);
    }
}

proof fn lemma_packing_stops(entries: Seq<Member>, i: int)
    requires
        0 <= i <= entries.len(),
        packing_error(entries.take(i)) is Some,
    ensures
        packing_error(entries) == packing_error(entries.take(i)),
    decreases entries.len() - i,
{
    if i == entries.len() {
        assert(entries.take(i) =~= entries);
    } else {
        assert(entries.take(i + 1).drop_last() =~= entries.take(i));
        lemma_packing_stops(entries, i + 1);
    }
}

proof fn lemma_sealed_is_read(entries: Seq<Member>)
    requires
        forall|i: int| 0 <= i < entries.len() ==> sealed(#[trigger] entries[i]),
    ensures
        unpacked(all_read(parts_of(entries))) == Ok::<Seq<Member>, Seq<char>>(entries),
    decreases entries.len(),
{
    let raw = all_read(parts_of(entries));
    if entries.len() > 0 {
        let entry = entries.last();
        assert(sealed(entries[entries.len() - 1]));
        lemma_sealed_is_read(entries.drop_last());
        assert(raw.drop_last() =~= all_read(parts_of(entries.drop_last())));
        encode_utf8_valid_utf8(entry.name);
        encode_utf8_decode_utf8(entry.name);
        assert(member_of(header_of(entry)->Ok_0, entry.data) == Ok::<Member, Seq<char>>(entry));
        assert(entries.drop_last().push(entry) =~= entries);
    } else {
        assert(entries =~= Seq::empty());
    }
}

proof fn lemma_archive_blocks(entries: Seq<Member>)
    ensures
        archive_of(entries).len() % (BLOCK as nat) == 0,
{
    let body = laid_all(parts_of(entries)) + zeros(2 * (BLOCK as nat));
    let n = body.len() as int;
    assert(archive_of(entries).len() == n + filling(body.len()));
    assert((n + (RECORD - n % 10240) % 10240) % 10240 == 0);
}

proof fn lemma_carried_is_read(archive: Seq<u8>, entries: Seq<Member>)
    requires
        carries(archive, entries),
        forall|members: Seq<(Seq<u8>, Seq<u8>)>, n: nat|
            n >= BLOCK && made(members) && archive == #[trigger] laid_all(members) + #[trigger] zeros(n)
                ==> tar_members(archive) == all_read(members),
    ensures
        unpacked(tar_members(archive)) == Ok::<Seq<Member>, Seq<char>>(entries),
{
    let parts = parts_of(entries);
    assert forall|i: int| 0 <= i < parts.len() implies made_for(#[trigger] parts[i]) by {
        let entry = entries[i];
        assert(sealed(entry));
        assert(tar_header(entry.name, entry.mode, entry.data.len() as u64, 0, 0, 0) == Ok::<
            Seq<u8>,
            Seq<char>,
        >(parts[i].0));
    }
    let body = laid_all(parts) + zeros(2 * (BLOCK as nat));
    let n = 2 * (BLOCK as nat) + filling(body.len());
    assert(archive =~= laid_all(parts) + zeros(n));
    lemma_sealed_is_read(entries);
}

proof fn lemma_laid_len(entries: Seq<Member>)
    requires
        forall|i: int| 0 <= i < entries.len() ==> sealed(#[trigger] entries[i]),
    ensures
        laid_all(parts_of(entries)).len() == built(entries),
    decreases entries.len(),
{
    if entries.len() > 0 {
        assert(sealed(entries[entries.len() - 1]));
        lemma_laid_len(entries.drop_last());
        assert(parts_of(entries).drop_last() =~= parts_of(entries.drop_last()));
        assert(parts_of(entries).last() == part_of(entries.last()));
    } else {
        assert(parts_of(entries) =~= Seq::empty());
    }
}

/// An archive is its members, each from a header of one block to the end of a
/// block, and behind them two blocks and the rest of a record in which every
/// byte is zero.
pub proof fn law_an_archive_ends_in_zeros(archive: Seq<u8>, entries: Seq<Member>)
    requires
        carries(archive, entries),
    ensures
        archive.len() == ended(built(entries)),
        archive.len() % (RECORD as nat) == 0,
        forall|i: int| built(entries) <= i < archive.len() ==> #[trigger] archive[i] == 0,
{
    lemma_laid_len(entries);
    let n = built(entries) + 1024;
    assert((n + (10240 - n % 10240) % 10240) % 10240 == 0);
}

proof fn lemma_packing_next(all: Seq<Member>, i: int)
    requires
        0 <= i < all.len(),
        packing_error(all.take(i)) is None,
    ensures
        packing_error(all.take(i + 1)) == entry_error(built(all.take(i)), all[i]),
        packing_error(all.take(i + 1)) is Some ==> packing_error(all) == packing_error(
            all.take(i + 1),
        ),
{
    assert(all.take(i + 1).drop_last() =~= all.take(i));
    if packing_error(all.take(i + 1)) is Some {
        lemma_packing_stops(all, i + 1);
    }
}

proof fn lemma_laid_next(all: Seq<Member>, i: int)
    requires
        0 <= i < all.len(),
        built(all.take(i)) % (BLOCK as nat) == 0,
        header_of(all[i])->Ok_0.len() == BLOCK,
    ensures
        laid_all(parts_of(all.take(i + 1))) == laid_all(parts_of(all.take(i))) + laid(
            header_of(all[i])->Ok_0,
            all[i].data,
        ),
        laid(header_of(all[i])->Ok_0, all[i].data).len() == room(all[i].data.len()),
        built(all.take(i + 1)) == built(all.take(i)) + room(all[i].data.len()),
        built(all.take(i + 1)) % (BLOCK as nat) == 0,
{
    let more = all.take(i + 1);
    assert(more.drop_last() =~= all.take(i));
    assert(parts_of(more).drop_last() =~= parts_of(all.take(i)));
    assert(parts_of(more).last() == part_of(all[i]));
    lemma_room(built(all.take(i)), all[i].data.len());
}

proof fn lemma_room(behind: nat, data: nat)
    requires
        behind % 512 == 0,
    ensures
        (behind + room(data)) % 512 == 0,
{
    let q = behind / 512;
    let d = data / 512;
    let m = data % 512;
    assert(data == 512 * d + m);
    assert(behind == 512 * q);
    if m == 0 {
        assert(padding(data) == 0);
        assert(behind + room(data) == 512 * (q + 1 + d));
    } else {
        assert(padding(data) == 512 - m);
        assert(behind + room(data) == 512 * (q + 2 + d));
    }
}

/// A member as it lies in an archive behind so many bytes.
fn lay_entry(behind: usize, entry: &Entry) -> (r: Result<Vec<u8>, String>)
    requires
        behind <= MAX_SIZE,
    ensures
        match r {
            Ok(bytes) => {
                &&& entry_error(behind as nat, entry@) is None
                &&& sealed(entry@)
                &&& bytes@ == laid(header_of(entry@)->Ok_0, entry.data@)
                &&& header_of(entry@)->Ok_0.len() == BLOCK
            },
            Err(e) => entry_error(behind as nat, entry@) == Some(e@),
        },
{
    if let Err(e) = check(entry.name.as_str()) {
        return Err(e);
    }
    if entry.name.as_str().as_bytes().len() > MAX_NAME {
        return Err(
            refusal(entry.name.as_str(), ", whose name is longer than the 100 bytes of a header"),
        );
    }
    if entry.mode > 0o777 {
        let mut r = refusal(entry.name.as_str(), " with the mode ");
        r.append(text::octal_of(entry.mode).as_str());
        r.append(", which is more than a permission");
        return Err(r);
    }
    if entry.data.len() > MAX_SIZE {
        return Err(too_large());
    }
    let size: usize = entry.data.len();
    let body: usize = behind + BLOCK + size + (BLOCK - size % BLOCK) % BLOCK + 2 * BLOCK;
    if body + (RECORD - body % RECORD) % RECORD > MAX_SIZE {
        return Err(too_large());
    }
    match make_header(entry.name.as_str(), entry.mode, entry.data.len() as u64, 0, 0, 0) {
        Ok(header) => lay(&header, &entry.data),
        Err(e) => {
            let mut r = refusal(entry.name.as_str(), ": ");
            r.append(e.as_str());
            Err(r)
        },
    }
}

/// Write the members into an archive, in the order they are given.
pub fn write(entries: &[Entry]) -> (r: Result<Vec<u8>, String>)
    ensures
        match r {
            Ok(archive) => {
                &&& packing_error(members_of(entries@)) is None
                &&& carries(archive@, members_of(entries@))
                &&& archive@.len() == ended(built(members_of(entries@)))
                &&& archive@.len() % (RECORD as nat) == 0
            },
            Err(e) => packing_error(members_of(entries@)) == Some(e@),
        },
{
    let ghost all = members_of(entries@);
    let mut archive: Vec<u8> = Vec::new();
    let n: usize = entries.len();
    let mut i: usize = 0;
    assert(parts_of(all.take(0)) =~= Seq::empty());
    while i < n
        invariant
            i <= n == entries@.len(),
            all == members_of(entries@),
            archive@ == laid_all(parts_of(all.take(i as int))),
            archive@.len() == built(all.take(i as int)),
            ended(archive@.len()) <= MAX_SIZE,
            archive@.len() % (BLOCK as nat) == 0,
            packing_error(all.take(i as int)) is None,
            forall|j: int| 0 <= j < i ==> sealed(#[trigger] all[j]),
        decreases n - i,
    {
        let entry = &entries[i];
        proof {
            lemma_packing_next(all, i as int);
        }
        match lay_entry(archive.len(), entry) {
            Ok(mut bytes) => {
                proof {
                    lemma_laid_next(all, i as int);
                }
                archive.append(&mut bytes);
            },
            Err(e) => {
                return Err(e);
            },
        }
        i += 1;
    }
    assert(all.take(n as int) =~= all);
    match ending() {
        Ok(mut bytes) => {
            archive.append(&mut bytes);
        },
        Err(e) => {
            return Err(e);
        },
    }
    let ghost body = archive@;
    let whole: usize = archive.len();
    let fill: usize = (RECORD - whole % RECORD) % RECORD;
    archive.resize(whole + fill, 0u8);
    assert(archive@ =~= body + zeros(filling(body.len())));
    Ok(archive)
}

/// The message for an archive that is too large.
fn too_large() -> (r: String)
    ensures
        r@ == too_large_error(),
{
    "The archive is larger than the 32 MiB that a bundle may hold".to_string()
}

/// The member that a header and contents are.
pub fn member(header: &Vec<u8>, data: Vec<u8>) -> (r: Result<Entry, String>)
    requires
        header@.len() == BLOCK,
    ensures
        member_of(header@, data@) == (match r {
            Ok(entry) => Ok(entry@),
            Err(e) => Err(e@),
        }),
{
    if !ustar(header) && !gnu(header) {
        return Err("The archive is not in the ustar format".to_string());
    }
    let name = match text::from_utf8(name_bytes(header)) {
        Ok(name) => name,
        Err(_) => {
            return Err("The archive holds a name that is not valid UTF-8".to_string());
        },
    };
    if let Err(e) = check(name.as_str()) {
        return Err(e);
    }
    let kind = kind(header);
    if kind != Kind::Regular {
        let mut r = "The archive holds ".to_string();
        r.append(name.as_str());
        r.append(", ");
        r.append(describe(kind));
        r.append("; a bundle is regular files and nothing else");
        return Err(r);
    }
    let mode = match mode(header) {
        Ok(mode) => mode,
        Err(e) => {
            let mut r = "The archive does not say the mode of ".to_string();
            r.append(name.as_str());
            r.append(": ");
            r.append(e.as_str());
            return Err(r);
        },
    };
    if mode > 0o777 {
        let mut r = "The archive holds ".to_string();
        r.append(name.as_str());
        r.append(" with the mode ");
        r.append(text::octal_of(mode).as_str());
        r.append(", which is more than a permission");
        return Err(r);
    }
    let size = match size(header) {
        Ok(size) => size,
        Err(e) => {
            let mut r = "The archive does not say the size of ".to_string();
            r.append(name.as_str());
            r.append(": ");
            r.append(e.as_str());
            return Err(r);
        },
    };
    if data.len() as u64 != size {
        let mut r = "The archive ends in the middle of ".to_string();
        r.append(name.as_str());
        return Err(r);
    }
    Ok(Entry::new(name, mode, data))
}

/// Read the members of an archive.
///
/// Everything that is not a regular file with a name under the archive is an
/// error and not something to skip.  What was written is read back: an archive
/// that carries members gives those members.
pub fn read(archive: &[u8]) -> (r: Result<Vec<Entry>, String>)
    ensures
        members_read(r) == held(archive@),
        forall|entries: Seq<Member>|
            #[trigger] carries(archive@, entries) ==> members_read(r) == Ok::<
                Seq<Member>,
                Seq<char>,
            >(entries),
{
    if archive.len() > MAX_SIZE {
        return Err(too_large());
    }
    proof {
        assert forall|entries: Seq<Member>| #[trigger] carries(archive@, entries) implies archive@.len() % (
        BLOCK as nat) == 0 by {
            lemma_archive_blocks(entries);
        }
    }
    if archive.len() % BLOCK != 0 {
        return Err("The archive ends in the middle of a block".to_string());
    }
    let arrived = read_members(archive);
    let ghost parts = raw_all(arrived@);
    proof {
        assert forall|entries: Seq<Member>| #[trigger] carries(archive@, entries) implies unpacked(parts) == Ok::<
            Seq<Member>,
            Seq<char>,
        >(entries) by {
            lemma_carried_is_read(archive@, entries);
        }
    }
    let ghost held_all = arrived@;
    let n: usize = arrived.len();
    let mut entries: Vec<Entry> = Vec::new();
    let mut i: usize = 0;
    assert(parts.take(0) =~= Seq::empty());
    assert(members_of(entries@) =~= Seq::empty());
    for item in it: arrived
        invariant
            i == it.index(),
            it.seq() == held_all,
            parts == raw_all(held_all),
            unpacked(parts.take(i as int)) == Ok::<Seq<Member>, Seq<char>>(members_of(entries@)),
            forall|j: int|
                0 <= j < held_all.len() ==> (#[trigger] held_all[j] matches Ok(part) ==> part.0@.len()
                    == BLOCK),
            held_all.len() == n,
            archive@.len() <= MAX_SIZE,
            archive@.len() % (BLOCK as nat) == 0,
            parts == tar_members(archive@),
            forall|entries: Seq<Member>|
                #[trigger] carries(archive@, entries) ==> unpacked(parts) == Ok::<
                    Seq<Member>,
                    Seq<char>,
                >(entries),
    {
        let ghost more = parts.take(i + 1);
        proof {
            assert(more.drop_last() =~= parts.take(i as int));
            assert(item == held_all[i as int]);
            assert(more.last() == raw(held_all[i as int]));
            if unpacked(more) is Err {
                lemma_unpacked_stops(parts, i + 1);
            }
        }
        match item {
            Ok(part) => {
                match member(&part.0, part.1) {
                    Ok(entry) => {
                        let ghost before = members_of(entries@);
                        entries.push(entry);
                        assert(members_of(entries@) =~= before.push(entry@));
                    },
                    Err(e) => {
                        return Err(e);
                    },
                }
            },
            Err(e) => {
                let mut r = "The archive cannot be read: ".to_string();
                r.append(e.as_str());
                return Err(r);
            },
        }
        i += 1;
    }
    assert(parts.take(parts.len() as int) =~= parts);
    Ok(entries)
}

/// A name can be held when it is not empty, has no NUL, neither begins nor
/// ends at a separator, and goes through plain names alone.
pub proof fn law_a_name_is_held_when_it_is_plain(name: Seq<char>)
    ensures
        name_error(name) is None <==> {
            &&& name.len() > 0
            &&& !name.contains('\0')
            &&& name[0] != '/'
            &&& name.last() != '/'
            &&& forall|i: int|
                0 <= i < text::split(name, '/').len() ==> {
                    &&& (#[trigger] text::split(name, '/')[i]).len() > 0
                    &&& text::split(name, '/')[i] != "."@
                    &&& text::split(name, '/')[i] != ".."@
                }
        },
{
    lemma_components(name, text::split(name, '/'));
}

proof fn lemma_components(name: Seq<char>, components: Seq<Seq<char>>)
    ensures
        component_error(name, components) is None <==> forall|i: int|
            0 <= i < components.len() ==> {
                &&& (#[trigger] components[i]).len() > 0
                &&& components[i] != "."@
                &&& components[i] != ".."@
            },
    decreases components.len(),
{
    if components.len() > 0 {
        let rest = components.drop_first();
        lemma_components(name, rest);
        assert(forall|i: int| 0 <= i < rest.len() ==> #[trigger] rest[i] == components[i + 1]);
        if component_error(name, components) is None {
            assert forall|i: int| 0 <= i < components.len() implies {
                &&& (#[trigger] components[i]).len() > 0
                &&& components[i] != "."@
                &&& components[i] != ".."@
            } by {
                if i > 0 {
                    assert(rest[i - 1] == components[i]);
                }
            }
        } else if forall|i: int|
            0 <= i < components.len() ==> {
                &&& (#[trigger] components[i]).len() > 0
                &&& components[i] != "."@
                &&& components[i] != ".."@
            } {
            assert(components[0].len() > 0);
            assert forall|i: int| 0 <= i < rest.len() implies {
                &&& (#[trigger] rest[i]).len() > 0
                &&& rest[i] != "."@
                &&& rest[i] != ".."@
            } by {
                assert(rest[i] == components[i + 1]);
            }
        }
    }
}

/// An entry takes a block for its header and whole blocks for its bytes, and
/// an archive whole records, with at least two blocks of zeros at its end.
pub proof fn law_an_archive_is_made_of_whole_blocks(size: nat)
    ensures
        (size + padding(size)) % 512 == 0,
        padding(size) < 512,
        room(size) == 512 + size + padding(size),
        ended(size) % 10240 == 0,
        size + 1024 <= ended(size) < size + 1024 + 10240,
{
    lemma_rounds(size as int, 512);
    lemma_rounds(size as int + 1024, 10240);
}

proof fn lemma_rounds(n: int, unit: int)
    requires
        n >= 0,
        unit == 512 || unit == 10240,
    ensures
        (n + (unit - n % unit) % unit) % unit == 0,
        0 <= (unit - n % unit) % unit < unit,
{
}

/// More entries take more room, each its own.
pub proof fn law_every_entry_takes_its_room(entries: Seq<Member>, entry: Member)
    ensures
        built(Seq::empty()) == 0,
        built(entries.push(entry)) == built(entries) + 512 + entry.data.len() + padding(
            entry.data.len(),
        ),
{
    assert(entries.push(entry).drop_last() =~= entries);
}

/// An entry is refused for a name that cannot be held, for a name that does
/// not fit, for a mode that is more than permissions, and when the archive
/// would be too large; every other is taken.
pub proof fn law_an_entry_is_taken_when_it_fits(entries: Seq<Member>, entry: Member)
    requires
        packing_error(entries) is None,
    ensures
        packing_error(Seq::empty()) is None,
        packing_error(entries.push(entry)) is None <==> {
            &&& name_error(entry.name) is None
            &&& encode_utf8(entry.name).len() <= 100
            &&& entry.mode <= 0o777
            &&& ended(built(entries) + 512 + entry.data.len() + padding(entry.data.len()))
                <= 33554432
        },
{
    assert(entries.push(entry).drop_last() =~= entries);
}

/// What the archive says of an entry is what is read of it: only a regular
/// file whose bytes are all there, with a plain name and a mode that is
/// permissions.
pub proof fn law_a_member_is_what_its_header_says(header: Seq<u8>, data: Seq<u8>)
    ensures
        member_of(header, data) is Ok <==> {
            &&& is_ustar(header) || is_gnu(header)
            &&& text::decoded(header_name(header)) is Some
            &&& name_error(text::decoded(header_name(header))->0) is None
            &&& header_kind(header) == Kind::Regular
            &&& tar_mode(header) is Ok
            &&& tar_mode(header)->Ok_0 <= 0o777
            &&& tar_size(header) == Ok::<u64, Seq<char>>(data.len() as u64) && data.len() <= u64::MAX
        },
        member_of(header, data) matches Ok(m) ==> {
            &&& m.name == text::decoded(header_name(header))->0
            &&& m.mode == tar_mode(header)->Ok_0
            &&& m.data == data
        },
{
}

/// A header says the kind of its entry with one byte: a regular file with a
/// zero, as a byte or as a digit, and no other kind with either.
pub proof fn law_a_regular_file_is_known_by_a_zero(header: Seq<u8>)
    ensures
        header_kind(header) == Kind::Regular <==> header[156] == 0 || header[156] == 48,
        header_kind(header) == Kind::Link <==> header[156] == 49,
        header_kind(header) == Kind::Symlink <==> header[156] == 50,
        header_kind(header) == Kind::Directory <==> header[156] == 53,
        header_kind(header) == Kind::Extension <==> header[156] == 103 || header[156] == 120,
        header_kind(header) == Kind::LongName <==> header[156] == 75 || header[156] == 76,
{
}

/// A name in a header ends before its first NUL.
pub proof fn law_a_field_ends_at_its_first_zero(s: Seq<u8>, rest: Seq<u8>)
    requires
        forall|i: int| 0 <= i < s.len() ==> s[i] != 0,
    ensures
        truncated(s) == s,
        truncated(s + seq![0u8] + rest) == s,
    decreases s.len(),
{
    let whole = s + seq![0u8] + rest;
    if s.len() == 0 {
        assert(whole[0] == 0);
        assert(truncated(whole) =~= s);
        assert(truncated(s) =~= s);
    } else {
        let less = s.drop_first();
        assert forall|i: int| 0 <= i < less.len() implies less[i] != 0 by {
            assert(less[i] == s[i + 1]);
        }
        law_a_field_ends_at_its_first_zero(less, rest);
        assert(whole.drop_first() =~= less + seq![0u8] + rest);
        assert(whole[0] == s[0] && s[0] != 0);
        assert(truncated(whole) =~= s);
        assert(truncated(s) =~= s);
    }
}

/// An archive is read entry by entry, and one entry that is refused refuses
/// the archive, as does one that is too large or ends in the middle of a
/// block.
pub proof fn law_an_archive_is_read_entry_by_entry(
    before: Seq<Result<(Seq<u8>, Seq<u8>), Seq<char>>>,
    header: Seq<u8>,
    data: Seq<u8>,
    archive: Seq<u8>,
)
    ensures
        unpacked(Seq::empty()) == Ok::<Seq<Member>, Seq<char>>(Seq::empty()),
        unpacked(before) is Err ==> unpacked(before.push(Ok((header, data)))) is Err,
        unpacked(before) is Ok && member_of(header, data) is Err ==> unpacked(
            before.push(Ok((header, data))),
        ) is Err,
        unpacked(before) is Ok && member_of(header, data) is Ok ==> unpacked(
            before.push(Ok((header, data))),
        ) == Ok::<Seq<Member>, Seq<char>>(
            unpacked(before)->Ok_0.push(member_of(header, data)->Ok_0),
        ),
        forall|e: Seq<char>| (#[trigger] unpacked(before.push(Err(e)))) is Err,
        archive.len() > 33554432 ==> held(archive) is Err,
        archive.len() % 512 != 0 ==> held(archive) is Err,
        archive.len() <= 33554432 && archive.len() % 512 == 0 ==> held(archive) == unpacked(
            tar_members(archive),
        ),
{
    assert(before.push(Ok((header, data))).drop_last() =~= before);
    assert forall|e: Seq<char>| (#[trigger] unpacked(before.push(Err(e)))) is Err by {
        assert(before.push(Err(e)).drop_last() =~= before);
    }
}

/// The name of an entry is that of its header, behind its prefix and a
/// separator where the format has one and it says one.
pub proof fn law_a_long_name_is_in_two_fields(header: Seq<u8>)
    ensures
        !is_ustar(header) ==> header_name(header) == truncated(header.subrange(0, 100)),
        is_ustar(header) && header[345] == 0 && header.len() >= 500 ==> header_name(header) == truncated(
            header.subrange(0, 100),
        ),
        is_ustar(header) && header[345] != 0 && header.len() >= 500 ==> header_name(header) == truncated(
            header.subrange(345, 500),
        ) + seq![47u8] + truncated(header.subrange(0, 100)),
{
    if header.len() >= 500 {
        let prefix = header.subrange(345, 500);
        assert(prefix[0] == header[345]);
    }
}

/// The format of a header is the one that its magic says.
pub proof fn law_a_header_says_its_format(header: Seq<u8>)
    requires
        header.len() == 512,
    ensures
        is_ustar(header) <==> header[257] == 117 && header[258] == 115 && header[259] == 116
            && header[260] == 97 && header[261] == 114 && header[262] == 0 && header[263] == 48
            && header[264] == 48,
        is_gnu(header) <==> header[257] == 117 && header[258] == 115 && header[259] == 116
            && header[260] == 97 && header[261] == 114 && header[262] == 32 && header[263] == 32
            && header[264] == 0,
{
    let magic = header.subrange(257, 265);
    assert(magic[0] == header[257] && magic[1] == header[258] && magic[2] == header[259] && magic[3]
        == header[260] && magic[4] == header[261] && magic[5] == header[262] && magic[6]
        == header[263] && magic[7] == header[264]);
    let ustar = seq![0x75u8, 0x73, 0x74, 0x61, 0x72, 0, 0x30, 0x30];
    let gnu = seq![0x75u8, 0x73, 0x74, 0x61, 0x72, 0x20, 0x20, 0];
    if header[257] == 117 && header[258] == 115 && header[259] == 116 && header[260] == 97
        && header[261] == 114 && header[262] == 0 && header[263] == 48 && header[264] == 48 {
        assert(magic =~= ustar);
    }
    if header[257] == 117 && header[258] == 115 && header[259] == 116 && header[260] == 97
        && header[261] == 114 && header[262] == 32 && header[263] == 32 && header[264] == 0 {
        assert(magic =~= gnu);
    }
}

/// An entry is its header, its bytes as they are, and zeros up to the end of
/// the block; entries come one behind the other.
pub proof fn law_an_entry_is_laid_behind_its_header(
    members: Seq<(Seq<u8>, Seq<u8>)>,
    header: Seq<u8>,
    data: Seq<u8>,
    i: int,
)
    ensures
        laid(header, data).len() == header.len() + data.len() + padding(data.len()),
        laid(header, data).take(header.len() as int) == header,
        laid(header, data).subrange(header.len() as int, (header.len() + data.len()) as int) == data,
        header.len() + data.len() <= i < laid(header, data).len() ==> laid(header, data)[i] == 0,
        laid_all(Seq::empty()).len() == 0,
        laid_all(members.push((header, data))) == laid_all(members) + laid(header, data),
{
    let whole = laid(header, data);
    assert(whole.take(header.len() as int) =~= header);
    assert(whole.subrange(header.len() as int, (header.len() + data.len()) as int) =~= data);
    assert(members.push((header, data)).drop_last() =~= members);
}

/// An archive holds nothing of who made it or when.
pub proof fn law_a_header_is_the_same_for_everybody(entry: Member, i: int, entries: Seq<Member>)
    ensures
        header_of(entry) == tar_header(entry.name, entry.mode, entry.data.len() as u64, 0, 0, 0),
        parts_of(entries).len() == entries.len(),
        0 <= i < entries.len() ==> parts_of(entries)[i].1 == entries[i].data && (header_of(
            entries[i],
        ) matches Ok(h) ==> parts_of(entries)[i].0 == h),
{
}

} // verus!
