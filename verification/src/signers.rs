//! Who may sign for a system, and what a signature is worth there.
//!
//! A signature is in the format that `ssh-keygen -Y` writes.  It is worth
//! something where the key that made it is one that the system allows, and
//! where it was made for the use that it is put to.

use vstd::prelude::*;

use crate::provider::said;
use crate::text;
use crate::var::Read;

verus! {

/// A public key, as `ssh_key` holds it.
#[verifier::external_type_specification]
#[verifier::external_body]
pub struct ExPublicKey(ssh_key::PublicKey);

/// A signature, as `ssh_key` holds it.
#[verifier::external_type_specification]
#[verifier::external_body]
pub struct ExSshSig(ssh_key::SshSig);

/// A private key, as `ssh_key` holds it.
#[verifier::external_type_specification]
#[verifier::external_body]
pub struct ExPrivateKey(ssh_key::PrivateKey);

/// A signature as plain values: the key that made it, what it was made for,
/// and everything else in it.
pub struct Stamp {
    pub key: Seq<u8>,
    pub namespace: Seq<char>,
    pub rest: Seq<u8>,
}

/// A private key as plain values: its public half, whether it is encrypted,
/// and the key whole.
pub struct Secret {
    pub public: Seq<u8>,
    pub encrypted: bool,
    pub whole: Seq<u8>,
}

/// The key data of a public key, which is the key without its comment.
pub uninterp spec fn key_data(key: ssh_key::PublicKey) -> Seq<u8>;

/// What a signature holds.
pub uninterp spec fn stamp(signature: ssh_key::SshSig) -> Stamp;

/// What a private key is.
pub uninterp spec fn secret(key: ssh_key::PrivateKey) -> Secret;

/// The key data that `PublicKey::from_openssh` reads in a text, or its
/// complaint.
pub uninterp spec fn key_reading(t: Seq<char>) -> Result<Seq<u8>, Seq<char>>;

/// The signature that `SshSig::from_pem` reads in bytes, or its complaint.
pub uninterp spec fn stamp_reading(bytes: Seq<u8>) -> Result<Stamp, Seq<char>>;

/// The private key that `PrivateKey::from_openssh` reads in a text, or its
/// complaint.
pub uninterp spec fn secret_reading(t: Seq<char>) -> Result<Secret, Seq<char>>;

/// The signature that `SshSig::sign` makes with a private key over a message,
/// under SHA-512, or its complaint.
pub uninterp spec fn sealing(private: Seq<u8>, namespace: Seq<char>, message: Seq<u8>) -> Result<
    Stamp,
    Seq<char>,
>;

/// What `SshSig::to_pem` writes of a signature, or its complaint.
pub uninterp spec fn stamp_writing(s: Stamp) -> Result<Seq<u8>, Seq<char>>;

/// What `PublicKey::verify` says of a signature over a message.
pub uninterp spec fn verification(
    key: Seq<u8>,
    namespace: Seq<char>,
    message: Seq<u8>,
    s: Stamp,
) -> Result<(), Seq<char>>;

/// `PublicKey::from_openssh` reads a public key in the format of OpenSSH.
#[verifier::external_body]
fn parse_key(t: &str) -> (r: Result<ssh_key::PublicKey, String>)
    ensures
        key_reading(t@) == (match r {
            Ok(key) => Ok(key_data(key)),
            Err(e) => Err(e@),
        }),
{
    ssh_key::PublicKey::from_openssh(t).map_err(|e| e.to_string())
}

/// `SshSig::from_pem` reads a signature in the format of `ssh-keygen -Y`.
#[verifier::external_body]
fn parse_stamp(bytes: &[u8]) -> (r: Result<ssh_key::SshSig, String>)
    ensures
        stamp_reading(bytes@) == (match r {
            Ok(signature) => Ok(stamp(signature)),
            Err(e) => Err(e@),
        }),
{
    ssh_key::SshSig::from_pem(bytes).map_err(|e| e.to_string())
}

/// `PrivateKey::from_openssh` reads a private key in the format of OpenSSH.
#[verifier::external_body]
fn parse_secret(t: &str) -> (r: Result<ssh_key::PrivateKey, String>)
    ensures
        secret_reading(t@) == (match r {
            Ok(key) => Ok(secret(key)),
            Err(e) => Err(e@),
        }),
{
    ssh_key::PrivateKey::from_openssh(t).map_err(|e| e.to_string())
}

/// `SshSig::to_pem` writes a signature down, with line feeds between its lines.
/// What it writes is read back as the signature that it was.
#[verifier::external_body]
fn write_stamp(signature: &ssh_key::SshSig) -> (r: Result<Vec<u8>, String>)
    ensures
        stamp_writing(stamp(*signature)) == (match r {
            Ok(bytes) => Ok(bytes@),
            Err(e) => Err(e@),
        }),
        (r is Ok ==> stamp_reading(r->Ok_0@) is Ok && stamp_reading(r->Ok_0@)->Ok_0 == stamp(
            *signature,
        )),
{
    match signature.to_pem(ssh_key::LineEnding::LF) {
        Ok(pem) => Ok(pem.into_bytes()),
        Err(e) => Err(e.to_string()),
    }
}

/// `PublicKey::key_data` is equal to `SshSig::public_key` where the signature
/// names the key as the one that made it.
#[verifier::external_body]
fn names_key(signature: &ssh_key::SshSig, key: &ssh_key::PublicKey) -> (r: bool)
    ensures
        r == (key_data(*key) == stamp(*signature).key),
{
    key.key_data() == signature.public_key()
}

/// `PublicKey::verify` holds a signature against a message.  A signature that
/// names another key, or that was made for something else, is refused.
#[verifier::external_body]
fn verify(
    key: &ssh_key::PublicKey,
    namespace: &str,
    message: &[u8],
    signature: &ssh_key::SshSig,
) -> (r: Result<(), String>)
    ensures
        verification(key_data(*key), namespace@, message@, stamp(*signature)) == (match r {
            Ok(_) => Ok(()),
            Err(e) => Err(e@),
        }),
        (r is Ok ==> key_data(*key) == stamp(*signature).key && namespace@ == stamp(
            *signature,
        ).namespace),
{
    key.verify(namespace, message, signature).map_err(|e| e.to_string())
}

/// `PrivateKey::is_encrypted` tells whether a passphrase is needed to use a key.
#[verifier::external_body]
fn is_encrypted(key: &ssh_key::PrivateKey) -> (r: bool)
    ensures
        r == secret(*key).encrypted,
{
    key.is_encrypted()
}

/// `SshSig::sign` signs a message under SHA-512.  Of the algorithms that
/// `ssh_key` knows, Ed25519 is the one that signs here, and it draws no random
/// number: the key, the namespace and the message decide the signature.  The
/// signature names the public half of the key and what it was made for, and is
/// verified by that public half.
#[verifier::external_body]
fn make(key: &ssh_key::PrivateKey, namespace: &str, message: &[u8]) -> (r: Result<
    ssh_key::SshSig,
    String,
>)
    ensures
        sealing(secret(*key).whole, namespace@, message@) == (match r {
            Ok(signature) => Ok(stamp(signature)),
            Err(e) => Err(e@),
        }),
        (r is Ok ==> stamp(r->Ok_0).key == secret(*key).public && stamp(r->Ok_0).namespace
            == namespace@ && verification(
            secret(*key).public,
            namespace@,
            message@,
            stamp(r->Ok_0),
        ) is Ok),
{
    ssh_key::SshSig::sign(key, namespace, ssh_key::HashAlg::Sha512, message).map_err(
        |e| e.to_string(),
    )
}

/// A key that a system allows, and the principals that it is vouched for as.
pub struct Voucher {
    pub principals: Seq<char>,
    pub key: Seq<u8>,
}

/// Allowed keys, as plain values.
pub open spec fn vouchers(s: Seq<(String, ssh_key::PublicKey)>) -> Seq<Voucher> {
    Seq::new(s.len(), |i: int| Voucher { principals: s[i].0@, key: key_data(s[i].1) })
}

/// Allowed keys that were read.
pub open spec fn vouched(r: Result<Vec<(String, ssh_key::PublicKey)>, String>) -> Result<
    Seq<Voucher>,
    Seq<char>,
> {
    match r {
        Ok(s) => Ok(vouchers(s@)),
        Err(e) => Err(e@),
    }
}

/// Where a line is, said for a message.
pub open spec fn place_of(file: Seq<char>, at: nat) -> Seq<char> {
    "Line "@ + text::decimal(at) + " of "@ + file
}

/// What is said of a line whose key cannot be read.
pub open spec fn unreadable(file: Seq<char>, at: nat, e: Seq<char>) -> Seq<char> {
    place_of(file, at) + " does not hold a key that can be read: "@ + e
        + ".  An allowed signer is written `principals keytype key`; the options that the format allows between the two narrow what a key may sign and are not read here"@
}

/// The key that a line allows, if it allows one.
pub open spec fn line_voucher(file: Seq<char>, at: nat, line: Seq<char>) -> Result<
    Option<Voucher>,
    Seq<char>,
> {
    let line = text::trim(line);
    if line.len() == 0 || line[0] == '#' {
        Ok(None)
    } else {
        match text::cut(line) {
            None => Err(place_of(file, at) + " names a signer and no key"@),
            Some((principals, key)) => match key_reading(text::trim(key)) {
                Err(e) => Err(unreadable(file, at, e)),
                Ok(key) => Ok(Some(Voucher { principals, key })),
            },
        }
    }
}

/// The keys that lines allow.
pub open spec fn line_vouchers(file: Seq<char>, lines: Seq<Seq<char>>) -> Result<
    Seq<Voucher>,
    Seq<char>,
>
    decreases lines.len(),
{
    if lines.len() == 0 {
        Ok(Seq::empty())
    } else {
        match line_vouchers(file, lines.drop_last()) {
            Err(e) => Err(e),
            Ok(before) => match line_voucher(file, lines.len(), lines.last()) {
                Err(e) => Err(e),
                Ok(None) => Ok(before),
                Ok(Some(v)) => Ok(before.push(v)),
            },
        }
    }
}

/// The keys that files allow.
pub open spec fn file_vouchers(files: Seq<(String, Read)>) -> Result<Seq<Voucher>, Seq<char>>
    decreases files.len(),
{
    if files.len() == 0 {
        Ok(Seq::empty())
    } else {
        match file_vouchers(files.drop_last()) {
            Err(e) => Err(e),
            Ok(before) => match files.last().1 {
                Err(e) => Err(e@),
                Ok(body) => match line_vouchers(files.last().0@, text::lines(body@)) {
                    Err(e) => Err(e),
                    Ok(more) => Ok(before + more),
                },
            },
        }
    }
}

/// The keys that a system allows to sign a bundle, each with the principals
/// that the line vouching for it names.
pub open spec fn allowed(files: Result<Vec<(String, Read)>, String>) -> Result<
    Seq<Voucher>,
    Seq<char>,
> {
    match files {
        Err(e) => Err(e@),
        Ok(files) => match file_vouchers(files@) {
            Err(e) => Err(e),
            Ok(s) => if s.len() == 0 {
                Err(
                    "There is no detc/allowed_signers in this system, so no signature can be checked; write the key that signs your bundles in etc/detc/allowed_signers"@,
                )
            } else {
                Ok(s)
            },
        },
    }
}

/// The principals of the first allowed key that is this one.
pub open spec fn vouching(s: Seq<Voucher>, key: Seq<u8>) -> Option<Seq<char>>
    decreases s.len(),
{
    if s.len() == 0 {
        None
    } else if s[0].key == key {
        Some(s[0].principals)
    } else {
        vouching(s.drop_first(), key)
    }
}

/// The identity that signed a payload, where the signature is of a key that the
/// system allows and holds for the payload in this namespace.
pub open spec fn signer_of(
    files: Result<Vec<(String, Read)>, String>,
    namespace: Seq<char>,
    payload: Seq<u8>,
    signature: Seq<u8>,
) -> Result<Seq<char>, Seq<char>> {
    match stamp_reading(signature) {
        Err(e) => Err("The signature of the bundle cannot be read: "@ + e),
        Ok(s) => match allowed(files) {
            Err(e) => Err(e),
            Ok(keys) => match vouching(keys, s.key) {
                None => Err("The bundle is signed by a key that this system does not allow"@),
                Some(principals) => match verification(s.key, namespace, payload, s) {
                    Err(e) => Err("The signature of the bundle is not valid: "@ + e),
                    Ok(_) => Ok(principals),
                },
            },
        },
    }
}

/// The key that a line allows, if it allows one.
fn read_line(file: &str, at: u64, line: &str) -> (r: Result<
    Option<(String, ssh_key::PublicKey)>,
    String,
>)
    ensures
        line_voucher(file@, at as nat, line@) == (match r {
            Ok(None) => Ok(None),
            Ok(Some((principals, key))) => Ok(
                Some(Voucher { principals: principals@, key: key_data(key) }),
            ),
            Err(e) => Err(e@),
        }),
{
    let line = text::trimmed(line);
    let cs = text::chars_of(line.as_str());
    if cs.len() == 0 || cs[0] == '#' {
        return Ok(None);
    }
    let mut place = "Line ".to_owned();
    place.append(text::decimal_of(at).as_str());
    place.append(" of ");
    place.append(file);
    match text::cut_at_space(line.as_str()) {
        None => {
            place.append(" names a signer and no key");
            Err(place)
        },
        Some((principals, key)) => match parse_key(text::trimmed(key.as_str()).as_str()) {
            Ok(key) => Ok(Some((principals, key))),
            Err(e) => {
                place.append(" does not hold a key that can be read: ");
                place.append(e.as_str());
                place.append(
                    ".  An allowed signer is written `principals keytype key`; the options that the format allows between the two narrow what a key may sign and are not read here",
                );
                Err(place)
            },
        },
    }
}

proof fn lemma_lines_stop(file: Seq<char>, lines: Seq<Seq<char>>, i: int)
    requires
        0 <= i <= lines.len(),
        line_vouchers(file, lines.take(i)) is Err,
    ensures
        line_vouchers(file, lines) == line_vouchers(file, lines.take(i)),
    decreases lines.len() - i,
{
    if i == lines.len() {
        assert(lines.take(i) =~= lines);
    } else {
        assert(lines.take(i + 1).drop_last() =~= lines.take(i));
        lemma_lines_stop(file, lines, i + 1);
    }
}

proof fn lemma_files_stop(files: Seq<(String, Read)>, i: int)
    requires
        0 <= i <= files.len(),
        file_vouchers(files.take(i)) is Err,
    ensures
        file_vouchers(files) == file_vouchers(files.take(i)),
    decreases files.len() - i,
{
    if i == files.len() {
        assert(files.take(i) =~= files);
    } else {
        assert(files.take(i + 1).drop_last() =~= files.take(i));
        lemma_files_stop(files, i + 1);
    }
}

/// The keys that the lines of a file allow.
fn read_file(file: &str, body: &str) -> (r: Result<Vec<(String, ssh_key::PublicKey)>, String>)
    ensures
        vouched(r) == line_vouchers(file@, text::lines(body@)),
{
    let lines = text::lines_of(body);
    let ghost all = text::lines(body@);
    let mut found: Vec<(String, ssh_key::PublicKey)> = Vec::new();
    let n: usize = lines.len();
    let mut i: usize = 0;
    assert(vouchers(found@) =~= Seq::empty());
    while i < n
        invariant
            i <= n == lines@.len(),
            text::texts(lines@) == all,
            all == text::lines(body@),
            line_vouchers(file@, all.take(i as int)) == Ok::<Seq<Voucher>, Seq<char>>(
                vouchers(found@),
            ),
        decreases n - i,
    {
        let ghost had = vouchers(found@);
        proof {
            assert(all.take(i + 1).drop_last() =~= all.take(i as int));
            assert(all.take(i + 1).last() == lines@[i as int]@);
        }
        let at: u64 = i as u64 + 1;
        match read_line(file, at, lines[i].as_str()) {
            Err(e) => {
                proof {
                    lemma_lines_stop(file@, all, i + 1);
                }
                return Err(e);
            },
            Ok(None) => {},
            Ok(Some(voucher)) => {
                found.push(voucher);
                assert(vouchers(found@) =~= had.push(
                    Voucher { principals: voucher.0@, key: key_data(voucher.1) },
                ));
            },
        }
        i += 1;
    }
    assert(all.take(i as int) =~= all);
    Ok(found)
}

/// The keys that a system allows to sign a bundle, each with the principals
/// that the line vouching for it names.
///
/// A line is `principals keytype key [comment]`.  The format also allows options
/// between the principals and the key, and every one of them narrows what the
/// key may sign, so a line that carries one is refused.
pub fn allowed_signers(files: &Result<Vec<(String, Read)>, String>) -> (r: Result<
    Vec<(String, ssh_key::PublicKey)>,
    String,
>)
    ensures
        vouched(r) == allowed(*files),
{
    let list = match files {
        Ok(list) => list,
        Err(e) => {
            return Err(e.clone());
        },
    };
    let ghost all = list@;
    let mut found: Vec<(String, ssh_key::PublicKey)> = Vec::new();
    let n: usize = list.len();
    let mut i: usize = 0;
    assert(vouchers(found@) =~= Seq::empty());
    while i < n
        invariant
            i <= n == list@.len(),
            files is Ok && files->Ok_0@ == all,
            list@ == all,
            file_vouchers(all.take(i as int)) == Ok::<Seq<Voucher>, Seq<char>>(vouchers(found@)),
        decreases n - i,
    {
        let ghost had = vouchers(found@);
        proof {
            assert(all.take(i + 1).drop_last() =~= all.take(i as int));
            assert(all.take(i + 1).last() == list@[i as int]);
        }
        match &list[i].1 {
            Err(e) => {
                proof {
                    lemma_files_stop(all, i + 1);
                }
                return Err(e.clone());
            },
            Ok(body) => match read_file(list[i].0.as_str(), body.as_str()) {
                Err(e) => {
                    proof {
                        lemma_files_stop(all, i + 1);
                    }
                    return Err(e);
                },
                Ok(more) => {
                    let ghost new = vouchers(more@);
                    let mut more = more;
                    found.append(&mut more);
                    assert(vouchers(found@) =~= had + new);
                },
            },
        }
        i += 1;
    }
    assert(all.take(i as int) =~= all);
    if found.len() == 0 {
        return Err(
            "There is no detc/allowed_signers in this system, so no signature can be checked; write the key that signs your bundles in etc/detc/allowed_signers".to_owned(),
        );
    }
    Ok(found)
}

/// The identity that signed a payload, checked against the keys that the system
/// allows.
///
/// The key of the signature is looked up among the allowed ones to learn who it
/// belongs to, and the signature is then verified with it, so that a valid
/// signature by a key that nobody vouched for is not a valid signature.
pub fn signed_by(
    files: &Result<Vec<(String, Read)>, String>,
    namespace: &str,
    payload: &[u8],
    signature: &[u8],
) -> (r: Result<String, String>)
    ensures
        said(r) == signer_of(*files, namespace@, payload@, signature@),
{
    let given = match parse_stamp(signature) {
        Ok(given) => given,
        Err(e) => {
            let mut m = "The signature of the bundle cannot be read: ".to_owned();
            m.append(e.as_str());
            return Err(m);
        },
    };
    let keys = match allowed_signers(files) {
        Ok(keys) => keys,
        Err(e) => {
            return Err(e);
        },
    };
    let ghost all = vouchers(keys@);
    let ghost held = stamp(given);
    let n: usize = keys.len();
    let mut i: usize = 0;
    assert(all.skip(0) =~= all);
    while i < n
        invariant
            i <= n == keys@.len(),
            all == vouchers(keys@),
            held == stamp(given),
            stamp_reading(signature@) == Ok::<Stamp, Seq<char>>(held),
            allowed(*files) == Ok::<Seq<Voucher>, Seq<char>>(all),
            vouching(all, held.key) == vouching(all.skip(i as int), held.key),
        decreases n - i,
    {
        proof {
            assert(all.skip(i as int)[0] == all[i as int]);
            assert(all.skip(i as int).drop_first() =~= all.skip(i + 1));
        }
        if names_key(&given, &keys[i].1) {
            return match verify(&keys[i].1, namespace, payload, &given) {
                Ok(_) => Ok(keys[i].0.clone()),
                Err(e) => {
                    let mut m = "The signature of the bundle is not valid: ".to_owned();
                    m.append(e.as_str());
                    Err(m)
                },
            };
        }
        i += 1;
    }
    Err("The bundle is signed by a key that this system does not allow".to_owned())
}

/// Whether a signature is one over a payload that this key made for this use.
pub open spec fn signs(
    signature: Seq<u8>,
    key: Seq<u8>,
    namespace: Seq<char>,
    payload: Seq<u8>,
) -> bool {
    stamp_reading(signature) matches Ok(s) && s.key == key && s.namespace == namespace
        && verification(key, namespace, payload, s) is Ok
}

/// What is said of a key that a passphrase is needed for.
pub open spec fn encrypted_error(path: Seq<char>) -> Seq<char> {
    "The key in "@ + path
        + " is encrypted, and there is no way to ask for the passphrase here; sign with a key that is not, or with one held for you by an agent and written out"@
}

/// A signature that was made, written down, or why there is none.
pub open spec fn written_down(path: Seq<char>, made: Result<Stamp, Seq<char>>) -> Result<
    Seq<u8>,
    Seq<char>,
> {
    match made {
        Err(e) => Err("Cannot sign the bundle with "@ + path + ": "@ + e),
        Ok(s) => match stamp_writing(s) {
            Err(e) => Err("Cannot write the signature of the bundle: "@ + e),
            Ok(bytes) => Ok(bytes),
        },
    }
}

/// What signing a payload with a private key gives, the key given as the file that
/// holds it and what was read there.  A key that cannot be read and a key that
/// needs a passphrase are refused.
pub open spec fn signature_of(
    namespace: Seq<char>,
    payload: Seq<u8>,
    path: Seq<char>,
    key: Read,
) -> Result<Seq<u8>, Seq<char>> {
    let unread = "Cannot read the key in "@ + path + ": "@;
    match said(key) {
        Err(e) => Err(unread + e),
        Ok(body) => match secret_reading(body) {
            Err(e) => Err(unread + e),
            Ok(private) => if private.encrypted {
                Err(encrypted_error(path))
            } else {
                written_down(path, sealing(private.whole, namespace, payload))
            },
        },
    }
}

/// The public half of the private key that was read.
pub open spec fn public_half(key: Read) -> Option<Seq<u8>> {
    match said(key) {
        Err(_) => None,
        Ok(body) => match secret_reading(body) {
            Err(_) => None,
            Ok(private) => Some(private.public),
        },
    }
}

/// Bytes that were made.
pub open spec fn bytes_made(r: Result<Vec<u8>, String>) -> Result<Seq<u8>, Seq<char>> {
    match r {
        Ok(b) => Ok(b@),
        Err(e) => Err(e@),
    }
}

/// Write a signature down that was made with the key in `path`.
pub fn write_down(path: &str, made: Result<ssh_key::SshSig, String>) -> (r: Result<Vec<u8>, String>)
    ensures
        bytes_made(r) == written_down(
            path@,
            match made {
                Ok(signature) => Ok(stamp(signature)),
                Err(e) => Err(e@),
            },
        ),
        (r is Ok ==> made is Ok && stamp_reading(r->Ok_0@) == Ok::<Stamp, Seq<char>>(
            stamp(made->Ok_0),
        )),
{
    let signature = match made {
        Ok(signature) => signature,
        Err(e) => {
            let mut m = "Cannot sign the bundle with ".to_owned();
            m.append(path);
            m.append(": ");
            m.append(e.as_str());
            return Err(m);
        },
    };
    match write_stamp(&signature) {
        Ok(bytes) => Ok(bytes),
        Err(e) => {
            let mut m = "Cannot write the signature of the bundle: ".to_owned();
            m.append(e.as_str());
            Err(m)
        },
    }
}

/// Sign a payload with a private key, given as the file that holds it and what
/// was read there.  What comes back is a signature over the payload that the key
/// made for this use.
pub fn sign(namespace: &str, payload: &[u8], path: &str, key: &Read) -> (r: Result<Vec<u8>, String>)
    ensures
        bytes_made(r) == signature_of(namespace@, payload@, path@, *key),
        (r is Ok ==> public_half(*key) is Some && signs(
            r->Ok_0@,
            public_half(*key)->Some_0,
            namespace@,
            payload@,
        )),
{
    let body = match key {
        Ok(body) => body,
        Err(e) => {
            return Err(cannot_read(path, e.as_str()));
        },
    };
    let private = match parse_secret(body.as_str()) {
        Ok(private) => private,
        Err(e) => {
            return Err(cannot_read(path, e.as_str()));
        },
    };
    if is_encrypted(&private) {
        let mut m = "The key in ".to_owned();
        m.append(path);
        m.append(
            " is encrypted, and there is no way to ask for the passphrase here; sign with a key that is not, or with one held for you by an agent and written out",
        );
        return Err(m);
    }
    write_down(path, make(&private, namespace, payload))
}

/// What is said of a key that cannot be read.
fn cannot_read(path: &str, e: &str) -> (r: String)
    ensures
        r@ == "Cannot read the key in "@ + path@ + ": "@ + e@,
{
    let mut m = "Cannot read the key in ".to_owned();
    m.append(path);
    m.append(": ");
    m.append(e);
    m
}

/// A payload is taken as signed by somebody only where the system vouches for
/// the key of the signature under that name, and where the signature was made by
/// that key, for this use, over this payload.
pub proof fn law_a_signer_is_vouched_for(
    files: Result<Vec<(String, Read)>, String>,
    namespace: Seq<char>,
    payload: Seq<u8>,
    signature: Seq<u8>,
)
    requires
        signer_of(files, namespace, payload, signature) is Ok,
    ensures
        stamp_reading(signature) matches Ok(s) && allowed(files) matches Ok(keys) && {
            &&& exists|i: int|
                0 <= i < keys.len() && (#[trigger] keys[i]).key == s.key && Ok::<
                    Seq<char>,
                    Seq<char>,
                >(keys[i].principals) == signer_of(files, namespace, payload, signature)
            &&& verification(s.key, namespace, payload, s) is Ok
        },
{
    lemma_vouching_stands(allowed(files)->Ok_0, stamp_reading(signature)->Ok_0.key);
}

proof fn lemma_vouching_stands(s: Seq<Voucher>, key: Seq<u8>)
    requires
        vouching(s, key) is Some,
    ensures
        exists|i: int|
            0 <= i < s.len() && (#[trigger] s[i]).key == key && vouching(s, key) == Some(
                s[i].principals,
            ),
    decreases s.len(),
{
    if s[0].key != key {
        lemma_vouching_stands(s.drop_first(), key);
        let i = choose|i: int|
            0 <= i < s.drop_first().len() && (#[trigger] s.drop_first()[i]).key == key && vouching(
                s.drop_first(),
                key,
            ) == Some(s.drop_first()[i].principals);
        assert(s[i + 1] == s.drop_first()[i]);
    }
}

/// A signature over a payload is taken by every system that allows the key, under
/// the first name that it vouches for the key as.
pub proof fn law_a_signature_is_taken(
    files: Result<Vec<(String, Read)>, String>,
    namespace: Seq<char>,
    payload: Seq<u8>,
    signature: Seq<u8>,
    key: Seq<u8>,
)
    requires
        signs(signature, key, namespace, payload),
        allowed(files) matches Ok(keys) && vouching(keys, key) is Some,
    ensures
        signer_of(files, namespace, payload, signature) == Ok::<Seq<char>, Seq<char>>(
            vouching(allowed(files)->Ok_0, key)->Some_0,
        ),
{
}

/// A line names a signer and the key behind it; a blank line and a comment
/// name none.
pub proof fn law_a_line_names_a_signer_and_a_key(
    file: Seq<char>,
    at: nat,
    principals: Seq<char>,
    key: Seq<char>,
    comment: Seq<char>,
)
    requires
        principals.len() > 0,
        principals[0] != '#',
        forall|i: int| 0 <= i < principals.len() ==> !text::is_space(#[trigger] principals[i]),
        text::trim(principals + seq![' '] + key) == principals + seq![' '] + key,
    ensures
        key_reading(text::trim(key)) matches Ok(k) ==> line_voucher(
            file,
            at,
            principals + seq![' '] + key,
        ) == Ok::<Option<Voucher>, Seq<char>>(Some(Voucher { principals, key: k })),
        key_reading(text::trim(key)) is Err ==> line_voucher(file, at, principals + seq![' '] + key) is Err,
        text::trim(principals) == principals ==> line_voucher(file, at, principals) is Err,
        text::trim(comment).len() > 0 && text::trim(comment)[0] == '#' ==> line_voucher(
            file,
            at,
            comment,
        ) == Ok::<Option<Voucher>, Seq<char>>(None),
        text::trim(comment).len() == 0 ==> line_voucher(file, at, comment) == Ok::<
            Option<Voucher>,
            Seq<char>,
        >(None),
{
    assert(text::is_space(' '));
    text::law_a_text_is_cut_at_its_first_space(principals, ' ', key);
    assert((principals + seq![' '] + key)[0] == principals[0]);
}

/// The signers of a file are those of its lines, in their order, and one line
/// that cannot be read refuses them all.
pub proof fn law_signers_are_read_line_by_line(file: Seq<char>, lines: Seq<Seq<char>>, line: Seq<char>)
    requires
        line_vouchers(file, lines) is Ok,
    ensures
        line_vouchers(file, Seq::empty()) == Ok::<Seq<Voucher>, Seq<char>>(Seq::empty()),
        ({
            let one = line_voucher(file, lines.len() + 1, line);
            let before = line_vouchers(file, lines)->Ok_0;
            let after = line_vouchers(file, lines.push(line));
            &&& one is Err ==> after is Err
            &&& one matches Ok(None) ==> after == Ok::<Seq<Voucher>, Seq<char>>(before)
            &&& one matches Ok(Some(v)) ==> after == Ok::<Seq<Voucher>, Seq<char>>(before.push(v))
        }),
{
    assert(lines.push(line).drop_last() =~= lines);
}

/// The signers of every file are allowed, and a file that cannot be read
/// refuses them all, as does there being none.
pub proof fn law_signers_are_those_of_every_file(
    files: Seq<(String, Read)>,
    one: (String, Read),
    none: Vec<(String, Read)>,
)
    ensures
        file_vouchers(files) is Err ==> file_vouchers(files.push(one)) is Err,
        one.1 is Err ==> file_vouchers(files.push(one)) is Err,
        file_vouchers(files) is Ok && one.1 is Ok && line_vouchers(
            one.0@,
            text::lines(one.1->Ok_0@),
        ) is Ok ==> file_vouchers(files.push(one)) == Ok::<Seq<Voucher>, Seq<char>>(
            file_vouchers(files)->Ok_0 + line_vouchers(one.0@, text::lines(one.1->Ok_0@))->Ok_0,
        ),
        none@.len() == 0 ==> allowed(Ok(none)) is Err,
        allowed(Ok(none)) matches Ok(s) ==> s.len() > 0 && file_vouchers(none@) == Ok::<
            Seq<Voucher>,
            Seq<char>,
        >(s),
{
    assert(files.push(one).drop_last() =~= files);
}

/// The first who vouches for a key is who signed with it, and a key that
/// nobody vouches for signs nothing.
pub proof fn law_the_first_voucher_counts(s: Seq<Voucher>, key: Seq<u8>, i: int)
    ensures
        (forall|j: int| 0 <= j < s.len() ==> (#[trigger] s[j]).key != key) <==> vouching(s, key) is None,
        0 <= i < s.len() && s[i].key == key && (forall|j: int| 0 <= j < i ==> (#[trigger] s[j]).key != key)
            ==> vouching(s, key) == Some(s[i].principals),
    decreases s.len(),
{
    if s.len() > 0 {
        let rest = s.drop_first();
        law_the_first_voucher_counts(rest, key, i - 1);
        assert(forall|j: int| 0 <= j < rest.len() ==> #[trigger] rest[j] == s[j + 1]);
        if vouching(s, key) is None {
            assert forall|j: int| 0 <= j < s.len() implies (#[trigger] s[j]).key != key by {
                if j > 0 {
                    assert(rest[j - 1] == s[j]);
                }
            }
        }
        if forall|j: int| 0 <= j < s.len() ==> (#[trigger] s[j]).key != key {
            assert(s[0].key != key);
            assert forall|j: int| 0 <= j < rest.len() implies (#[trigger] rest[j]).key != key by {
                assert(rest[j] == s[j + 1]);
            }
        }
        if 0 < i < s.len() && s[i].key == key && (forall|j: int|
            0 <= j < i ==> (#[trigger] s[j]).key != key) {
            assert(s[0].key != key);
            assert(rest[i - 1] == s[i]);
            assert forall|j: int| 0 <= j < i - 1 implies (#[trigger] rest[j]).key != key by {
                assert(rest[j] == s[j + 1]);
            }
        }
    }
}

/// A signature is taken when it can be read, when its key is allowed, and when
/// it is that key's signature of the payload; otherwise it is refused.
pub proof fn law_a_signature_is_taken_only_if_it_is_valid(
    files: Result<Vec<(String, Read)>, String>,
    namespace: Seq<char>,
    payload: Seq<u8>,
    signature: Seq<u8>,
)
    ensures
        signer_of(files, namespace, payload, signature) is Ok <==> {
            &&& stamp_reading(signature) is Ok
            &&& allowed(files) is Ok
            &&& vouching(allowed(files)->Ok_0, stamp_reading(signature)->Ok_0.key) is Some
            &&& verification(
                stamp_reading(signature)->Ok_0.key,
                namespace,
                payload,
                stamp_reading(signature)->Ok_0,
            ) is Ok
        },
{
}

/// A key signs when it can be read and is not encrypted, and what it makes is
/// its own seal on the payload.
pub proof fn law_a_key_signs_unless_it_is_encrypted(
    namespace: Seq<char>,
    payload: Seq<u8>,
    path: Seq<char>,
    key: Read,
)
    ensures
        key is Err ==> signature_of(namespace, payload, path, key) is Err,
        key is Ok && secret_reading(key->Ok_0@) is Err ==> signature_of(namespace, payload, path, key) is Err,
        key is Ok && secret_reading(key->Ok_0@) is Ok && secret_reading(key->Ok_0@)->Ok_0.encrypted
            ==> signature_of(namespace, payload, path, key) is Err,
        signature_of(namespace, payload, path, key) matches Ok(bytes) ==> {
            let whole = secret_reading(key->Ok_0@)->Ok_0.whole;
            &&& sealing(whole, namespace, payload) is Ok
            &&& stamp_writing(sealing(whole, namespace, payload)->Ok_0) == Ok::<Seq<u8>, Seq<char>>(bytes)
        },
{
}

} // verus!
