//! The archives that a bundle is made of.

use detc::tar::{check, describe, read, Entry, Kind, BLOCK, MAX_NAME, MAX_SIZE, RECORD};

const NAME: std::ops::Range<usize> = 0..100;
const TYPEFLAG: usize = 156;
const MAGIC: std::ops::Range<usize> = 257..263;
const PREFIX: std::ops::Range<usize> = 345..500;
const IDENTITY: std::ops::Range<usize> = 265..329;

/// A member with text in it.
fn entry(name: &str, mode: u32, data: &str) -> Entry {
    Entry::new(name.to_string(), mode, data.as_bytes().to_vec())
}

/// An archive of one header with one of its fields spoiled, and a checksum that adds
/// up.
fn spoiled(patch: impl FnOnce(&mut tar::Header)) -> Vec<u8> {
    let whole = detc::tar::write(&[entry("templates.d/etc/hosts", 0o644, "")])
        .expect("the header of a plain member is written");
    let mut header = tar::Header::new_old();
    header.as_mut_bytes().copy_from_slice(&whole[..BLOCK]);
    patch(&mut header);
    header.set_cksum();

    let mut archive = header.as_bytes().to_vec();
    archive.resize(archive.len() + 2 * BLOCK, 0);
    archive
}

#[test]
fn a_member_comes_back_as_it_was_written() {
    // Nothing, something that stops just short of a block, exactly a block, and
    // something that spills into the next one
    let entries = vec![
        entry("bundle.yaml", 0o644, ""),
        entry("templates.d/etc/hosts", 0o644, &"x".repeat(BLOCK - 1)),
        entry("providers.d/unit", 0o755, &"y".repeat(BLOCK)),
        entry("probes/system.d/10-net", 0o755, &"z".repeat(BLOCK + 1)),
    ];

    let archive = detc::tar::write(&entries).expect("plain members are written");
    assert_eq!(read(&archive), Ok(entries));
}

#[test]
fn an_archive_ends_with_two_zero_blocks_in_a_whole_record() {
    let archive = detc::tar::write(&[entry("bundle.yaml", 0o644, "name: fleet\n")]).unwrap();

    assert_eq!(archive.len() % RECORD, 0);
    assert_eq!(archive.len(), RECORD);
    assert!(archive[2 * BLOCK..].iter().all(|byte| *byte == 0));

    // An archive of nothing is still an archive
    assert!(read(&detc::tar::write(&[]).unwrap()).unwrap().is_empty());
}

#[test]
fn only_regular_files_are_read() {
    // A file is either kind, as the oldest writers left the field unset
    for kind in [b'0', 0] {
        let archive = spoiled(|header| header.as_mut_bytes()[TYPEFLAG] = kind);
        assert_eq!(read(&archive).unwrap().len(), 1);
    }

    for (kind, said) in [
        (b'1', "a hard link"),
        (b'2', "a symbolic link"),
        (b'3', "a character device"),
        (b'4', "a block device"),
        (b'5', "a directory"),
        (b'6', "a named pipe"),
        (b'x', "a pax extension header"),
        (b'L', "a GNU long name header"),
    ] {
        let archive = spoiled(|header| header.as_mut_bytes()[TYPEFLAG] = kind);
        let error = read(&archive).expect_err("what is not a regular file is refused");

        assert!(error.contains(said), "{error}");
    }
}

#[test]
fn a_name_that_leaves_the_archive_is_refused() {
    for (name, said) in [
        ("/etc/passwd", "an absolute path"),
        ("../../etc/passwd", "climbs out"),
        ("templates.d/../../etc/passwd", "climbs out"),
        ("./templates.d/etc/hosts", "not written plainly"),
        ("templates.d/", "names a directory"),
    ] {
        // Neither on the way in
        let archive = spoiled(|header| {
            let block = header.as_mut_bytes();
            block[NAME].fill(0);
            block[..name.len()].copy_from_slice(name.as_bytes());
        });
        let error = read(&archive).expect_err("a name that leaves the archive is refused");
        assert!(error.contains(said), "{name}: {error}");

        // nor on the way out
        let error = detc::tar::write(&[entry(name, 0o644, "")])
            .expect_err("a name that leaves the archive is not written");
        assert!(error.contains(said), "{name}: {error}");
    }
}

#[test]
fn a_mode_that_is_more_than_a_permission_is_refused() {
    for mode in [0o4755, 0o2755, 0o1755] {
        let archive = spoiled(|header| header.set_mode(mode));
        let error =
            read(&archive).expect_err("a mode that is more than a permission is refused");
        assert!(error.contains("more than a permission"), "{error}");

        let error = detc::tar::write(&[entry("providers.d/unit", mode, "")])
            .expect_err("a mode that is more than a permission is not written");
        assert!(error.contains("more than a permission"), "{error}");
    }
}

#[test]
fn a_header_that_does_not_add_up_is_refused() {
    // The name is changed after the checksum was written, which is what a header
    // rewritten in place looks like
    let mut archive = spoiled(|_| {});
    archive[..11].copy_from_slice(b"passwd\0\0\0\0\0");

    let error = read(&archive).expect_err("a header that was tampered with is refused");
    assert!(error.contains("checksum"), "{error}");
}

#[test]
fn a_header_of_something_else_is_refused() {
    let archive = spoiled(|header| header.as_mut_bytes()[MAGIC].copy_from_slice(b"nope!\0"));

    let error = read(&archive).expect_err("what is not a tar archive is refused");
    assert!(error.contains("ustar"), "{error}");
}

#[test]
fn a_name_that_does_not_fit_a_header_is_refused() {
    let name = format!("templates.d/{}", "a".repeat(MAX_NAME));

    let error =
        detc::tar::write(&[entry(&name, 0o644, "")]).expect_err("a name that does not fit is refused");
    assert!(error.contains("longer than"), "{error}");
}

#[test]
fn an_archive_that_was_cut_is_refused() {
    let archive = detc::tar::write(&[entry("bundle.yaml", 0o644, &"x".repeat(BLOCK + 1))]).unwrap();

    // In the middle of the contents of a member
    let error = read(&archive[..2 * BLOCK]).expect_err("an archive that was cut is refused");
    assert!(
        error.contains("ends in the middle of bundle.yaml"),
        "{error}"
    );

    // and in the middle of a block, which is where a header lives
    let error = read(&archive[..BLOCK / 2]).expect_err("an archive that was cut is refused");
    assert!(error.contains("ends in the middle of a block"), "{error}");
}

#[test]
fn a_name_that_needed_the_prefix_field_is_read_whole() {
    let archive = spoiled(|header| {
        let block = header.as_mut_bytes();
        block[NAME].fill(0);
        block[..9].copy_from_slice(b"hosts.tpl");
        block[PREFIX][..11].copy_from_slice(b"templates.d");
    });

    assert_eq!(read(&archive).unwrap()[0].name, "templates.d/hosts.tpl");
}

#[test]
fn nothing_of_the_machine_that_wrote_it_reaches_the_archive() {
    let one = detc::tar::write(&[entry("bundle.yaml", 0o644, "name: fleet\n")]).unwrap();
    let other = detc::tar::write(&[entry("bundle.yaml", 0o644, "name: fleet\n")]).unwrap();

    assert_eq!(one, other);

    // No identity and no time is in there to make them differ later
    let mut header = tar::Header::new_old();
    header.as_mut_bytes().copy_from_slice(&one[..BLOCK]);

    assert_eq!(header.uid().unwrap(), 0);
    assert_eq!(header.gid().unwrap(), 0);
    assert_eq!(header.mtime().unwrap(), 0);
    assert!(one[IDENTITY].iter().all(|byte| *byte == 0));
}

#[test]
fn a_name_is_checked_on_its_own() {
    assert!(check("templates.d/etc/hosts").is_ok());
    assert!(check("").is_err());
    assert!(check("templates.d//etc").is_err());
}

#[test]
fn a_kind_of_member_is_said_in_words() {
    assert_eq!(describe(Kind::Directory), "a directory");
    assert_eq!(describe(Kind::Fifo), "a named pipe");
}

#[test]
fn an_archive_that_is_written_can_be_read() {
    let large = |size: usize| vec![Entry::new("x".to_string(), 0o644, vec![7; size])];

    // The end of an archive counts too: the two zero blocks, and the rest of the record
    let error = detc::tar::write(&large(MAX_SIZE - BLOCK)).expect_err("the archive is too large");
    assert!(error.contains("larger than the 32 MiB"), "{error}");

    let most = MAX_SIZE / RECORD * RECORD - 3 * BLOCK;
    let archive = detc::tar::write(&large(most)).expect("the archive is within the limit");
    assert_eq!(archive.len(), MAX_SIZE / RECORD * RECORD);
    assert_eq!(read(&archive), Ok(large(most)));
    assert!(detc::tar::write(&large(most + 1)).is_err());
}
