use async_tar::archive::{Archive, ArchiveBuilder};
use async_tar::entries::{Entries, Progress};
use async_tar::entry::{Entry, EntryIo};
use async_tar::error::{Field, TarError};
use async_tar::machine::Request;

const GNU: &[u8; 8] = b"ustar  \0";
const USTAR: &[u8; 8] = b"ustar\x0000";

fn octal(field: &mut [u8], value: u64) {
    let text = format!("{:0width$o}\0", value, width = field.len() - 1);
    field.copy_from_slice(text.as_bytes());
}

fn binary(field: &mut [u8], value: u64) {
    let n = field.len();
    for b in field.iter_mut() {
        *b = 0;
    }
    field[0] = 0x80;
    field[n - 8..].copy_from_slice(&value.to_be_bytes());
}

fn seal(h: &mut [u8]) {
    for b in h[148..156].iter_mut() {
        *b = b' ';
    }
    let sum: u32 = h.iter().map(|b| *b as u32).sum();
    h[148..156].copy_from_slice(format!("{:06o}\0 ", sum).as_bytes());
}

fn header(name: &str, size: u64, flag: u8, magic: &[u8; 8]) -> Vec<u8> {
    let mut h = vec![0u8; 512];
    h[..name.len()].copy_from_slice(name.as_bytes());
    octal(&mut h[124..136], size);
    h[156] = flag;
    h[257..265].copy_from_slice(magic);
    seal(&mut h);
    h
}

fn member(name: &str, contents: &[u8], flag: u8, magic: &[u8; 8]) -> Vec<u8> {
    let mut bytes = header(name, contents.len() as u64, flag, magic);
    bytes.extend_from_slice(contents);
    while bytes.len() % 512 != 0 {
        bytes.push(0);
    }
    bytes
}

fn file(name: &str, contents: &[u8]) -> Vec<u8> {
    member(name, contents, b'0', USTAR)
}

fn sparse(blocks: &[(u64, u64)], size: u64, real_size: u64, extended: bool) -> Vec<u8> {
    let mut h = header("sparse", size, b'S', GNU);
    put_blocks(&mut h, 386, blocks);
    h[482] = extended as u8;
    octal(&mut h[483..495], real_size);
    seal(&mut h);
    h
}

fn put_blocks(block: &mut [u8], start: usize, blocks: &[(u64, u64)]) {
    for (i, (off, len)) in blocks.iter().enumerate() {
        let at = start + 24 * i;
        octal(&mut block[at..at + 12], *off);
        octal(&mut block[at + 12..at + 24], *len);
    }
}

type Item = Option<Result<Entry, TarError>>;

/// Asks for the next entry, reading at most `piece` bytes at once.
fn next(
    archive: &Archive<()>,
    entries: &mut Entries<()>,
    bytes: &[u8],
    piece: usize,
) -> Item {
    loop {
        match entries.poll_next() {
            Request::Nothing => return None,
            Request::Position => {
                assert!(archive.position() <= entries.next_header());
                entries.at_position(archive.position());
            }
            Request::Read(want) => {
                assert!(want > 0);
                let pos = archive.position() as usize;
                let n = want.min(piece).min(bytes.len() - pos);
                assert!(archive.advance(n));
                let chunk = &bytes[pos..pos + n];
                assert!(entries.fits(chunk));
                if let Progress::Ready(item) = entries.read(chunk) {
                    return item;
                }
            }
        }
    }
}

fn open(ignore_zeros: bool) -> (Archive<()>, Entries<()>) {
    let mut archive = ArchiveBuilder::new(())
        .set_ignore_zeros(ignore_zeros)
        .build();
    match archive.entries() {
        Ok(entries) => (archive, entries),
        Err(e) => panic!("{}", e.message()),
    }
}

fn first_with(bytes: &[u8], ignore_zeros: bool, piece: usize) -> Item {
    let (archive, mut entries) = open(ignore_zeros);
    next(&archive, &mut entries, bytes, piece)
}

fn first(bytes: &[u8]) -> Item {
    first_with(bytes, false, 100_000)
}

fn error(item: Item) -> TarError {
    match item {
        Some(Err(e)) => e,
        other => panic!("{:?}", other),
    }
}

fn entry(item: Item) -> Entry {
    match item {
        Some(Ok(entry)) => entry,
        other => panic!("{:?}", other),
    }
}

fn summary(item: &Item) -> String {
    format!("{:?}", item)
}

#[test]
fn an_entry_is_found() {
    let e = entry(first(&file("a.txt", b"hello")));
    assert_eq!(e.size, 5);
    assert_eq!(e.header_pos, 0);
    assert_eq!(e.file_pos, 512);
    assert_eq!(e.data, vec![EntryIo::Data(5)]);
    assert_eq!(&e.header.as_bytes()[..5], b"a.txt");
    assert_eq!(e.long_pathname, None);
    assert_eq!(e.long_linkname, None);
    assert_eq!(e.pax_extensions, None);
    assert!(!e.unpack_xattrs);
    assert!(!e.preserve_permissions);
    assert!(e.preserve_mtime);
}

#[test]
fn entries_follow_each_other() {
    let mut bytes = file("a", b"hello");
    bytes.extend(file("b", &[7u8; 512]));
    bytes.extend(file("c", b""));
    bytes.extend(vec![0u8; 1024]);
    let (archive, mut entries) = open(false);
    let places: Vec<(u64, u64, u64)> = (0..3)
        .map(|_| entry(next(&archive, &mut entries, &bytes, 1000)))
        .map(|e| (e.header_pos, e.file_pos, e.size))
        .collect();
    assert_eq!(places, vec![(0, 512, 5), (1024, 1536, 512), (2048, 2560, 0)]);
    assert!(next(&archive, &mut entries, &bytes, 1000).is_none());
    assert_eq!(entries.next_header(), 2560);
}

#[test]
fn an_empty_archive_has_no_entries() {
    let (archive, mut entries) = open(false);
    assert!(next(&archive, &mut entries, &[], 10).is_none());
    assert!(next(&archive, &mut entries, &[], 10).is_none());
}

#[test]
fn pieces_do_not_matter() {
    let mut bytes = member("x", b"a/very/long/name\0", b'L', GNU);
    bytes.extend(sparse(&[(0, 512), (1024, 512)], 1124, 4196, true));
    let mut ext = vec![0u8; 512];
    put_blocks(&mut ext, 0, &[(4096, 100)]);
    bytes.extend(ext);
    bytes.extend(vec![1u8; 1536]);
    bytes.extend(file("b", b"x"));
    let whole: Vec<String> = {
        let (archive, mut entries) = open(false);
        (0..3)
            .map(|_| summary(&next(&archive, &mut entries, &bytes, 100_000)))
            .collect()
    };
    assert!(whole[2] == "None");
    for piece in [1, 2, 3, 7, 511, 512, 513] {
        let (archive, mut entries) = open(false);
        for expected in whole.iter() {
            let item = next(&archive, &mut entries, &bytes, piece);
            assert_eq!(&summary(&item), expected);
        }
    }
}

#[test]
fn unread_contents_are_skipped() {
    let mut bytes = file("a", &[9u8; 700]);
    bytes.extend(file("b", b""));
    for taken in [0usize, 1, 700, 1024] {
        let (archive, mut entries) = open(false);
        entry(next(&archive, &mut entries, &bytes, 512));
        assert!(archive.advance(taken));
        let e = entry(next(&archive, &mut entries, &bytes, 512));
        assert_eq!((e.header_pos, e.file_pos), (1536, 2048));
    }
}

#[test]
fn reads_are_bounded() {
    let bytes = file("a", &[9u8; 100_000]);
    let (archive, mut entries) = open(false);
    entry(next(&archive, &mut entries, &bytes, 512));
    assert_eq!(entries.poll_next(), Request::Position);
    entries.at_position(512);
    assert_eq!(entries.poll_next(), Request::Read(32768));
    assert_eq!(entries.poll_next(), Request::Read(32768));
}

#[test]
fn zeros_end_the_archive() {
    let mut bytes = vec![0u8; 1024];
    bytes.extend(file("a", b"x"));
    assert!(first(&bytes).is_none());
}

#[test]
fn zeros_can_be_ignored() {
    let mut bytes = file("a", b"x");
    bytes.extend(vec![0u8; 1024]);
    bytes.extend(file("b", b"y"));
    bytes.extend(vec![0u8; 1024]);
    let (archive, mut entries) = open(true);
    assert_eq!(entry(next(&archive, &mut entries, &bytes, 77)).header_pos, 0);
    assert_eq!(entry(next(&archive, &mut entries, &bytes, 77)).header_pos, 2048);
    assert!(next(&archive, &mut entries, &bytes, 77).is_none());
    assert_eq!(entries.next_header(), 4096);
}

#[test]
fn members_describe_the_next_entry() {
    let mut bytes = member("n", b"long name\0", b'L', GNU);
    bytes.extend(member("l", b"long link\0", b'K', GNU));
    bytes.extend(member("p", b"11 path=x\n", b'x', USTAR));
    bytes.extend(file("a", b"abc"));
    let e = entry(first_with(&bytes, false, 13));
    assert_eq!(e.header_pos, 3072);
    assert_eq!(e.long_pathname, Some(b"long name\0".to_vec()));
    assert_eq!(e.long_linkname, Some(b"long link\0".to_vec()));
    assert_eq!(e.pax_extensions, Some(b"11 path=x\n".to_vec()));
}

#[test]
fn an_empty_member_describes_too() {
    let mut bytes = member("n", b"", b'L', GNU);
    bytes.extend(file("a", b"abc"));
    assert_eq!(entry(first(&bytes)).long_pathname, Some(vec![]));
}

#[test]
fn members_need_their_format() {
    let e = entry(first(&member("n", b"long name\0", b'L', USTAR)));
    assert_eq!(e.header_pos, 0);
    let e = entry(first(&member("p", b"11 path=x\n", b'x', GNU)));
    assert_eq!(e.size, 10);
}

#[test]
fn raw_entries_are_as_they_stand() {
    let mut bytes = member("n", b"long name\0", b'L', GNU);
    bytes.extend(sparse(&[(0, 512)], 512, 512, false));
    bytes.extend(vec![1u8; 512]);
    let (archive, entries) = open(false);
    let mut entries = entries.raw(true);
    let e = entry(next(&archive, &mut entries, &bytes, 100));
    assert_eq!((e.header_pos, e.size), (0, 10));
    let e = entry(next(&archive, &mut entries, &bytes, 100));
    assert_eq!(e.long_pathname, None);
    assert_eq!(e.data, vec![EntryIo::Data(512)]);
    assert!(next(&archive, &mut entries, &bytes, 100).is_none());
}

#[test]
fn raw_can_be_taken_back() {
    let mut bytes = member("n", b"long name\0", b'L', GNU);
    bytes.extend(file("a", b""));
    let (archive, entries) = open(false);
    let mut entries = entries.raw(true).raw(false);
    assert_eq!(entry(next(&archive, &mut entries, &bytes, 100)).header_pos, 1024);
}

#[test]
fn options_reach_the_entries() {
    let bytes = file("a", b"");
    let mut archive = ArchiveBuilder::new(())
        .set_unpack_xattrs(true)
        .set_preserve_permissions(true)
        .set_preserve_mtime(false)
        .build();
    let mut entries = match archive.entries() {
        Ok(entries) => entries,
        Err(e) => panic!("{}", e.message()),
    };
    let e = entry(next(&archive, &mut entries, &bytes, 512));
    assert!(e.unpack_xattrs);
    assert!(e.preserve_permissions);
    assert!(!e.preserve_mtime);
}

#[test]
fn sparse_contents_are_laid_out() {
    let mut bytes = sparse(&[(512, 512), (1024, 512), (4096, 10)], 1034, 4106, false);
    bytes.extend(vec![1u8; 1536]);
    let (archive, mut entries) = open(false);
    let e = entry(next(&archive, &mut entries, &bytes, 512));
    assert_eq!(e.size, 4106);
    assert_eq!(
        e.data,
        vec![
            EntryIo::Pad(512),
            EntryIo::Data(512),
            EntryIo::Data(512),
            EntryIo::Pad(2560),
            EntryIo::Data(10),
        ]
    );
    assert_eq!(entries.next_header(), 2048);
}

#[test]
fn sparse_lists_can_be_extended() {
    let blocks: Vec<(u64, u64)> = (0..26).map(|i| (i * 1024, 512)).collect();
    let mut bytes = sparse(&blocks[..4], 26 * 512, 25 * 1024 + 512, true);
    let mut ext = vec![0u8; 512];
    put_blocks(&mut ext, 0, &blocks[4..25]);
    ext[504] = 1;
    bytes.extend(ext);
    let mut ext = vec![0u8; 512];
    put_blocks(&mut ext, 0, &blocks[25..]);
    bytes.extend(ext);
    let (archive, mut entries) = open(false);
    let e = entry(next(&archive, &mut entries, &bytes, 300));
    assert_eq!(e.size, 25 * 1024 + 512);
    assert_eq!(e.data.len(), 51);
    assert_eq!(archive.position(), 1536);
    assert_eq!(entries.next_header(), 1536 + 26 * 512);
}

#[test]
fn a_short_block_is_an_error() {
    assert_eq!(error(first(&[1u8; 100])), TarError::ShortBlock);
    let mut bytes = sparse(&[(0, 512)], 512, 512, true);
    bytes.extend(vec![0u8; 10]);
    assert_eq!(error(first(&bytes)), TarError::ShortBlock);
}

#[test]
fn a_short_skip_is_an_error() {
    let bytes = file("a", &[1u8; 600]);
    let (archive, mut entries) = open(false);
    entry(next(&archive, &mut entries, &bytes[..700], 512));
    let item = next(&archive, &mut entries, &bytes[..700], 512);
    assert_eq!(error(item), TarError::SkipEof);
}

#[test]
fn a_short_member_is_an_error() {
    let bytes = member("n", b"long name\0", b'L', GNU);
    assert_eq!(error(first(&bytes[..515])), TarError::SkipEof);
}

#[test]
fn an_error_ends_the_iteration() {
    let mut bytes = file("a", b"");
    bytes[0] = b'b';
    bytes.extend(file("b", b""));
    let (archive, mut entries) = open(false);
    let item = next(&archive, &mut entries, &bytes, 512);
    assert_eq!(error(item), TarError::ChecksumMismatch);
    assert_eq!(entries.poll_next(), Request::Nothing);
    assert!(next(&archive, &mut entries, &bytes, 512).is_none());
}

#[test]
fn a_failing_reader_ends_the_iteration() {
    let (_, mut entries) = open(false);
    entries.poll_next();
    entries.at_position(0);
    assert_eq!(entries.poll_next(), Request::Read(512));
    match entries.read_failed() {
        Progress::Ready(item) => assert_eq!(error(item), TarError::Reader),
        Progress::Pending => panic!(),
    }
    assert_eq!(entries.poll_next(), Request::Nothing);
}

#[test]
fn numeric_fields_have_to_be_numbers() {
    let mut h = file("a", b"");
    h[148..156].copy_from_slice(b"zzzzzzzz");
    assert_eq!(error(first(&h)), TarError::InvalidField(Field::Checksum));
    let mut h = file("a", b"");
    h[124] = b'9';
    seal(&mut h);
    assert_eq!(error(first(&h)), TarError::InvalidField(Field::Size));
    let mut h = sparse(&[(0, 512)], 512, 512, false);
    h[390] = b'x';
    seal(&mut h);
    assert_eq!(error(first(&h)), TarError::InvalidField(Field::SparseOffset));
    let mut h = sparse(&[(0, 512)], 512, 512, false);
    h[400] = b'x';
    seal(&mut h);
    assert_eq!(error(first(&h)), TarError::InvalidField(Field::SparseLength));
    let mut h = sparse(&[(0, 512)], 512, 512, false);
    h[483] = 0;
    seal(&mut h);
    assert_eq!(error(first(&h)), TarError::InvalidField(Field::RealSize));
}

#[test]
fn members_need_an_entry() {
    let bytes = member("n", b"long name\0", b'L', GNU);
    assert_eq!(error(first(&bytes)), TarError::NoFutureMember);
    let mut bytes = bytes;
    bytes.extend(vec![0u8; 1024]);
    assert_eq!(error(first(&bytes)), TarError::NoFutureMember);
}

#[test]
fn members_come_once() {
    let twice = |flag: u8, magic: &[u8; 8]| {
        let mut bytes = member("n", b"contents", flag, magic);
        bytes.extend(member("n", b"contents", flag, magic));
        bytes.extend(file("a", b""));
        error(first(&bytes))
    };
    assert_eq!(twice(b'L', GNU), TarError::TwoLongNames);
    assert_eq!(twice(b'K', GNU), TarError::TwoLongLinks);
    assert_eq!(twice(b'x', USTAR), TarError::TwoPaxExtensions);
}

#[test]
fn sparse_entries_need_a_gnu_header() {
    assert_eq!(error(first(&member("a", b"", b'S', USTAR))), TarError::SparseNotGnu);
}

#[test]
fn wrong_block_lists_are_errors() {
    let bad = |blocks: &[(u64, u64)], size, real| error(first(&sparse(blocks, size, real, false)));
    assert_eq!(bad(&[(0, 10), (512, 10)], 20, 522), TarError::SparseUnaligned);
    assert_eq!(bad(&[(0, 512), (511, 10)], 522, 521), TarError::SparseOutOfOrder);
    assert_eq!(bad(&[(0, 513)], 512, 513), TarError::SparseOverrun);
    assert_eq!(bad(&[(0, 512)], 512, 513), TarError::SparseSizeMismatch);
    assert_eq!(bad(&[(0, 512)], 513, 512), TarError::SparseEntrySizeMismatch);
    let mut h = sparse(&[(0, 512)], 512, 512, false);
    binary(&mut h[386..398], u64::MAX);
    seal(&mut h);
    assert_eq!(error(first(&h)), TarError::SparseTooLarge);
    assert_eq!(
        error(first(&sparse(&[(0, 512)], 512, 512, true))),
        TarError::NoExtension
    );
}

#[test]
fn sizes_can_be_binary() {
    let mut h = file("a", b"");
    binary(&mut h[124..136], 1 << 40);
    seal(&mut h);
    let (archive, mut entries) = open(false);
    assert_eq!(entry(next(&archive, &mut entries, &h, 512)).size, 1 << 40);
    assert_eq!(entries.next_header(), (1 << 40) + 512);
}

#[test]
fn headers_beyond_u64_do_not_fit() {
    let mut h = file("a", b"");
    binary(&mut h[124..136], u64::MAX - 1024);
    seal(&mut h);
    let (_, mut entries) = open(false);
    entries.poll_next();
    entries.at_position(0);
    assert!(entries.fits(&h));
    binary(&mut h[124..136], u64::MAX - 1023);
    seal(&mut h);
    assert!(entries.fits(&h));
    binary(&mut h[124..136], u64::MAX - 1022);
    seal(&mut h);
    assert!(!entries.fits(&h));
    binary(&mut h[124..136], u64::MAX);
    seal(&mut h);
    assert!(!entries.fits(&h));
    assert!(entries.fits(&[0u8; 512]));
    assert!(entries.fits(&[1u8; 100]));
}

#[test]
fn entries_start_at_position_zero() {
    let mut archive = Archive::new(());
    assert!(archive.entries().is_ok());
    assert!(archive.advance(1));
    match archive.entries() {
        Ok(_) => panic!(),
        Err(e) => assert_eq!(e, TarError::NotAtStart),
    }
    assert!(archive.entries_at(0).is_ok());
}

/// Reads an archive to its end: the entries, with their places and what they
/// hold, and the error that it ended with, if any.
fn read_all(bytes: &[u8], raw: bool) -> (Vec<Entry>, Option<TarError>) {
    let (archive, entries) = open(true);
    let mut entries = entries.raw(raw);
    let mut found = vec![];
    loop {
        match next(&archive, &mut entries, bytes, 300) {
            Some(Ok(e)) => found.push(e),
            Some(Err(e)) => return (found, Some(e)),
            None => return (found, None),
        }
    }
}

fn two_archives() -> (Vec<u8>, Vec<u8>) {
    let mut a = file("a", b"hello");
    a.extend(member("n", b"long name\0", b'L', GNU));
    a.extend(file("b", &[7u8; 600]));
    a.extend(vec![0u8; 1024]);
    let mut b = member("l", b"long link\0", b'K', GNU);
    b.extend(file("c", b"xyz"));
    b.extend(sparse(&[(0, 512)], 512, 512, false));
    b.extend(vec![1u8; 512]);
    b.extend(vec![0u8; 512]);
    (a, b)
}

#[test]
fn joined_archives_are_read_as_one() {
    let (a, b) = two_archives();
    for raw in [false, true] {
        let (mut expected, end) = read_all(&a, raw);
        assert_eq!(end, None);
        let (second, end) = read_all(&b, raw);
        assert_eq!(end, None);
        for mut e in second {
            e.header_pos += a.len() as u64;
            e.file_pos += a.len() as u64;
            expected.push(e);
        }
        let joined = [a.clone(), b.clone()].concat();
        let (found, end) = read_all(&joined, raw);
        assert_eq!(end, None);
        assert_eq!(format!("{:?}", found), format!("{:?}", expected));
    }
    let joined = [a, b].concat();
    let places: Vec<u64> = read_all(&joined, false)
        .0
        .iter()
        .map(|e| e.header_pos)
        .collect();
    assert_eq!(places, vec![0, 2048, 5632, 6656]);
}

#[test]
fn joined_archives_end_as_the_second() {
    let (a, _) = two_archives();
    let joined = [a, b"short".to_vec()].concat();
    let (found, end) = read_all(&joined, false);
    assert_eq!(found.len(), 2);
    assert_eq!(end, Some(TarError::ShortBlock));
}

#[test]
fn the_next_header_follows_the_contents() {
    let mut bytes = file("a", &[1u8; 513]);
    bytes.extend(file("b", b""));
    bytes.extend(file("c", &[2u8; 512]));
    let (archive, entries) = open(false);
    let mut entries = entries.raw(true);
    for (header_pos, behind) in [(0, 1536), (1536, 2048), (2048, 3072)] {
        assert_eq!(entries.next_header(), header_pos);
        let e = entry(next(&archive, &mut entries, &bytes, 200));
        assert_eq!(e.header_pos, header_pos);
        assert_eq!(e.file_pos, header_pos + 512);
        assert_eq!(archive.position(), e.file_pos);
        assert_eq!(entries.next_header(), behind);
    }
}

#[test]
fn the_end_of_the_input_comes_again() {
    let bytes = file("a", b"hello");
    for raw in [false, true] {
        let (archive, entries) = open(false);
        let mut entries = entries.raw(raw);
        entry(next(&archive, &mut entries, &bytes, 1000));
        for _ in 0..3 {
            assert!(next(&archive, &mut entries, &bytes, 1000).is_none());
            assert_eq!(archive.position(), 1024);
            assert_eq!(entries.next_header(), 1024);
        }
    }
}

#[test]
fn unread_contents_make_no_difference_to_raw_entries() {
    let mut bytes = file("a", &[9u8; 700]);
    bytes.extend(file("b", b"x"));
    for taken in [0usize, 1, 511, 700, 1024] {
        let (archive, entries) = open(false);
        let mut entries = entries.raw(true);
        entry(next(&archive, &mut entries, &bytes, 512));
        assert!(archive.advance(taken));
        let e = entry(next(&archive, &mut entries, &bytes, 512));
        assert_eq!((e.header_pos, e.file_pos, e.size), (1536, 2048, 1));
        assert_eq!(archive.position(), 2048);
        assert_eq!(entries.next_header(), 2560);
    }
}
