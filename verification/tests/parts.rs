use async_tar::archive::{Archive, ArchiveBuilder};
use async_tar::entries::try_read_all;
use async_tar::entry::{EntryIo, MemberKind, Members, Options};
use async_tar::error::{Field, TarError};
use async_tar::header::{number_from, octal_from, Header};
use async_tar::sparse::SparseMap;
use async_tar::unpack::{place_of, UnpackError, UnpackEvent, UnpackStep};

#[test]
fn octal_fields_are_read() {
    assert_eq!(octal_from(b"0000644\0"), Some(0o644));
    assert_eq!(octal_from(b" 644 \0junk"), Some(0o644));
    assert_eq!(octal_from(b"\t17\n"), Some(0o17));
    assert_eq!(octal_from(b"777777777777"), Some(0o777777777777));
    assert_eq!(octal_from(b"0"), Some(0));
    assert_eq!(octal_from(b""), None);
    assert_eq!(octal_from(b"   "), None);
    assert_eq!(octal_from(b"\x00123"), None);
    assert_eq!(octal_from(b"12 3"), None);
    assert_eq!(octal_from(b"8"), None);
    assert_eq!(octal_from(b"1777777777777777777777"), Some(u64::MAX));
    assert_eq!(octal_from(b"2000000000000000000000"), None);
}

#[test]
fn binary_fields_are_read() {
    assert_eq!(number_from(b"00000000644\0"), Some(0o644));
    assert_eq!(
        number_from(&[0x80, 0, 0, 0, 0, 0, 0, 0, 0, 0, 1, 2]),
        Some(258)
    );
    assert_eq!(
        number_from(&[0x80, 0, 0, 0, 255, 255, 255, 255, 255, 255, 255, 255]),
        Some(u64::MAX)
    );
}

#[test]
fn headers_add_up() {
    let mut block = [0u8; 512];
    assert!(Header::from_block(&block).is_zero());
    assert_eq!(Header::from_block(&block).sum(), 256);
    block[0] = 10;
    block[147] = 20;
    block[156] = 30;
    block[511] = 40;
    for b in block[148..156].iter_mut() {
        *b = 99;
    }
    let header = Header::from_block(&block);
    assert!(!header.is_zero());
    assert_eq!(header.sum(), 356);
    assert_eq!(header.entry_type(), 30);
    assert_eq!(header.as_bytes(), &block[..]);
    assert_eq!(Header::from_block(&[255u8; 512]).sum(), 504 * 255 + 256);
}

#[test]
fn header_fields_are_read() {
    let mut block = [0u8; 512];
    block[124..127].copy_from_slice(b"17 ");
    block[148..151].copy_from_slice(b"20\0");
    block[483..486].copy_from_slice(b"30\0");
    let header = Header::from_block(&block);
    assert_eq!(header.entry_size(), Ok(0o17));
    assert_eq!(header.cksum(), Ok(0o20));
    assert_eq!(header.real_size(), Ok(0o30));
    let header = Header::from_block(&[0u8; 512]);
    assert_eq!(header.entry_size(), Err(TarError::InvalidField(Field::Size)));
    assert_eq!(header.cksum(), Err(TarError::InvalidField(Field::Checksum)));
    assert_eq!(header.real_size(), Err(TarError::InvalidField(Field::RealSize)));
}

#[test]
fn formats_are_told_apart() {
    let mut block = [0u8; 512];
    assert!(!Header::from_block(&block).is_gnu());
    assert!(!Header::from_block(&block).is_ustar());
    block[257..265].copy_from_slice(b"ustar  \0");
    assert!(Header::from_block(&block).is_gnu());
    assert!(!Header::from_block(&block).is_ustar());
    block[257..265].copy_from_slice(b"ustar\x0000");
    assert!(!Header::from_block(&block).is_gnu());
    assert!(Header::from_block(&block).is_ustar());
}

#[test]
fn blocks_are_filled() {
    let mut buf = Vec::new();
    assert_eq!(try_read_all(&mut buf, 512, &[]), Ok(Some(false)));
    assert_eq!(try_read_all(&mut buf, 512, &[1u8; 100]), Ok(None));
    assert_eq!(try_read_all(&mut buf, 512, &[]), Err(TarError::ShortBlock));
    assert_eq!(try_read_all(&mut buf, 512, &[2u8; 412]), Ok(Some(true)));
    assert_eq!(buf.len(), 512);
    assert_eq!((buf[99], buf[100]), (1, 2));
    let mut buf = Vec::new();
    assert_eq!(try_read_all(&mut buf, 3, &[1, 2, 3]), Ok(Some(true)));
    assert_eq!(buf, vec![1, 2, 3]);
}

#[test]
fn bytes_are_skipped() {
    assert_eq!(Archive::<()>::skip_request(0), 0);
    assert_eq!(Archive::<()>::skip_request(5), 5);
    assert_eq!(Archive::<()>::skip_request(32768), 32768);
    assert_eq!(Archive::<()>::skip_request(u64::MAX), 32768);
    assert_eq!(Archive::<()>::skip(10, 3), Ok(7));
    assert_eq!(Archive::<()>::skip(10, 10), Ok(0));
    assert_eq!(Archive::<()>::skip(10, 0), Err(TarError::SkipEof));
}

#[test]
fn unused_descriptors_are_passed_over() {
    let mut map = SparseMap::new(512);
    assert_eq!(map.add_blocks(&[0u8; 96], 0, 4), Ok(()));
    assert_eq!(map.end(), 0);
    assert_eq!(map.remaining(), 512);
    let mut d = *b"00000000000\000000001000\0";
    assert_eq!(map.add_block(&d), Ok(()));
    assert_eq!(map.end(), 512);
    assert_eq!(map.remaining(), 0);
    d[0] = 0;
    assert_eq!(map.add_block(&d), Ok(()));
    assert_eq!(map.into_data(), vec![EntryIo::Data(512)]);
}

#[test]
fn archives_have_default_options() {
    let standard = Options {
        unpack_xattrs: false,
        preserve_permissions: false,
        preserve_mtime: true,
        ignore_zeros: false,
    };
    assert_eq!(Archive::new(1u8).config(), standard);
    assert_eq!(ArchiveBuilder::new(1u8).build().config(), standard);
}

#[test]
fn options_are_set_one_by_one() {
    let builder = || ArchiveBuilder::new(());
    let standard = builder().build().config();
    let options = builder().set_unpack_xattrs(true).build().config();
    assert_eq!(options, Options { unpack_xattrs: true, ..standard });
    let options = builder().set_preserve_permissions(true).build().config();
    assert_eq!(options, Options { preserve_permissions: true, ..standard });
    let options = builder().set_preserve_mtime(false).build().config();
    assert_eq!(options, Options { preserve_mtime: false, ..standard });
    let options = builder().set_ignore_zeros(true).build().config();
    assert_eq!(options, Options { ignore_zeros: true, ..standard });
    let options = builder()
        .set_ignore_zeros(true)
        .set_ignore_zeros(false)
        .build()
        .config();
    assert_eq!(options, standard);
}

#[test]
fn the_reader_is_given_back() {
    let archive = Archive::new(vec![1u8, 2, 3]);
    assert_eq!(*archive.reader().borrow(), vec![1u8, 2, 3]);
    match archive.into_inner() {
        Ok(obj) => assert_eq!(obj, vec![1u8, 2, 3]),
        Err(_) => panic!(),
    }
    match ArchiveBuilder::new("reader").build().into_inner() {
        Ok(obj) => assert_eq!(obj, "reader"),
        Err(_) => panic!(),
    }
}

#[test]
fn a_shared_reader_is_kept() {
    let archive = Archive::new(7u32);
    let other = archive.clone();
    assert!(other.advance(5));
    let archive = match archive.into_inner() {
        Ok(_) => panic!(),
        Err(archive) => archive,
    };
    assert_eq!(archive.position(), 5);
    drop(other);
    match archive.into_inner() {
        Ok(obj) => assert_eq!(obj, 7),
        Err(_) => panic!(),
    }
}

#[test]
fn handles_share_the_position() {
    let archive = Archive::new(());
    let other = archive.clone();
    assert_eq!(archive.position(), 0);
    assert!(archive.advance(10));
    assert!(other.advance(5));
    assert_eq!(archive.position(), 15);
    assert_eq!(other.position(), 15);
}

#[test]
fn the_position_does_not_wrap() {
    let archive = Archive::new(());
    assert!(archive.advance(usize::MAX));
    assert!(!archive.advance(usize::MAX));
    assert_eq!(archive.position(), usize::MAX as u64);
}

#[test]
fn members_are_kept_by_kind() {
    let mut members = Members::new();
    assert!(!members.any());
    members.insert(MemberKind::LongLink, vec![1]);
    assert!(members.any());
    assert!(members.has(MemberKind::LongLink));
    assert!(!members.has(MemberKind::LongName));
    assert!(!members.has(MemberKind::PaxExtensions));
    assert_eq!(members.long_linkname, Some(vec![1]));
}

#[test]
fn paths_stay_inside() {
    let names = |path: &[u8]| place_of(path);
    assert_eq!(names(b"a/b"), Some(vec![b"a".to_vec(), b"b".to_vec()]));
    assert_eq!(names(b"//a/./b/"), Some(vec![b"a".to_vec(), b"b".to_vec()]));
    assert_eq!(names(b"..a/b.."), Some(vec![b"..a".to_vec(), b"b..".to_vec()]));
    assert_eq!(names(b""), Some(vec![]));
    assert_eq!(names(b"."), Some(vec![]));
    assert_eq!(names(b".."), None);
    assert_eq!(names(b"../a"), None);
    assert_eq!(names(b"a/../b"), None);
    assert_eq!(names(b"a/.."), None);
}

#[test]
fn unpacking_goes_entry_by_entry() {
    let step = |event| Archive::<()>::unpack(event);
    assert!(matches!(step(UnpackEvent::Opened(Ok(()))), UnpackStep::NextEntry));
    assert!(matches!(
        step(UnpackEvent::Opened(Err(TarError::NotAtStart))),
        UnpackStep::Finish(Err(UnpackError::Entries(TarError::NotAtStart)))
    ));
    assert!(matches!(step(UnpackEvent::Next(None)), UnpackStep::Finish(Ok(()))));
    assert!(matches!(
        step(UnpackEvent::Next(Some(Err(TarError::SkipEof)))),
        UnpackStep::Finish(Err(UnpackError::Iterate(TarError::SkipEof)))
    ));
    match step(UnpackEvent::Next(Some(Ok(b"a/b")))) {
        UnpackStep::UnpackEntry(names) => assert_eq!(names.len(), 2),
        _ => panic!(),
    }
    assert!(matches!(
        step(UnpackEvent::Next(Some(Ok(b"../b")))),
        UnpackStep::NextEntry
    ));
    assert!(matches!(step(UnpackEvent::Unpacked(true)), UnpackStep::NextEntry));
    assert!(matches!(
        step(UnpackEvent::Unpacked(false)),
        UnpackStep::Finish(Err(UnpackError::Entry))
    ));
}

#[test]
fn errors_are_described() {
    assert_eq!(
        TarError::NotAtStart.message(),
        "cannot call entries unless archive is at position 0"
    );
    assert_eq!(TarError::SkipEof.message(), "unexpected EOF during skip");
    assert_eq!(
        TarError::TwoLongLinks.message(),
        "two long name entries describing the same member"
    );
    assert_eq!(
        TarError::SparseUnaligned.message(),
        "previous block in sparse file was not aligned to 512-byte boundary"
    );
    assert_eq!(
        UnpackError::Iterate(TarError::SkipEof).message(),
        "failed to iterate over archive"
    );
    assert_eq!(
        UnpackError::Entries(TarError::NotAtStart).message(),
        TarError::NotAtStart.message()
    );
}

#[test]
fn block_lists_join() {
    let mut block = [0u8; 72];
    block[..24].copy_from_slice(b"00000000000\000000001000\0");
    block[24..48].copy_from_slice(b"00000002000\000000001000\0");
    block[48..].copy_from_slice(b"00000004000\000000000012\0");
    let mut whole = SparseMap::new(1034);
    assert_eq!(whole.add_blocks(&block, 0, 3), Ok(()));
    let mut parts = SparseMap::new(1034);
    assert_eq!(parts.add_blocks(&block, 0, 1), Ok(()));
    assert_eq!(parts.add_blocks(&block, 24, 2), Ok(()));
    assert_eq!((whole.end(), whole.remaining()), (2058, 0));
    assert_eq!((parts.end(), parts.remaining()), (2058, 0));
    let data = whole.into_data();
    assert_eq!(data, parts.into_data());
    let lens: Vec<(u64, u64)> = data
        .iter()
        .map(|io| match io {
            EntryIo::Pad(n) => (*n, 0),
            EntryIo::Data(n) => (*n, *n),
        })
        .collect();
    assert_eq!(lens.iter().map(|l| l.0).sum::<u64>(), 2058);
    assert_eq!(lens.iter().map(|l| l.1).sum::<u64>(), 1034);
}

/// The places that are unpacked, and what it comes to.
fn run(items: &[(&[u8], bool)]) -> (Vec<Vec<Vec<u8>>>, Result<(), UnpackError>) {
    let mut places = Vec::new();
    let mut rest = items.iter();
    let mut unpacks = true;
    let mut step = Archive::<()>::unpack(UnpackEvent::Opened(Ok(())));
    loop {
        step = match step {
            UnpackStep::Finish(r) => return (places, r),
            UnpackStep::NextEntry => match rest.next() {
                Some((path, works)) => {
                    unpacks = *works;
                    Archive::<()>::unpack(UnpackEvent::Next(Some(Ok(path))))
                }
                None => Archive::<()>::unpack(UnpackEvent::Next(None)),
            },
            UnpackStep::UnpackEntry(names) => {
                places.push(names);
                Archive::<()>::unpack(UnpackEvent::Unpacked(unpacks))
            }
        };
    }
}

#[test]
fn unpacking_takes_every_entry() {
    let (places, r) = run(&[(b"a", true), (b"b/../c", false), (b"d/e", true)]);
    assert_eq!(r, Ok(()));
    assert_eq!(
        places,
        vec![vec![b"a".to_vec()], vec![b"d".to_vec(), b"e".to_vec()]]
    );
    let (places, r) = run(&[(b"a", false), (b"b", true)]);
    assert_eq!(r, Err(UnpackError::Entry));
    assert_eq!(places, vec![vec![b"a".to_vec()]]);
}

#[test]
fn positions_are_added_up() {
    assert_eq!(Archive::<()>::advanced(0, 0), Some(0));
    assert_eq!(Archive::<()>::advanced(512, 1024), Some(1536));
    assert_eq!(Archive::<()>::advanced(u64::MAX - 1, 1), Some(u64::MAX));
    assert_eq!(Archive::<()>::advanced(u64::MAX, 1), None);
    assert_eq!(Archive::<()>::advanced(u64::MAX, 0), Some(u64::MAX));
}
