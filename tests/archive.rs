use armake_pbo::codec::{PBOHeader, PboError, SENTINEL};
use armake_pbo::glob::{file_allowed, matches_glob};
use armake_pbo::pack::cat_entry;
use armake_pbo::pbo::PBO;
use linked_hash_map::LinkedHashMap;

fn s(x: &str) -> String {
    x.to_string()
}

fn container(files: &[(&str, &[u8])], meta: &[(&str, &str)]) -> PBO {
    let mut table = LinkedHashMap::new();
    for (name, content) in files {
        table.insert(s(name), content.to_vec());
    }
    PBO {
        files: table,
        header_extensions: meta.iter().map(|(k, v)| (s(k), s(v))).collect(),
        headers: Vec::new(),
        checksum: None,
    }
}

fn written(p: &PBO) -> Vec<u8> {
    let mut out = Vec::new();
    p.write(&mut out);
    out
}

fn hex(b: &[u8]) -> String {
    b.iter().map(|x| format!("{:02x}", x)).collect()
}

#[test]
fn glob_wildcard_suffix() {
    assert!(matches_glob(&s("a.p3d"), &s("*.p3d")));
}

#[test]
fn glob_prefix_mismatch() {
    assert!(!matches_glob(&s("a.p3d"), &s("b*.p3d")));
}

#[test]
fn glob_exact_without_wildcard() {
    assert!(matches_glob(&s("config.cpp"), &s("config.cpp")));
    assert!(!matches_glob(&s("config.cpp"), &s("config.bin")));
}

#[test]
fn glob_two_wildcards_and_empty_tail() {
    assert!(matches_glob(&s("data\\tex\\a.paa"), &s("data\\*\\*.paa")));
    assert!(matches_glob(&s("abc"), &s("a*")));
    assert!(!matches_glob(&s("ab"), &s("abc*")));
}

#[test]
fn file_allowed_checks_every_pattern() {
    let pats = vec![s("*.bak"), s("secret*")];
    assert!(file_allowed(&s("main.sqf"), &pats));
    assert!(!file_allowed(&s("old.bak"), &pats));
    assert!(!file_allowed(&s("secret.txt"), &pats));
    assert!(file_allowed(&s("anything"), &vec![]));
}

#[test]
fn header_encodes_little_endian() {
    let h = PBOHeader {
        filename: s("a"),
        packing_method: 0x01020304,
        original_size: 5,
        reserved: 0,
        timestamp: 0xffffffff,
        data_size: 256,
    };
    let mut out = vec![9u8];
    h.write(&mut out);
    let expected: Vec<u8> = vec![
        9, 97, 0, 4, 3, 2, 1, 5, 0, 0, 0, 0, 0, 0, 0, 255, 255, 255, 255, 0, 1, 0, 0,
    ];
    assert_eq!(out, expected);
    let (back, pos) = PBOHeader::read(&out, 1).unwrap();
    assert_eq!(pos, out.len());
    assert_eq!(back.filename, "a");
    assert_eq!(back.packing_method, 0x01020304);
    assert_eq!(back.original_size, 5);
    assert_eq!(back.timestamp, 0xffffffff);
    assert_eq!(back.data_size, 256);
}

#[test]
fn header_truncated_fields() {
    let bytes: Vec<u8> = vec![97, 0, 1, 2, 3];
    assert!(matches!(PBOHeader::read(&bytes, 0), Err(PboError::Truncated)));
    let no_nul: Vec<u8> = vec![97, 98];
    assert!(matches!(PBOHeader::read(&no_nul, 0), Err(PboError::Truncated)));
}

#[test]
fn header_invalid_name() {
    let mut bytes: Vec<u8> = vec![0xff, 0];
    bytes.extend_from_slice(&[0u8; 20]);
    assert!(matches!(PBOHeader::read(&bytes, 0), Err(PboError::InvalidText)));
}

#[test]
fn write_exact_layout() {
    let p = container(&[("a", b"xy")], &[("prefix", "p")]);
    let out = written(&p);
    let mut body: Vec<u8> = vec![0, 0x73, 0x72, 0x65, 0x56];
    body.extend_from_slice(&[0u8; 16]);
    body.extend_from_slice(b"prefix\0p\0\0");
    body.extend_from_slice(b"a\0");
    body.extend_from_slice(&[0, 0, 0, 0, 2, 0, 0, 0, 0, 0, 0, 0, 0, 0, 0, 0, 2, 0, 0, 0]);
    body.push(0);
    body.extend_from_slice(&[0u8; 20]);
    body.extend_from_slice(b"xy");
    let mut expected = body.clone();
    expected.push(0);
    expected.extend_from_slice(&openssl::sha::sha1(&body));
    assert_eq!(out, expected);
    assert_eq!(SENTINEL, 0x56657273);
}

#[test]
fn prefix_written_before_other_metadata() {
    let p = container(&[], &[("author", "me"), ("prefix", "x\\y")]);
    let out = written(&p);
    let meta = &out[21..];
    assert!(meta.starts_with(b"prefix\0x\\y\0author\0me\0\0"));
}

#[test]
fn round_trip_entries_and_metadata() {
    let p = container(
        &[("b.txt", b"bee"), ("A.txt", b""), ("dir\\c.sqf", b"hint 1;")],
        &[("prefix", "my\\mod"), ("version", "1.2")],
    );
    let out = written(&p);
    let back = PBO::read(&out).unwrap();
    assert_eq!(back.files.len(), 3);
    assert_eq!(back.files.get("b.txt").unwrap(), &b"bee".to_vec());
    assert_eq!(back.files.get("A.txt").unwrap(), &Vec::<u8>::new());
    assert_eq!(back.files.get("dir\\c.sqf").unwrap(), &b"hint 1;".to_vec());
    let mut meta = back.header_extensions.clone();
    meta.sort();
    assert_eq!(meta, vec![(s("prefix"), s("my\\mod")), (s("version"), s("1.2"))]);
    assert_eq!(back.checksum.unwrap(), out[out.len() - 20..].to_vec());
    assert_eq!(back.headers.len(), 3);
}

#[test]
fn write_twice_identical() {
    let p = container(&[("z", b"1"), ("Y", b"22"), ("x", b"333")], &[("prefix", "p"), ("k", "v")]);
    assert_eq!(written(&p), written(&p));
}

#[test]
fn entries_written_in_case_insensitive_order() {
    let p = container(&[("b.txt", b"2"), ("C.txt", b"3"), ("A.txt", b"1")], &[]);
    let back = PBO::read(&written(&p)).unwrap();
    let names: Vec<String> = back.headers.iter().map(|h| h.filename.clone()).collect();
    assert_eq!(names, vec![s("A.txt"), s("b.txt"), s("C.txt")]);
    let order: Vec<String> = back.files.iter().map(|(k, _)| k.clone()).collect();
    assert_eq!(order, names);
}

#[test]
fn name_hash_ignores_case_and_content() {
    let a = container(&[("A.txt", b"one"), ("b.TXT", b"two")], &[]);
    let b = container(&[("a.txt", b"three"), ("B.txt", b"")], &[]);
    assert_eq!(a.namehash(), b.namehash());
    assert_eq!(hex(&a.namehash()), "dcde91ae000d5fd9daef8b7f3541ba7e8a89b5b8");
    let c = container(&[("b.txt", b"x"), ("a.txt", b"y")], &[]);
    assert_eq!(c.namehash(), a.namehash());
    let d = container(&[("c.txt", b"one")], &[]);
    assert_ne!(d.namehash(), a.namehash());
}

#[test]
fn content_hash_media_only_matches_empty() {
    let media = container(&[("texture.paa", b"pixels")], &[]);
    let empty = container(&[], &[]);
    assert_eq!(media.filehash(), empty.filehash());
    assert_eq!(hex(&empty.filehash()), "0feca720e2c29dafb2c900713ba560e03b758711");
}

#[test]
fn content_hash_covers_other_files_in_order() {
    let p = container(&[("a.sqf", b"hello"), ("m.p3d", b"mesh"), ("b.hpp", b"world")], &[]);
    assert_eq!(hex(&p.filehash()), "6adfb183a4a2c94a2f92dab5ade762a47889a5a1");
    let q = container(&[("readme", b"hello")], &[]);
    assert_eq!(hex(&q.filehash()), "aaf4c61ddcc5e8a2dabede0f3b482cd9aea9434d");
}

#[test]
fn pack_prefix_file_round_trip() {
    let p = PBO::from_files(s("root"), vec![(s("$PBOPREFIX$"), b"z\\x".to_vec())], &vec![]);
    assert_eq!(p.header_extensions, vec![(s("prefix"), s("z\\x"))]);
    assert_eq!(p.files.len(), 0);
    assert_eq!(p.prefix_file(), b"prefix=z\\x\n".to_vec());
    let again = PBO::from_files(s("other"), vec![(s("$PBOPREFIX$"), p.prefix_file())], &vec![]);
    assert_eq!(again.header_extensions, p.header_extensions);
}

#[test]
fn pack_prefix_file_pairs_and_empty_line() {
    let text = b"a\\b\nauthor=me=you\n\nignored=1\n".to_vec();
    let p = PBO::from_files(s("root"), vec![(s("$PBOPREFIX$"), text)], &vec![]);
    assert_eq!(
        p.header_extensions,
        vec![(s("prefix"), s("a\\b")), (s("author"), s("me=you"))]
    );
}

#[test]
fn pack_defaults_prefix_to_root_name() {
    let p = PBO::from_files(s("my_addon"), vec![(s("main.sqf"), b"x".to_vec())], &vec![]);
    assert_eq!(p.header_extensions, vec![(s("prefix"), s("my_addon"))]);
    assert!(p.checksum.is_none());
    assert!(p.headers.is_empty());
}

#[test]
fn pack_normalizes_excludes_and_renames_config() {
    let files = vec![
        (s("sub/dir/file.sqf"), b"code".to_vec()),
        (s("skip.bak"), b"old".to_vec()),
        (s("config.cpp"), b"compiled".to_vec()),
        (s("config.bin"), b"stale".to_vec()),
    ];
    let p = PBO::from_files(s("root"), files, &vec![s("*.bak")]);
    assert_eq!(p.files.len(), 2);
    assert_eq!(p.files.get("sub\\dir\\file.sqf").unwrap(), &b"code".to_vec());
    assert!(p.files.get("skip.bak").is_none());
    assert_eq!(p.files.get("config.bin").unwrap(), &b"compiled".to_vec());
    assert!(p.files.get("config.cpp").is_none());
}

#[test]
fn pack_compiled_config_wins_in_either_order() {
    let files = vec![
        (s("config.bin"), b"stale".to_vec()),
        (s("config.cpp"), b"compiled".to_vec()),
    ];
    let p = PBO::from_files(s("root"), files, &vec![]);
    assert_eq!(p.files.len(), 1);
    assert_eq!(p.files.get("config.bin").unwrap(), &b"compiled".to_vec());
    let excluded = PBO::from_files(
        s("root"),
        vec![(s("config.cpp"), b"compiled".to_vec()), (s("config.bin"), b"literal".to_vec())],
        &vec![s("*.cpp")],
    );
    assert_eq!(excluded.files.get("config.bin").unwrap(), &b"literal".to_vec());
}

#[test]
fn cat_missing_entry_is_not_found() {
    let out = written(&container(&[("a.txt", b"abc")], &[("prefix", "p")]));
    assert_eq!(cat_entry(&out, &s("missing.txt")), Err(PboError::NotFound));
    assert_eq!(cat_entry(&out, &s("a.txt")), Ok(b"abc".to_vec()));
}

#[test]
fn cat_on_damaged_archive_is_format_error() {
    let out = written(&container(&[("a.txt", b"abc")], &[]));
    assert_eq!(cat_entry(&out[..out.len() - 5], &s("a.txt")), Err(PboError::Truncated));
}

#[test]
fn read_rejects_late_sentinel() {
    let mut bytes: Vec<u8> = b"a\0".to_vec();
    bytes.extend_from_slice(&[0u8; 20]);
    bytes.push(0);
    bytes.extend_from_slice(&[0x73, 0x72, 0x65, 0x56]);
    bytes.extend_from_slice(&[0u8; 16]);
    assert!(matches!(PBO::read(&bytes), Err(PboError::MisplacedSentinel)));
}

#[test]
fn read_keeps_unknown_packing_method() {
    let mut bytes: Vec<u8> = b"f\0".to_vec();
    bytes.extend_from_slice(&[7, 0, 0, 0, 9, 0, 0, 0, 0, 0, 0, 0, 0, 0, 0, 0, 1, 0, 0, 0]);
    bytes.extend_from_slice(&[0u8; 21]);
    bytes.push(b'q');
    bytes.push(0);
    bytes.extend_from_slice(&[5u8; 20]);
    let p = PBO::read(&bytes).unwrap();
    assert_eq!(p.headers[0].packing_method, 7);
    assert_eq!(p.files.get("f").unwrap(), &b"q".to_vec());
    assert_eq!(p.checksum.unwrap(), vec![5u8; 20]);
    assert!(p.header_extensions.is_empty());
}
