use std::io::Write;

use sha1::Digest;

use minigit::commands::{cat_file_p, hash_object, ls_tree};
use minigit::error::{Error, ErrorKind};
use minigit::obj_read::ObjReader;
use minigit::obj_type::ObjType;
use minigit::obj_write::write_object;
use minigit::store::ObjectStore;
use minigit::tree_entry::{Entry, FileType, Metadata, Mode};
use minigit::tree_read::TreeReader;
use minigit::tree_write::{
    hash_entry, le, sorted_entries, tree_from_dir, tree_from_workdir, EMPTY_TREE_HASH,
};
use minigit::worktree::{WorkEntry, WorkNode};

fn zlib(data: &[u8]) -> Vec<u8> {
    let mut encoder = flate2::write::ZlibEncoder::new(Vec::new(), flate2::Compression::default());
    encoder.write_all(data).unwrap();
    encoder.finish().unwrap()
}

fn object(kind: &str, payload: &[u8]) -> Vec<u8> {
    let mut out = format!("{} {}\0", kind, payload.len()).into_bytes();
    out.extend_from_slice(payload);
    out
}

fn sha1_hex(data: &[u8]) -> String {
    hex::encode(sha1::Sha1::digest(data))
}

fn file(name: &str, content: &[u8]) -> WorkEntry {
    WorkEntry {
        name: name.as_bytes().to_vec(),
        node: WorkNode::File { executable: false, content: content.to_vec() },
    }
}

fn exe(name: &str, content: &[u8]) -> WorkEntry {
    WorkEntry {
        name: name.as_bytes().to_vec(),
        node: WorkNode::File { executable: true, content: content.to_vec() },
    }
}

fn dir(name: &str, entries: Vec<WorkEntry>) -> WorkEntry {
    WorkEntry { name: name.as_bytes().to_vec(), node: WorkNode::Dir { entries } }
}

fn link(name: &str, target: &[u8]) -> WorkEntry {
    WorkEntry { name: name.as_bytes().to_vec(), node: WorkNode::SymLink { target: target.to_vec() } }
}

fn digest(hex_name: &str) -> [u8; 20] {
    hex::decode(hex_name).unwrap().try_into().unwrap()
}

const BLOB_A: &str = "8c7e5a667f1b771847fe88c01c3de34413a1b220";

#[test]
fn mode_strings() {
    for (text, mode) in [
        ("40000", Mode::Dir),
        ("100644", Mode::File),
        ("100755", Mode::Exe),
        ("120000", Mode::SymLink),
        ("160000", Mode::SubMod),
    ] {
        assert_eq!(mode.to_str(), text);
        assert_eq!(Mode::from_bytes(text.as_bytes()), Ok(mode));
    }
}

#[test]
fn unknown_mode_is_malformed() {
    assert_eq!(Mode::from_bytes(b"040000"), Err(Error::Malformed));
    assert_eq!(Mode::from_bytes(b"100664"), Err(Error::Malformed));
    assert_eq!(Mode::from_bytes(b""), Err(Error::Malformed));
    assert_eq!(Mode::from_bytes(b"100644 "), Err(Error::Malformed));
}

#[test]
fn mode_from_metadata() {
    let meta = |file_type, mode| Metadata { file_type, mode };
    assert_eq!(Mode::from_metadata(&meta(FileType::File, 0o100644)), Ok(Mode::File));
    assert_eq!(Mode::from_metadata(&meta(FileType::File, 0o100755)), Ok(Mode::Exe));
    assert_eq!(Mode::from_metadata(&meta(FileType::File, 0o100001)), Ok(Mode::Exe));
    assert_eq!(Mode::from_metadata(&meta(FileType::File, 0o100010)), Ok(Mode::Exe));
    assert_eq!(Mode::from_metadata(&meta(FileType::File, 0o100600)), Ok(Mode::File));
    assert_eq!(Mode::from_metadata(&meta(FileType::Dir, 0o40755)), Ok(Mode::Dir));
    assert_eq!(Mode::from_metadata(&meta(FileType::SymLink, 0o120777)), Ok(Mode::SymLink));
    assert_eq!(
        Mode::from_metadata(&meta(FileType::Other, 0o10644)),
        Err(Error::UnsupportedFileType)
    );
    assert_eq!(Error::UnsupportedFileType.kind(), ErrorKind::Unsupported);
}

#[test]
fn object_type_of_each_mode() {
    assert_eq!(Mode::Dir.obj_type(), ObjType::Tree);
    assert_eq!(Mode::File.obj_type(), ObjType::Blob);
    assert_eq!(Mode::Exe.obj_type(), ObjType::Blob);
    assert_eq!(Mode::SymLink.obj_type(), ObjType::Blob);
    assert_eq!(Mode::SubMod.obj_type(), ObjType::Commit);
}

#[test]
fn entry_in_wire_form() {
    let entry = Entry { mode: Mode::File, name: b"f.txt".to_vec(), hash: digest(BLOB_A) };
    let mut out = b"!".to_vec();
    entry.push_to_vec(&mut out);
    let mut expected = b"!100644 f.txt\0".to_vec();
    expected.extend_from_slice(&digest(BLOB_A));
    assert_eq!(out, expected);
    assert_eq!(out.len(), 1 + 6 + 1 + 5 + 1 + 20);
}

#[test]
fn entry_is_parsed_back_from_its_wire_form() {
    let entries = vec![
        Entry { mode: Mode::Dir, name: b"with space".to_vec(), hash: [7; 20] },
        Entry { mode: Mode::Exe, name: vec![0xff, 0xfe, b'\n'], hash: [0; 20] },
        Entry { mode: Mode::SubMod, name: b"".to_vec(), hash: [32; 20] },
    ];
    let mut payload = Vec::new();
    for entry in &entries {
        entry.push_to_vec(&mut payload);
    }
    let mut reader = ObjReader::from_file(&zlib(&object("tree", &payload))).unwrap();
    for entry in &entries {
        assert_eq!(reader.eof(), Ok(false));
        assert_eq!(Entry::parse(&mut reader).as_ref(), Ok(entry));
    }
    assert_eq!(reader.eof(), Ok(true));
    let tree = TreeReader::from_object(ObjReader::from_file(&zlib(&object("tree", &payload))).unwrap());
    assert_eq!(tree.unwrap().entries(), Ok(entries));
}

#[test]
fn entry_with_unknown_mode_is_malformed() {
    let mut payload = b"100666 f\0".to_vec();
    payload.extend_from_slice(&[1; 20]);
    let mut store = ObjectStore::new();
    let name = write_object(ObjType::Tree, &payload, true, &mut store);
    assert_eq!(ls_tree(&store, &name, false), Err(Error::Malformed));
    assert_eq!(cat_file_p(&store, &name), Err(Error::Malformed));
}

#[test]
fn truncated_entry_is_an_unexpected_eof() {
    let mut store = ObjectStore::new();
    let mut payload = b"100644 f\0".to_vec();
    payload.extend_from_slice(&[1; 19]);
    let name = write_object(ObjType::Tree, &payload, true, &mut store);
    assert_eq!(ls_tree(&store, &name, false), Err(Error::UnexpectedEof));
    let no_nul = write_object(ObjType::Tree, b"100644 f", true, &mut store);
    assert_eq!(ls_tree(&store, &no_nul, true), Err(Error::UnexpectedEof));
    let no_space = write_object(ObjType::Tree, b"100644", true, &mut store);
    assert_eq!(ls_tree(&store, &no_space, true), Err(Error::UnexpectedEof));
}

#[test]
fn listing_of_a_tree() {
    let mut store = ObjectStore::new();
    let mut payload = Vec::new();
    Entry { mode: Mode::File, name: b"a.txt".to_vec(), hash: digest(BLOB_A) }.push_to_vec(&mut payload);
    Entry { mode: Mode::Exe, name: b"run".to_vec(), hash: [0xab; 20] }.push_to_vec(&mut payload);
    Entry { mode: Mode::SymLink, name: b"ln".to_vec(), hash: [0x01; 20] }.push_to_vec(&mut payload);
    Entry { mode: Mode::SubMod, name: b"sub".to_vec(), hash: [0x02; 20] }.push_to_vec(&mut payload);
    Entry { mode: Mode::Dir, name: b"d".to_vec(), hash: [0xff; 20] }.push_to_vec(&mut payload);
    let name = write_object(ObjType::Tree, &payload, true, &mut store);
    let expected = format!(
        "100644 blob {}\ta.txt\n100755 blob {}\trun\n120000 blob {}\tln\n160000 commit {}\tsub\n040000 tree {}\td\n",
        BLOB_A,
        "ab".repeat(20),
        "01".repeat(20),
        "02".repeat(20),
        "ff".repeat(20),
    );
    assert_eq!(ls_tree(&store, &name, false), Ok(expected.clone().into_bytes()));
    assert_eq!(cat_file_p(&store, &name), Ok(expected.into_bytes()));
    assert_eq!(ls_tree(&store, &name, true), Ok(b"a.txt\nrun\nln\nsub\nd\n".to_vec()));
}

#[test]
fn entry_lines() {
    let entry = Entry { mode: Mode::Dir, name: b"src".to_vec(), hash: [0x10; 20] };
    let mut line = Vec::new();
    entry.print(&mut line);
    assert_eq!(line, format!("040000 tree {}\tsrc\n", "10".repeat(20)).into_bytes());
    let mut name = b">".to_vec();
    entry.print_name(&mut name);
    assert_eq!(name, b">src\n".to_vec());
}

#[test]
fn ls_tree_of_something_else_is_not_a_tree() {
    let mut store = ObjectStore::new();
    let blob = hash_object(b"A", true, &mut store);
    assert_eq!(ls_tree(&store, &blob, false), Err(Error::NotATree));
    assert!(matches!(TreeReader::from_hash(&store, &blob), Err(Error::NotATree)));
    assert_eq!(Error::NotATree.kind(), ErrorKind::Malformed);
    assert_eq!(ls_tree(&store, "abc", false), Err(Error::BadName));
}

#[test]
fn tree_with_trailing_bytes() {
    let mut store = ObjectStore::new();
    store.load("abcdef", zlib(b"tree 0\0x"));
    assert_eq!(ls_tree(&store, "abcdef", false), Err(Error::TrailingBytes));
}

#[test]
fn tree_of_a_single_file() {
    let mut store = ObjectStore::new();
    let root = vec![file("f.txt", b"A")];
    let name = tree_from_workdir(&root, &mut store).unwrap();
    let mut payload = b"100644 f.txt\0".to_vec();
    payload.extend_from_slice(&digest(BLOB_A));
    assert_eq!(name, sha1_hex(&object("tree", &payload)));
    assert_eq!(name, "7a15f96e1113fe5af5888e83cfb9f066c76b8a41");
    assert_eq!(store.len(), 2);
    assert_eq!(store.slot(0).name, BLOB_A.as_bytes());
    assert_eq!(store.slot(1).name, name.as_bytes());
    let tree = ObjReader::from_hash(&store, &name).unwrap();
    assert_eq!(tree.obj_type(), ObjType::Tree);
    let mut tree = tree;
    assert_eq!(tree.read_to_end(), Ok(payload));
    assert_eq!(cat_file_p(&store, BLOB_A), Ok(b"A".to_vec()));
}

#[test]
fn tree_of_an_empty_directory() {
    let mut store = ObjectStore::new();
    assert_eq!(tree_from_workdir(&Vec::new(), &mut store).as_deref(), Ok(EMPTY_TREE_HASH));
    assert_eq!(EMPTY_TREE_HASH, "4b825dc642cb6eb9a060e54bf8d69288fbee4904");
    assert_eq!(ls_tree(&store, EMPTY_TREE_HASH, false), Ok(Vec::new()));
    assert_eq!(tree_from_dir(&Vec::new(), &mut store).as_deref(), Ok(EMPTY_TREE_HASH));
}

#[test]
fn empty_directories_are_left_out() {
    let mut store = ObjectStore::new();
    let with_empty = vec![dir("empty", Vec::new()), file("f.txt", b"A"), dir("nested", vec![dir("x", Vec::new())])];
    let plain = vec![file("f.txt", b"A")];
    let a = tree_from_workdir(&with_empty, &mut store).unwrap();
    let b = tree_from_workdir(&plain, &mut ObjectStore::new()).unwrap();
    assert_eq!(a, b);
    assert_eq!(ls_tree(&store, &a, true), Ok(b"f.txt\n".to_vec()));
    let only_empty = vec![dir("a", vec![dir("b", Vec::new())])];
    assert_eq!(tree_from_workdir(&only_empty, &mut store).as_deref(), Ok(EMPTY_TREE_HASH));
}

#[test]
fn the_administrative_directory_is_left_out() {
    let mut store = ObjectStore::new();
    let root = vec![
        dir(".git", vec![file("HEAD", b"ref: refs/heads/main\n"), WorkEntry { name: b"x".to_vec(), node: WorkNode::Other }]),
        file(".gitignore", b"target\n"),
        file("f.txt", b"A"),
    ];
    let name = tree_from_workdir(&root, &mut store).unwrap();
    assert_eq!(ls_tree(&store, &name, true), Ok(b".gitignore\nf.txt\n".to_vec()));
    assert_eq!(store.len(), 3);
}

#[test]
fn directories_sort_as_if_their_name_ended_in_a_slash() {
    let root = vec![
        dir("foo", vec![file("x", b"1")]),
        file("foo.txt", b"2"),
        file("foo-bar", b"3"),
        file("foo0", b"4"),
        file("fo", b"5"),
        dir("a", vec![file("y", b"6")]),
        file("a.b", b"7"),
        file("B", b"8"),
    ];
    let mut store = ObjectStore::new();
    let name = tree_from_workdir(&root, &mut store).unwrap();
    assert_eq!(
        ls_tree(&store, &name, true),
        Ok(b"B\na.b\na\nfo\nfoo-bar\nfoo.txt\nfoo\nfoo0\n".to_vec())
    );
    assert_eq!(sorted_entries(&root), vec![7, 6, 5, 4, 2, 1, 0, 3]);
}

#[test]
fn a_file_sorts_by_its_bare_name() {
    let as_files = vec![file("foo", b"1"), file("foo.txt", b"2")];
    assert_eq!(sorted_entries(&as_files), vec![0, 1]);
    let as_dir = vec![dir("foo", vec![file("x", b"1")]), file("foo.txt", b"2")];
    assert_eq!(sorted_entries(&as_dir), vec![1, 0]);
    assert_eq!(sorted_entries(&Vec::new()), Vec::<usize>::new());
}

#[test]
fn equal_keys_keep_their_order() {
    let root = vec![file("b", b"1"), file("a/", b"2"), dir("a", vec![file("x", b"3")]), file("a/", b"4")];
    assert_eq!(sorted_entries(&root), vec![1, 2, 3, 0]);
}

#[test]
fn order_of_byte_strings() {
    assert!(le(b"", b""));
    assert!(le(b"", b"a"));
    assert!(!le(b"a", b""));
    assert!(le(b"a", b"a"));
    assert!(le(b"a", b"ab"));
    assert!(!le(b"ab", b"a"));
    assert!(le(b"ab", b"b"));
    assert!(le(&[0x7f], &[0x80]));
    assert!(!le(&[0xff], &[0x00, 0xff]));
}

#[test]
fn modes_of_the_entries_of_a_tree() {
    let mut store = ObjectStore::new();
    let root = vec![
        dir("d", vec![file("inner", b"x")]),
        exe("run.sh", b"#!/bin/sh\n"),
        link("ln", b"d/inner"),
        file("plain", b"p"),
    ];
    let name = tree_from_workdir(&root, &mut store).unwrap();
    let entries = TreeReader::from_hash(&store, &name).unwrap().entries().unwrap();
    let modes: Vec<(Vec<u8>, Mode)> = entries.iter().map(|e| (e.name.clone(), e.mode)).collect();
    assert_eq!(
        modes,
        vec![
            (b"d".to_vec(), Mode::Dir),
            (b"ln".to_vec(), Mode::SymLink),
            (b"plain".to_vec(), Mode::File),
            (b"run.sh".to_vec(), Mode::Exe),
        ]
    );
    let target = hex::encode(entries[1].hash);
    assert_eq!(cat_file_p(&store, &target), Ok(b"d/inner".to_vec()));
    assert_eq!(target, sha1_hex(b"blob 7\0d/inner"));
}

#[test]
fn irregular_file_is_refused() {
    let mut store = ObjectStore::new();
    let root = vec![file("a", b"1"), WorkEntry { name: b"fifo".to_vec(), node: WorkNode::Other }, file("z", b"2")];
    assert_eq!(tree_from_workdir(&root, &mut store), Err(Error::UnsupportedFileType));
    assert_eq!(store.len(), 1);
    assert_eq!(hash_entry(&WorkNode::Other, &mut store), Err(Error::UnsupportedFileType));
    let nested = vec![dir("d", vec![WorkEntry { name: b"sock".to_vec(), node: WorkNode::Other }])];
    assert_eq!(tree_from_workdir(&nested, &mut store), Err(Error::UnsupportedFileType));
}

#[test]
fn hash_entry_of_each_kind() {
    let mut store = ObjectStore::new();
    let blob = hash_entry(&WorkNode::File { executable: true, content: b"A".to_vec() }, &mut store);
    assert_eq!(blob.as_deref(), Ok(BLOB_A));
    let target = hash_entry(&WorkNode::SymLink { target: b"A".to_vec() }, &mut store);
    assert_eq!(target.as_deref(), Ok(BLOB_A));
    let tree = hash_entry(&WorkNode::Dir { entries: Vec::new() }, &mut store);
    assert_eq!(tree.as_deref(), Ok(EMPTY_TREE_HASH));
    assert_eq!(store.len(), 3);
}

#[test]
fn checkout_gives_the_written_tree_back() {
    let mut store = ObjectStore::new();
    let root = vec![
        file("a.txt", b""),
        dir("a", vec![dir("deep", vec![file("leaf", b"leaf\n"), link("up", b"../..")]), exe("tool", &[0, 1, 2, 255])]),
        link("current", b"a/deep"),
        exe("z", b"#!/bin/sh\nexit 0\n"),
    ];
    let name = tree_from_workdir(&root, &mut store).unwrap();
    let tree = TreeReader::from_hash(&store, &name).unwrap();
    assert_eq!(tree.actualise_entries(&store, 16), Ok(root));
}

#[test]
fn checkout_needs_as_many_levels_as_the_tree_has() {
    let mut store = ObjectStore::new();
    let root = vec![dir("a", vec![dir("b", vec![file("c", b"c")])])];
    let name = tree_from_workdir(&root, &mut store).unwrap();
    let open = |store: &ObjectStore| TreeReader::from_hash(store, &name).unwrap();
    assert_eq!(open(&store).actualise_entries(&store, 0), Err(Error::TooDeep));
    assert_eq!(open(&store).actualise_entries(&store, 1), Err(Error::TooDeep));
    assert_eq!(open(&store).actualise_entries(&store, 2), Ok(root));
    assert_eq!(Error::TooDeep.kind(), ErrorKind::Io);
}

#[test]
fn tree_that_holds_itself_is_too_deep() {
    let mut store = ObjectStore::new();
    let name = "aa".repeat(20);
    let mut payload = Vec::new();
    Entry { mode: Mode::Dir, name: b"again".to_vec(), hash: [0xaa; 20] }.push_to_vec(&mut payload);
    store.load(&name, zlib(&object("tree", &payload)));
    let tree = TreeReader::from_hash(&store, &name).unwrap();
    assert_eq!(tree.actualise_entries(&store, 50), Err(Error::TooDeep));
}

#[test]
fn submodule_is_refused() {
    let mut store = ObjectStore::new();
    let mut payload = Vec::new();
    Entry { mode: Mode::SubMod, name: b"sub".to_vec(), hash: [0x02; 20] }.push_to_vec(&mut payload);
    let name = write_object(ObjType::Tree, &payload, true, &mut store);
    let tree = TreeReader::from_hash(&store, &name).unwrap();
    assert_eq!(tree.actualise_entries(&store, 4), Err(Error::SubmoduleUnsupported));
    assert_eq!(Error::SubmoduleUnsupported.kind(), ErrorKind::Unsupported);
    let entry = Entry { mode: Mode::SubMod, name: b"sub".to_vec(), hash: digest(BLOB_A) };
    hash_object(b"A", true, &mut store);
    assert_eq!(entry.actualise(&store, 4), Err(Error::SubmoduleUnsupported));
}

#[test]
fn entry_without_its_object_cannot_be_checked_out() {
    let store = ObjectStore::new();
    let entry = Entry { mode: Mode::File, name: b"f".to_vec(), hash: digest(BLOB_A) };
    assert_eq!(entry.actualise(&store, 4), Err(Error::NotFound));
}

#[test]
fn directory_entry_must_point_at_a_tree() {
    let mut store = ObjectStore::new();
    hash_object(b"A", true, &mut store);
    let entry = Entry { mode: Mode::Dir, name: b"d".to_vec(), hash: digest(BLOB_A) };
    assert_eq!(entry.actualise(&store, 4), Err(Error::NotATree));
    let file = Entry { mode: Mode::Exe, name: b"f".to_vec(), hash: digest(BLOB_A) };
    assert_eq!(
        file.actualise(&store, 0),
        Ok(WorkNode::File { executable: true, content: b"A".to_vec() })
    );
    let link = Entry { mode: Mode::SymLink, name: b"l".to_vec(), hash: digest(BLOB_A) };
    assert_eq!(link.actualise(&store, 0), Ok(WorkNode::SymLink { target: b"A".to_vec() }));
}

#[test]
fn every_written_object_goes_through_a_temporary_file() {
    let mut store = ObjectStore::new();
    store.load("abcd", Vec::new());
    let root = vec![dir("d", vec![file("x", b"1"), link("l", b"x")]), file("y", b"2")];
    tree_from_workdir(&root, &mut store).unwrap();
    assert_eq!(store.len(), 6);
    assert_eq!(store.slot(0).tmp_name, None);
    let mut seen = Vec::new();
    for i in 1..store.len() {
        let tmp = store.slot(i).tmp_name.clone().unwrap();
        assert_eq!(tmp.len(), 46);
        assert_eq!(&tmp[..6], b"tmpobj");
        assert!(hex::decode(&tmp[6..]).is_ok());
        assert!(!seen.contains(&tmp));
        seen.push(tmp);
    }
}

#[test]
fn objects_are_written_children_first() {
    let mut store = ObjectStore::new();
    let root = vec![file("b", b"2"), dir("a", vec![file("x", b"1")])];
    let name = tree_from_workdir(&root, &mut store).unwrap();
    let names: Vec<String> =
        (0..store.len()).map(|i| String::from_utf8(store.slot(i).name.clone()).unwrap()).collect();
    let blob_x = sha1_hex(b"blob 1\x001");
    let blob_b = sha1_hex(b"blob 1\x002");
    assert_eq!(names.len(), 4);
    assert_eq!(names[0], blob_x);
    assert_eq!(names[2], blob_b);
    assert_eq!(names[3], name);
    assert_eq!(ls_tree(&store, &names[1], true), Ok(b"x\n".to_vec()));
}

#[test]
fn checkout_gives_the_children_in_the_order_of_the_tree() {
    let mut store = ObjectStore::new();
    let given = vec![
        file("z", b"last"),
        dir("a", vec![link("up", b".."), file("leaf", b"leaf\n"), dir("d", vec![exe("x", b"x")])]),
        exe("a.txt", b"first"),
        file("a0", b"third"),
    ];
    let in_order = vec![
        exe("a.txt", b"first"),
        dir("a", vec![dir("d", vec![exe("x", b"x")]), file("leaf", b"leaf\n"), link("up", b"..")]),
        file("a0", b"third"),
        file("z", b"last"),
    ];
    let name = tree_from_workdir(&given, &mut store).unwrap();
    let same = tree_from_workdir(&in_order, &mut ObjectStore::new()).unwrap();
    assert_eq!(name, same);
    let tree = TreeReader::from_hash(&store, &name).unwrap();
    assert_eq!(tree.actualise_entries(&store, 16), Ok(in_order));
}
