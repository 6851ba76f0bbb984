use revwalk::db::Database;
use revwalk::db::ObjectFile;
use revwalk::objects::Id;
use revwalk::refs::RefFile;
use revwalk::refs::Refs;
use revwalk::repo::Repository;
use std::io::Write;

fn deflate(content: &[u8]) -> Vec<u8> {
    let mut encoder = flate2::write::ZlibEncoder::new(Vec::new(), flate2::Compression::default());
    encoder.write_all(content).unwrap();
    encoder.finish().unwrap()
}

fn stored(id: &str, kind: &str, body: &[u8]) -> ObjectFile {
    let mut content = format!("{} {}\0", kind, body.len()).into_bytes();
    content.extend_from_slice(body);
    ObjectFile { dir: String::from(&id[..2]), name: String::from(&id[2..]), data: deflate(&content) }
}

fn record(mode: &str, name: &str, byte: u8) -> Vec<u8> {
    let mut bytes = format!("{} {}\0", mode, name).into_bytes();
    bytes.extend_from_slice(&[byte; 20]);
    bytes
}

const C1: &str = "c100000000000000000000000000000000000000";
const T1: &str = "0101010101010101010101010101010101010101";
const B1: &str = "b100000000000000000000000000000000000000";

#[test]
fn load_decodes_a_commit() {
    let body = format!("tree {}\ncommitter C <c> 100 +0000\n\nfirst\n", T1);
    let db = Database::new(vec![stored(C1, "commit", body.as_bytes())]);
    let found = db.load(&Id::from(C1)).unwrap();
    assert_eq!(found.id, Id::from(C1));
    let commit = found.as_commit().unwrap();
    assert_eq!(commit.tree.as_str(), T1);
    assert_eq!(commit.date(), Some(100));
    assert_eq!(commit.message(), "first\n");
}

#[test]
fn load_decodes_a_tree() {
    let mut body = record("100644", "b.txt", 2);
    body.extend_from_slice(&record("40000", "a", 1));
    let db = Database::new(vec![stored(T1, "tree", &body)]);
    let tree = db.load(&Id::from(T1)).unwrap().as_tree().unwrap();
    assert_eq!(tree.id, Id::from(T1));
    assert_eq!(tree.items().len(), 2);
    assert_eq!(tree.items()[0].0, "a");
    assert_eq!(tree.items()[0].1.id.as_str(), T1);
    assert_eq!(tree.items()[1].0, "b.txt");
}

#[test]
fn load_gives_nothing_for_other_kinds_and_missing_files() {
    let db = Database::new(vec![
        stored(B1, "blob", b"hello"),
        stored(C1, "commit", b"tree x\n\n"),
        stored("ta00000000000000000000000000000000000000", "tag", b"object x\n"),
    ]);
    assert!(db.load(&Id::from(B1)).is_none());
    assert!(db.load(&Id::from("ta00000000000000000000000000000000000000")).is_none());
    assert!(db.load(&Id::from("ffffffffffffffffffffffffffffffffffffffff")).is_none());
    assert!(db.load(&Id::from(&C1[..39])).is_none());
    assert!(db.load(&Id::from("c")).is_none());
    assert!(db.load(&Id::from("")).is_none());
    assert!(db.load(&Id::default()).is_none());
    assert!(db.load(&Id::from(C1)).is_some());
    assert!(Database::new(Vec::new()).load(&Id::from(C1)).is_none());
}

#[test]
fn load_gives_nothing_for_a_stream_that_does_not_inflate() {
    let good = stored(C1, "commit", b"tree x\n\nmessage that is long enough to matter\n");
    let mut cut = good.data.clone();
    cut.truncate(cut.len() / 2);
    let mut flipped = good.data.clone();
    let last = flipped.len() - 1;
    flipped[last] ^= 0xff;
    let plain = b"commit 8\0tree x\n\n".to_vec();
    for data in [cut, flipped, plain, Vec::new()] {
        let db = Database::new(vec![ObjectFile {
            dir: String::from(&C1[..2]),
            name: String::from(&C1[2..]),
            data,
        }]);
        assert!(db.load(&Id::from(C1)).is_none());
    }
}

#[test]
fn load_does_not_check_the_size_field() {
    let content = b"commit 99999\0tree x\n\nm".to_vec();
    let no_size = b"commit \0tree y\n\nm".to_vec();
    let db = Database::new(vec![
        ObjectFile { dir: String::from("c1"), name: String::from("a"), data: deflate(&content) },
        ObjectFile { dir: String::from("c1"), name: String::from("b"), data: deflate(&no_size) },
    ]);
    assert_eq!(db.load(&Id::from("c1a")).unwrap().as_commit().unwrap().tree.as_str(), "x");
    assert_eq!(db.load(&Id::from("c1b")).unwrap().as_commit().unwrap().tree.as_str(), "y");
}

#[test]
fn load_needs_the_exact_type_token() {
    for content in [&b"commit"[..], b"commits 1\0x", b"Commit 1\0x", b"tre 1\0x", b" commit 1\0x", b""] {
        let db = Database::new(vec![ObjectFile {
            dir: String::from("ab"),
            name: String::from("cd"),
            data: deflate(content),
        }]);
        assert!(db.load(&Id::from("abcd")).is_none());
    }
}

#[test]
fn load_of_a_damaged_tree_gives_nothing() {
    let mut body = record("100644", "a", 1);
    body.truncate(body.len() - 1);
    let db = Database::new(vec![stored(T1, "tree", &body)]);
    assert!(db.load(&Id::from(T1)).is_none());
    let empty = Database::new(vec![stored(T1, "tree", b"")]);
    assert!(empty.load(&Id::from(T1)).unwrap().as_tree().unwrap().items().is_empty());
}

#[test]
fn decode_reads_an_inflated_record() {
    assert!(Database::decode(b"commit 0\0".to_vec()).unwrap().commit().is_some());
    assert!(Database::decode(b"tree 0\0".to_vec()).unwrap().tree().is_some());
    assert!(Database::decode(b"blob 0\0".to_vec()).is_none());
}

#[test]
fn find_splits_the_identifier_after_two_characters() {
    let db = Database::new(vec![
        ObjectFile { dir: String::from("ab"), name: String::from("cdef"), data: vec![1] },
        ObjectFile { dir: String::from("abc"), name: String::from("def"), data: vec![2] },
        ObjectFile { dir: String::from("ab"), name: String::from("cdef"), data: vec![3] },
        ObjectFile { dir: String::from("xy"), name: String::new(), data: vec![4] },
    ]);
    assert_eq!(db.find(&Id::from("abcdef")), Some(&vec![1]));
    assert_eq!(db.find(&Id::from("xy")), Some(&vec![4]));
    assert_eq!(db.find(&Id::from("abcde")), None);
    assert_eq!(db.find(&Id::from("a")), None);
}

#[test]
fn read_ref_trims_the_head_file() {
    let refs = Refs::new(vec![
        RefFile { name: String::from("master"), data: format!("{}\n", C1).into_bytes() },
        RefFile { name: String::from("padded"), data: b"  abc \r\n".to_vec() },
        RefFile { name: String::from("broken"), data: vec![0xff, 0xfe] },
        RefFile { name: String::from("empty"), data: Vec::new() },
        RefFile { name: String::from("master"), data: b"second".to_vec() },
    ]);
    assert_eq!(refs.read_ref("master"), Some(Id::from(C1)));
    assert_eq!(refs.read_ref("padded"), Some(Id::from("abc")));
    assert_eq!(refs.read_ref("empty"), Some(Id::from("")));
    assert_eq!(refs.read_ref("broken"), None);
    assert_eq!(refs.read_ref("missing"), None);
    assert_eq!(refs.read_ref("Master"), None);
    assert_eq!(Refs::new(Vec::new()).read_ref("master"), None);
}

#[test]
fn repository_holds_the_store_and_the_heads() {
    let repo = Repository::new(
        vec![stored(C1, "commit", b"tree x\n\n")],
        vec![RefFile { name: String::from("master"), data: C1.as_bytes().to_vec() }],
    );
    let id = repo.refs.read_ref("master").unwrap();
    assert!(repo.database.load(&id).is_some());
}
