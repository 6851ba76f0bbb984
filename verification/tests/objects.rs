use revwalk::objects::commit::read_header;
use revwalk::objects::commit::Author;
use revwalk::objects::commit::Headers;
use revwalk::objects::tree::bytes_before;
use revwalk::objects::tree::read_item;
use revwalk::objects::tree::read_mode;
use revwalk::objects::Commit;
use revwalk::objects::Id;
use revwalk::objects::Object;
use revwalk::objects::Tree;
use revwalk::objects::TreeItem;
use revwalk::objects::WithId;
use revwalk::read::DecodeError;
use revwalk::read::Reader;

fn record(mode: &str, name: &str, byte: u8) -> Vec<u8> {
    let mut bytes = Vec::new();
    bytes.extend_from_slice(mode.as_bytes());
    bytes.push(b' ');
    bytes.extend_from_slice(name.as_bytes());
    bytes.push(0);
    bytes.extend_from_slice(&[byte; 20]);
    bytes
}

fn hex_of(byte: u8) -> String {
    format!("{:02x}", byte).repeat(20)
}

fn names(tree: &Tree) -> Vec<String> {
    tree.items().iter().map(|entry| entry.0.clone()).collect()
}

#[test]
fn id_default_is_empty_and_ids_compare_by_text() {
    assert_eq!(Id::default().as_str(), "");
    assert_eq!(Id::from("abc"), Id::from("abc"));
    assert_ne!(Id::from("abc"), Id::from("abd"));
    assert_eq!(Id::from("abc").clone(), Id::from("abc"));
    assert_eq!(Id::from(&[0xde_u8, 0xad, 0xbe, 0xef][..]), Id::from("deadbeef"));
    assert_eq!(Id::from(&[0u8; 20][..]).as_str().len(), 40);
    assert_eq!(Id::from(&[][..]).as_str(), "");
    assert!(Id::from("a") < Id::from("b"));
    assert!(Id::from("a") < Id::from("aa"));
    assert!(Id::from("B") < Id::from("a"));
    assert_eq!(Id::from("ab").max(Id::from("b")), Id::from("b"));
}

#[test]
fn tree_item_is_a_directory_only_with_the_directory_mode() {
    let id = Id::from("aa");
    assert!(TreeItem::tree(&id).is_tree());
    assert_eq!(TreeItem::tree(&id).mode(), 0o40000);
    assert_eq!(TreeItem::tree(&id).id(), &id);
    assert!(TreeItem::new(id.clone(), 0o40000).is_tree());
    assert!(!TreeItem::new(id.clone(), 0o100644).is_tree());
    assert!(!TreeItem::new(id.clone(), 0o120000).is_tree());
    assert!(!TreeItem::new(id.clone(), 0o160000).is_tree());
    assert!(!TreeItem::new(id, 0).is_tree());
}

#[test]
fn read_mode_follows_the_unsigned_octal_parse() {
    for text in ["100644", "40000", "0", "+7", "037777777777", "40000000000", "", "+", "-1", "8",
        "1 ", "++1", "17777777777777"]
    {
        assert_eq!(read_mode(text), u32::from_str_radix(text, 8).ok());
    }
    assert_eq!(read_mode("40000"), Some(0o40000));
    assert_eq!(read_mode("+100644"), Some(0o100644));
    assert_eq!(read_mode("037777777777"), Some(u32::MAX));
    assert_eq!(read_mode("40000000000"), None);
}

#[test]
fn bytes_before_is_the_lexicographic_order() {
    assert!(bytes_before(b"a", b"b"));
    assert!(bytes_before(b"", b"a"));
    assert!(bytes_before(b"a", b"aa"));
    assert!(bytes_before(b"a.txt", b"a/x"));
    assert!(!bytes_before(b"a", b"a"));
    assert!(!bytes_before(b"b", b"a"));
    assert!(!bytes_before(b"", b""));
    assert!(bytes_before("z".as_bytes(), "\u{e9}".as_bytes()));
}

#[test]
fn read_item_reads_mode_name_and_hash() {
    let mut bytes = record("100644", "file.txt", 0xab);
    bytes.extend_from_slice(&record("40000", "dir", 0x01));
    let mut reader = Reader::new(bytes);
    let (name, item) = read_item(&mut reader).unwrap().unwrap();
    assert_eq!(name, "file.txt");
    assert_eq!(item.id.as_str(), hex_of(0xab));
    assert_eq!(item.mode(), 0o100644);
    assert!(!item.is_tree());
    let (name, item) = read_item(&mut reader).unwrap().unwrap();
    assert_eq!(name, "dir");
    assert_eq!(item.id.as_str(), hex_of(0x01));
    assert!(item.is_tree());
    assert!(read_item(&mut reader).unwrap().is_none());
}

#[test]
fn read_item_reports_each_kind_of_damage() {
    let mut short = record("100644", "a", 1);
    short.pop();
    assert_eq!(read_item(&mut Reader::new(short)).err(), Some(DecodeError::UnexpectedEof));
    assert_eq!(
        read_item(&mut Reader::new(b"100644".to_vec())).err(),
        Some(DecodeError::UnexpectedEof)
    );
    assert_eq!(
        read_item(&mut Reader::new(record("10x644", "a", 1))).err(),
        Some(DecodeError::InvalidMode)
    );
    assert_eq!(
        read_item(&mut Reader::new(record("", "a", 1))).err(),
        Some(DecodeError::InvalidMode)
    );
    let mut bad_name = b"100644 ".to_vec();
    bad_name.extend_from_slice(&[0xff, 0]);
    bad_name.extend_from_slice(&[1; 20]);
    assert_eq!(read_item(&mut Reader::new(bad_name)).err(), Some(DecodeError::InvalidUtf8));
    let mut bad_mode = vec![0xff, b' ', b'a', 0];
    bad_mode.extend_from_slice(&[1; 20]);
    assert_eq!(read_item(&mut Reader::new(bad_mode)).err(), Some(DecodeError::InvalidUtf8));
}

#[test]
fn tree_lists_entries_ascending_by_name() {
    let mut bytes = record("100644", "zeta", 3);
    bytes.extend_from_slice(&record("40000", "alpha", 1));
    bytes.extend_from_slice(&record("100755", "mid", 2));
    let tree = Tree::decode(Reader::new(bytes)).unwrap();
    assert_eq!(names(&tree), vec!["alpha", "mid", "zeta"]);
    assert_eq!(tree.items()[0].1.id.as_str(), hex_of(1));
    assert!(tree.items()[0].1.is_tree());
    assert_eq!(tree.items()[1].1.mode(), 0o100755);
}

#[test]
fn tree_keeps_the_last_entry_of_a_repeated_name() {
    let mut bytes = record("100644", "same", 1);
    bytes.extend_from_slice(&record("100644", "other", 2));
    bytes.extend_from_slice(&record("100755", "same", 3));
    let tree = Tree::decode(Reader::new(bytes)).unwrap();
    assert_eq!(names(&tree), vec!["other", "same"]);
    assert_eq!(tree.items()[1].1.id.as_str(), hex_of(3));
    assert_eq!(tree.items()[1].1.mode(), 0o100755);
}

#[test]
fn tree_orders_names_by_their_bytes() {
    let mut bytes = record("100644", "a/x", 1);
    bytes.extend_from_slice(&record("100644", "a.txt", 2));
    bytes.extend_from_slice(&record("100644", "a", 3));
    bytes.extend_from_slice(&record("100644", "B", 4));
    let tree = Tree::decode(Reader::new(bytes)).unwrap();
    assert_eq!(names(&tree), vec!["B", "a", "a.txt", "a/x"]);
}

#[test]
fn empty_tree_decodes_to_no_entries() {
    let tree = Tree::decode(Reader::new(Vec::new())).unwrap();
    assert!(tree.items().is_empty());
    assert!(Tree::new().items().is_empty());
}

#[test]
fn truncated_tree_fails_as_a_whole() {
    let mut bytes = record("100644", "first", 1);
    bytes.extend_from_slice(&record("100644", "second", 2));
    bytes.truncate(bytes.len() - 5);
    assert_eq!(Tree::decode(Reader::new(bytes)).err(), Some(DecodeError::UnexpectedEof));
}

#[test]
fn tree_insert_replaces_and_orders() {
    let tree = Tree::new()
        .insert(String::from("m"), TreeItem::new(Id::from("1"), 1))
        .insert(String::from("a"), TreeItem::new(Id::from("2"), 2))
        .insert(String::from("z"), TreeItem::new(Id::from("3"), 3))
        .insert(String::from("m"), TreeItem::new(Id::from("4"), 4));
    assert_eq!(names(&tree), vec!["a", "m", "z"]);
    assert_eq!(tree.items()[1].1.id.as_str(), "4");
}

#[test]
fn timestamp_needs_seconds_one_space_and_a_zone() {
    assert_eq!(Author::timestamp("100 +0000"), Some(100));
    assert_eq!(Author::timestamp("1234567890 -0730"), Some(1234567890));
    assert_eq!(Author::timestamp("7 Z"), Some(7));
    assert_eq!(Author::timestamp("7 +01:30"), Some(7));
    assert_eq!(Author::timestamp("7 +0130 and more"), Some(7));
    assert_eq!(Author::timestamp("18446744073709551615 +0000"), Some(u64::MAX));
    assert_eq!(Author::timestamp("18446744073709551616 +0000"), None);
    assert_eq!(Author::timestamp("100"), None);
    assert_eq!(Author::timestamp("100 "), None);
    assert_eq!(Author::timestamp("100  +0000"), None);
    assert_eq!(Author::timestamp("100 0000"), None);
    assert_eq!(Author::timestamp("100 +000"), None);
    assert_eq!(Author::timestamp("100 +0a00"), None);
    assert_eq!(Author::timestamp("abc +0000"), None);
    assert_eq!(Author::timestamp("-5 +0000"), None);
    assert_eq!(Author::timestamp(" +0000"), None);
    assert_eq!(Author::timestamp(""), None);
}

#[test]
fn author_keeps_only_the_time() {
    let author = Author::from_str("A U Thor <author@example.com> 1112911993 -0700").unwrap();
    assert_eq!(author.time(), 1112911993);
    assert_eq!(Author::from_str("<> 5 +0000").unwrap().time(), 5);
    assert_eq!(Author::from_str("n <e>   5 +0000  ").unwrap().time(), 5);
    assert!(Author::from_str("no email 5 +0000").is_none());
    assert!(Author::from_str("name <email 5 +0000").is_none());
    assert!(Author::from_str("name <email>").is_none());
    assert!(Author::from_str("name <email> soon").is_none());
    assert!(Author::from_str("Jos\u{e9}").is_none());
    assert!(Author::from_str("").is_none());
}

#[test]
fn read_header_splits_at_the_first_space() {
    let mut reader = Reader::new(b"tree abc\nparent  d e \n\nrest".to_vec());
    assert_eq!(read_header(&mut reader), Some((String::from("tree"), String::from("abc"))));
    assert_eq!(read_header(&mut reader), Some((String::from("parent"), String::from("d e"))));
    assert_eq!(read_header(&mut reader), None);
    assert_eq!(reader.read_to_end(), b"rest".to_vec());
}

#[test]
fn read_header_ends_the_block_at_a_line_without_a_value() {
    let mut reader = Reader::new(b"novalue\ntree abc\n".to_vec());
    assert_eq!(read_header(&mut reader), None);
    assert_eq!(reader.read_to_end(), b"tree abc\n".to_vec());
    let mut bad = Reader::new(vec![b'k', b' ', 0xff, b'\n', b'x']);
    assert_eq!(read_header(&mut bad), None);
    assert_eq!(bad.read_to_end(), b"x".to_vec());
    let mut empty = Reader::new(Vec::new());
    assert_eq!(read_header(&mut empty), None);
}

#[test]
fn headers_keep_repeated_keys_in_order() {
    let mut reader = Reader::new(b"parent one\ntree t\nparent two\n\nmessage".to_vec());
    let headers = Headers::from(&mut reader);
    assert_eq!(headers.get_all("parent"), vec!["one", "two"]);
    assert_eq!(headers.get_one("parent"), Some(String::from("one")));
    assert_eq!(headers.get_one("tree"), Some(String::from("t")));
    assert_eq!(headers.get_one("author"), None);
    assert!(headers.get_all("author").is_empty());
    assert_eq!(reader.read_to_end(), b"message".to_vec());
}

#[test]
fn commit_decodes_headers_and_message() {
    let body = b"tree 4b825dc642cb6eb9a060e54bf8d69288fbee4904\n\
parent 1111111111111111111111111111111111111111\n\
parent 2222222222222222222222222222222222222222\n\
author A <a@example.com> 50 +0000\n\
committer C <c@example.com> 100 +0200\n\
\n\
Subject line\n\nBody.\n";
    let commit = Commit::decode(Reader::new(body.to_vec()));
    assert_eq!(commit.tree.as_str(), "4b825dc642cb6eb9a060e54bf8d69288fbee4904");
    assert_eq!(commit.tree(), &Id::from("4b825dc642cb6eb9a060e54bf8d69288fbee4904"));
    assert_eq!(
        commit.parents(),
        vec![
            Id::from("1111111111111111111111111111111111111111"),
            Id::from("2222222222222222222222222222222222222222"),
        ]
    );
    assert_eq!(commit.date(), Some(100));
    assert_eq!(commit.message(), "Subject line\n\nBody.\n");
    let root = commit.tree_item();
    assert!(root.is_tree());
    assert_eq!(root.id, commit.tree);
}

#[test]
fn commit_without_tree_header_has_the_empty_tree_reference() {
    let commit = Commit::decode(Reader::new(b"committer C <c> 1 +0000\n\nm".to_vec()));
    assert_eq!(commit.tree, Id::default());
    assert!(commit.parents().is_empty());
    assert_eq!(commit.date(), Some(1));
    let empty = Commit::decode(Reader::new(Vec::new()));
    assert_eq!(empty.tree, Id::default());
    assert_eq!(empty.date(), None);
    assert_eq!(empty.message(), "");
    let plain = Commit::default();
    assert_eq!(plain.tree, Id::default());
    assert!(plain.parents().is_empty());
    assert_eq!(plain.date(), None);
    assert_eq!(plain.message(), "");
}

#[test]
fn commit_tolerates_a_bad_committer_and_a_bad_message() {
    let commit = Commit::decode(Reader::new(b"tree t\ncommitter nobody\n\nm".to_vec()));
    assert_eq!(commit.tree.as_str(), "t");
    assert_eq!(commit.date(), None);
    let mut body = b"tree t\ncommitter C <c> 9 +0000\n\n".to_vec();
    body.extend_from_slice(&[0xff, 0xfe]);
    let commit = Commit::decode(Reader::new(body));
    assert_eq!(commit.date(), Some(9));
    assert_eq!(commit.message(), "");
}

#[test]
fn commit_uses_the_first_tree_and_committer_header() {
    let body = b"tree first\ntree second\ncommitter C <c> 3 +0000\ncommitter D <d> 4 +0000\n\n";
    let commit = Commit::decode(Reader::new(body.to_vec()));
    assert_eq!(commit.tree.as_str(), "first");
    assert_eq!(commit.date(), Some(3));
}

#[test]
fn decoding_twice_gives_equal_values() {
    let body = b"tree t\nparent p\ncommitter C <c> 3 +0000\n\nmsg".to_vec();
    let one = Commit::decode(Reader::new(body.clone()));
    let two = Commit::decode(Reader::new(body));
    assert_eq!(one.tree, two.tree);
    assert_eq!(one.parents(), two.parents());
    assert_eq!(one.date(), two.date());
    assert_eq!(one.message(), two.message());
    let mut bytes = record("100644", "b", 2);
    bytes.extend_from_slice(&record("40000", "a", 1));
    let first = Tree::decode(Reader::new(bytes.clone())).unwrap();
    let second = Tree::decode(Reader::new(bytes)).unwrap();
    assert_eq!(names(&first), names(&second));
    for i in 0..first.items().len() {
        assert_eq!(first.items()[i].1.id, second.items()[i].1.id);
        assert_eq!(first.items()[i].1.mode(), second.items()[i].1.mode());
    }
}

#[test]
fn object_narrows_only_to_its_own_variant() {
    let commit = Object::from(Commit::default());
    assert!(commit.commit().is_some());
    assert!(Object::from(Commit::default()).tree().is_none());
    assert!(Object::from(Commit::default()).tree_item().is_none());
    let item = Object::from(TreeItem::tree(&Id::from("a")));
    assert!(item.tree_item().is_some());
    assert!(Object::from(TreeItem::tree(&Id::from("a"))).commit().is_none());
    assert!(Object::Tree(Tree::new()).tree().is_some());
    assert!(Object::Tree(Tree::new()).commit().is_none());
}

#[test]
fn with_id_keeps_the_identifier_through_map_and_narrowing() {
    let found = WithId::new(Id::from("abc"), 5u32);
    assert_eq!(*found.get(), 5);
    assert_eq!(*found, 5);
    assert_eq!(found.id(), &Id::from("abc"));
    let mapped = found.map(|n| n + 1);
    assert_eq!(mapped.id, Id::from("abc"));
    assert_eq!(mapped.into_parts(), (Id::from("abc"), 6));
    let object = WithId::new(Id::from("c1"), Object::from(Commit::default()));
    let commit = object.as_commit().unwrap();
    assert_eq!(commit.id, Id::from("c1"));
    assert!(WithId::new(Id::from("c1"), Object::from(Commit::default())).as_tree().is_none());
    let tree = WithId::new(Id::from("t1"), Object::Tree(Tree::new())).as_tree().unwrap();
    assert_eq!(tree.id, Id::from("t1"));
    assert!(WithId::new(Id::from("t1"), Object::Tree(Tree::new())).as_commit().is_none());
}
