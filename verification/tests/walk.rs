use revwalk::db::ObjectFile;
use revwalk::objects::Object;
use revwalk::refs::RefFile;
use revwalk::repo::Repository;
use revwalk::revision::join;
use revwalk::revision::RevList;
use std::io::Write;

fn deflate(content: &[u8]) -> Vec<u8> {
    let mut encoder = flate2::write::ZlibEncoder::new(Vec::new(), flate2::Compression::default());
    encoder.write_all(content).unwrap();
    encoder.finish().unwrap()
}

fn id_of(byte: u8) -> String {
    format!("{:02x}", byte).repeat(20)
}

fn stored(byte: u8, kind: &str, body: &[u8]) -> ObjectFile {
    let id = id_of(byte);
    let mut content = format!("{} {}\0", kind, body.len()).into_bytes();
    content.extend_from_slice(body);
    ObjectFile { dir: String::from(&id[..2]), name: String::from(&id[2..]), data: deflate(&content) }
}

fn commit(byte: u8, tree: u8, parents: &[u8], time: Option<u64>) -> ObjectFile {
    let mut body = format!("tree {}\n", id_of(tree));
    for parent in parents {
        body.push_str(&format!("parent {}\n", id_of(*parent)));
    }
    if let Some(seconds) = time {
        body.push_str(&format!("committer C <c@example.com> {} +0000\n", seconds));
    }
    body.push_str("\nmessage\n");
    stored(byte, "commit", body.as_bytes())
}

fn tree(byte: u8, entries: &[(&str, &str, u8)]) -> ObjectFile {
    let mut body = Vec::new();
    for (mode, name, id) in entries {
        body.extend_from_slice(format!("{} {}\0", mode, name).as_bytes());
        body.extend_from_slice(&[*id; 20]);
    }
    stored(byte, "tree", &body)
}

fn head(name: &str, byte: u8) -> RefFile {
    RefFile { name: String::from(name), data: format!("{}\n", id_of(byte)).into_bytes() }
}

fn walk(repo: &Repository, revs: &[&str]) -> Vec<(char, u8, Option<String>)> {
    let args: Vec<String> = revs.iter().map(|rev| String::from(*rev)).collect();
    let mut list = RevList::new(repo, &args);
    let mut out = Vec::new();
    while let Some((found, path)) = list.next() {
        let byte = u8::from_str_radix(&found.id.as_str()[..2], 16).unwrap();
        let kind = match found.get() {
            Object::Commit(_) => 'c',
            Object::Tree(_) => 't',
            Object::TreeItem(item) => if item.is_tree() { 'd' } else { 'f' },
        };
        out.push((kind, byte, path));
        assert!(out.len() < 1000);
    }
    assert!(list.next().is_none());
    out
}

fn c(byte: u8) -> (char, u8, Option<String>) {
    ('c', byte, None)
}

fn d(byte: u8, path: &str) -> (char, u8, Option<String>) {
    ('d', byte, Some(String::from(path)))
}

fn f(byte: u8, path: &str) -> (char, u8, Option<String>) {
    ('f', byte, Some(String::from(path)))
}

const FILE: &str = "100644";
const DIR: &str = "40000";

#[test]
fn walk_emits_commits_then_trees() {
    let repo = Repository::new(
        vec![
            commit(0xc1, 0xa1, &[], Some(100)),
            commit(0xc2, 0xa2, &[0xc1], Some(200)),
            tree(0xa1, &[(FILE, "one", 0x01)]),
            tree(0xa2, &[(FILE, "one", 0x01), (FILE, "two", 0x02)]),
        ],
        vec![head("master", 0xc2)],
    );
    assert_eq!(
        walk(&repo, &["master"]),
        vec![c(0xc2), c(0xc1), d(0xa2, ""), f(0x01, "one"), f(0x02, "two"), d(0xa1, "")]
    );
}

#[test]
fn tree_is_flattened_in_ascending_pre_order() {
    let repo = Repository::new(
        vec![
            commit(0xc1, 0xa0, &[], Some(1)),
            tree(0xa0, &[(FILE, "a", 0x0a), (DIR, "b", 0x0b)]),
            tree(0x0b, &[(FILE, "c", 0x0c), (FILE, "d", 0x0d)]),
        ],
        vec![head("master", 0xc1)],
    );
    assert_eq!(
        walk(&repo, &["master"]),
        vec![c(0xc1), d(0xa0, ""), f(0x0a, "a"), d(0x0b, "b"), f(0x0c, "b/c"), f(0x0d, "b/d")]
    );
}

#[test]
fn nested_directories_are_listed_before_later_siblings() {
    let repo = Repository::new(
        vec![
            commit(0xc1, 0xa0, &[], Some(1)),
            tree(0xa0, &[(DIR, "x", 0x10), (DIR, "lib", 0x20), (FILE, "z", 0x30)]),
            tree(0x10, &[(FILE, "f", 0x11)]),
            tree(0x20, &[(DIR, "deep", 0x21), (FILE, "top", 0x22)]),
            tree(0x21, &[(FILE, "leaf", 0x23)]),
        ],
        vec![head("master", 0xc1)],
    );
    assert_eq!(
        walk(&repo, &["master"]),
        vec![
            c(0xc1),
            d(0xa0, ""),
            d(0x20, "lib"),
            d(0x21, "lib/deep"),
            f(0x23, "lib/deep/leaf"),
            f(0x22, "lib/top"),
            d(0x10, "x"),
            f(0x11, "x/f"),
            f(0x30, "z"),
        ]
    );
}

#[test]
fn shared_content_is_emitted_once_at_its_first_path() {
    let repo = Repository::new(
        vec![
            commit(0xc1, 0xa1, &[], Some(100)),
            commit(0xc2, 0xa2, &[0xc1], Some(200)),
            tree(0xa1, &[(FILE, "old_name", 0x01), (DIR, "sub", 0x05)]),
            tree(0xa2, &[(FILE, "new_name", 0x01), (DIR, "moved", 0x05)]),
            tree(0x05, &[(FILE, "inner", 0x06)]),
        ],
        vec![head("master", 0xc2)],
    );
    assert_eq!(
        walk(&repo, &["master"]),
        vec![
            c(0xc2),
            c(0xc1),
            d(0xa2, ""),
            d(0x05, "moved"),
            f(0x06, "moved/inner"),
            f(0x01, "new_name"),
            d(0xa1, ""),
        ]
    );
}

#[test]
fn entry_repeated_in_one_tree_keeps_the_path_of_the_last_name() {
    let repo = Repository::new(
        vec![
            commit(0xc1, 0xa0, &[], Some(1)),
            tree(0xa0, &[(FILE, "a", 0x01), (FILE, "m", 0x02), (FILE, "z", 0x01)]),
        ],
        vec![head("master", 0xc1)],
    );
    assert_eq!(walk(&repo, &["master"]), vec![c(0xc1), d(0xa0, ""), f(0x02, "m"), f(0x01, "z")]);
}

#[test]
fn commits_with_the_same_root_tree_each_emit_it() {
    let repo = Repository::new(
        vec![
            commit(0xc1, 0xa0, &[], Some(100)),
            commit(0xc2, 0xa0, &[0xc1], Some(200)),
            tree(0xa0, &[(FILE, "a", 0x01)]),
        ],
        vec![head("master", 0xc2)],
    );
    assert_eq!(
        walk(&repo, &["master"]),
        vec![c(0xc2), c(0xc1), d(0xa0, ""), f(0x01, "a"), d(0xa0, "")]
    );
}

#[test]
fn frontier_hands_out_the_latest_commit_found_so_far() {
    let repo = Repository::new(
        vec![
            commit(0xc5, 0xa0, &[0xc3, 0xc4], Some(500)),
            commit(0xc4, 0xa0, &[0xc1], Some(400)),
            commit(0xc3, 0xa0, &[0xc2], Some(300)),
            commit(0xc2, 0xa0, &[0xc1], Some(450)),
            commit(0xc1, 0xa0, &[], Some(100)),
        ],
        vec![head("master", 0xc5)],
    );
    let out = walk(&repo, &["master"]);
    assert_eq!(&out[..5], &[c(0xc5), c(0xc4), c(0xc3), c(0xc2), c(0xc1)]);
    assert_eq!(out.len(), 10);
}

#[test]
fn commit_without_time_leaves_the_frontier_last() {
    let repo = Repository::new(
        vec![
            commit(0xc4, 0xa0, &[0xc1, 0xc2, 0xc3], Some(400)),
            commit(0xc1, 0xa0, &[], None),
            commit(0xc2, 0xa0, &[], Some(0)),
            commit(0xc3, 0xa0, &[], None),
        ],
        vec![head("master", 0xc4)],
    );
    let out = walk(&repo, &["master"]);
    assert_eq!(&out[..4], &[c(0xc4), c(0xc2), c(0xc1), c(0xc3)]);
}

#[test]
fn merge_parents_are_walked_once() {
    let repo = Repository::new(
        vec![
            commit(0xc4, 0xa4, &[0xc2, 0xc3], Some(400)),
            commit(0xc3, 0xa3, &[0xc1], Some(300)),
            commit(0xc2, 0xa2, &[0xc1], Some(200)),
            commit(0xc1, 0xa1, &[], Some(100)),
        ],
        vec![head("master", 0xc4)],
    );
    assert_eq!(
        walk(&repo, &["master"]),
        vec![
            c(0xc4),
            c(0xc3),
            c(0xc2),
            c(0xc1),
            d(0xa4, ""),
            d(0xa3, ""),
            d(0xa2, ""),
            d(0xa1, ""),
        ]
    );
}

#[test]
fn no_commit_follows_the_first_tree_entry() {
    let repo = Repository::new(
        vec![
            commit(0xc3, 0xa3, &[0xc2], Some(1)),
            commit(0xc2, 0xa2, &[0xc1], Some(2)),
            commit(0xc1, 0xa1, &[], Some(3)),
            tree(0xa3, &[(FILE, "f", 0x01)]),
            tree(0xa2, &[(FILE, "g", 0x02)]),
            tree(0xa1, &[(FILE, "h", 0x03)]),
        ],
        vec![head("master", 0xc3)],
    );
    let out = walk(&repo, &["master"]);
    let first_tree = out.iter().position(|entry| entry.0 != 'c').unwrap();
    assert_eq!(first_tree, 3);
    assert!(out[first_tree..].iter().all(|entry| entry.0 != 'c' && entry.2.is_some()));
    assert!(out[..first_tree].iter().all(|entry| entry.2.is_none()));
}

#[test]
fn missing_start_points_give_an_empty_walk() {
    let repo = Repository::new(
        vec![commit(0xc1, 0xa1, &[], Some(1)), tree(0xa1, &[])],
        vec![head("master", 0xc1), head("dangling", 0xee), head("tree", 0xa1)],
    );
    assert_eq!(walk(&repo, &[]), vec![]);
    assert_eq!(walk(&repo, &["nothing"]), vec![]);
    assert_eq!(walk(&repo, &["dangling"]), vec![]);
    assert_eq!(walk(&repo, &["tree"]), vec![]);
    assert_eq!(walk(&repo, &["nothing", "master", "dangling"]), vec![c(0xc1), d(0xa1, "")]);
    assert_eq!(walk(&Repository::new(Vec::new(), Vec::new()), &["master"]), vec![]);
}

#[test]
fn several_start_points_share_what_they_reach() {
    let repo = Repository::new(
        vec![
            commit(0xc3, 0xa3, &[0xc1], Some(300)),
            commit(0xc2, 0xa2, &[0xc1], Some(200)),
            commit(0xc1, 0xa1, &[], Some(100)),
        ],
        vec![head("one", 0xc2), head("two", 0xc3)],
    );
    let out = walk(&repo, &["one", "two", "one"]);
    assert_eq!(&out[..3], &[c(0xc3), c(0xc2), c(0xc1)]);
    assert_eq!(out.len(), 6);
}

#[test]
fn missing_objects_prune_the_walk_silently() {
    let repo = Repository::new(
        vec![
            commit(0xc2, 0xa2, &[0xee, 0xc1], Some(200)),
            commit(0xc1, 0xa1, &[], Some(100)),
            stored(0xee, "blob", b"not a commit"),
            tree(0xa2, &[(DIR, "gone", 0x99), (FILE, "kept", 0x01)]),
        ],
        vec![head("master", 0xc2)],
    );
    assert_eq!(
        walk(&repo, &["master"]),
        vec![c(0xc2), c(0xc1), d(0xa2, ""), d(0x99, "gone"), f(0x01, "kept"), d(0xa1, "")]
    );
}

#[test]
fn entry_that_names_a_commit_already_seen_is_skipped() {
    let repo = Repository::new(
        vec![
            commit(0xc1, 0xa1, &[], Some(100)),
            tree(0xa1, &[("160000", "module", 0xc1), (FILE, "file", 0x01)]),
        ],
        vec![head("master", 0xc1)],
    );
    assert_eq!(walk(&repo, &["master"]), vec![c(0xc1), d(0xa1, ""), f(0x01, "file")]);
}

#[test]
fn tree_that_lists_itself_ends() {
    let repo = Repository::new(
        vec![commit(0xc1, 0xa1, &[], Some(100)), tree(0xa1, &[(DIR, "again", 0xa1)])],
        vec![head("master", 0xc1)],
    );
    assert_eq!(
        walk(&repo, &["master"]),
        vec![c(0xc1), d(0xa1, ""), d(0xa1, "")]
    );
}

#[test]
fn collect_hands_out_the_rest_of_the_walk() {
    let repo = Repository::new(
        vec![
            commit(0xc1, 0xa1, &[], Some(100)),
            commit(0xc2, 0xa2, &[0xc1], Some(200)),
            tree(0xa1, &[(FILE, "one", 0x01)]),
            tree(0xa2, &[(FILE, "one", 0x01), (FILE, "two", 0x02)]),
        ],
        vec![head("master", 0xc2)],
    );
    let args = vec![String::from("master")];
    let mut list = RevList::new(&repo, &args);
    let first = list.next().unwrap();
    assert_eq!(first.0.id.as_str(), id_of(0xc2));
    let rest = list.collect();
    let ids: Vec<String> = rest.iter().map(|out| String::from(out.0.id.as_str())).collect();
    assert_eq!(ids, vec![id_of(0xc1), id_of(0xa2), id_of(0x01), id_of(0x02), id_of(0xa1)]);
    let paths: Vec<Option<String>> = rest.iter().map(|out| out.1.clone()).collect();
    assert_eq!(
        paths,
        vec![
            None,
            Some(String::new()),
            Some(String::from("one")),
            Some(String::from("two")),
            Some(String::new()),
        ]
    );
    assert!(list.next().is_none());
    assert!(list.collect().is_empty());
    let mut again = RevList::new(&repo, &args);
    assert_eq!(again.collect().len(), 6);
}

#[test]
fn walk_is_no_longer_than_twice_the_identifiers_of_the_store() {
    let repo = Repository::new(
        vec![
            commit(0xc3, 0xa0, &[0xc2, 0xc1], Some(3)),
            commit(0xc2, 0xa0, &[0xc1], Some(2)),
            commit(0xc1, 0xa0, &[], Some(1)),
            tree(0xa0, &[(DIR, "d", 0xa0), (FILE, "f", 0x01), (DIR, "e", 0x0e)]),
            tree(0x0e, &[(FILE, "g", 0x01), (FILE, "h", 0x02)]),
        ],
        vec![head("master", 0xc3)],
    );
    let known = 5 + 3 + 2;
    let out = walk(&repo, &["master"]);
    assert!(out.len() <= 2 * known);
    assert_eq!(out.len(), 10);
}

#[test]
fn join_follows_the_rules_of_relative_paths() {
    assert_eq!(join("", "a"), "a");
    assert_eq!(join("a", "b"), "a/b");
    assert_eq!(join("a/b", "c"), "a/b/c");
    assert_eq!(join("a/", "b"), "a/b");
    assert_eq!(join("a", "/b"), "/b");
    assert_eq!(join("a", ""), "a/");
    assert_eq!(join("", ""), "");
    for (path, name) in [("", "a"), ("a", "b"), ("a/", "b"), ("a", "/b"), ("a", ""), ("", "")] {
        let expected = std::path::Path::new(path).join(name);
        assert_eq!(join(path, name), expected.to_str().unwrap());
    }
}
