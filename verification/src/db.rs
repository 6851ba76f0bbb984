//! The object store: compressed, typed records addressed by identifier.
use crate::objects::commit::parse_commit;
use crate::objects::commit::CommitView;
use crate::objects::tree::parse_tree;
use crate::objects::tree::sorted_by_name;
use crate::objects::tree::EntryView;
use crate::objects::tree::ItemView;
use crate::objects::Commit;
use crate::objects::Id;
use crate::objects::Object;
use crate::objects::Tree;
use crate::objects::WithId;
use crate::read::chunk_len;
use crate::read::Reader;
use vstd::prelude::*;

verus! {

/// What a compressed stream inflates to, or `None` where it is corrupt or
/// incomplete.
pub uninterp spec fn zlib_inflated(data: Seq<u8>) -> Option<Seq<u8>>;

/// Inflates a zlib stream held in memory.
///
/// Trusted: wraps `flate2::read::ZlibDecoder` read to its end. The result is
/// the named function of the input bytes; an error of the decoder gives `None`.
#[verifier::external_body]
fn inflate(data: &[u8]) -> (r: Option<Vec<u8>>)
    ensures
        match r {
            Some(content) => zlib_inflated(data@) == Some(content@),
            None => zlib_inflated(data@) is None,
        },
{
    let mut content = Vec::new();
    match std::io::Read::read_to_end(&mut flate2::read::ZlibDecoder::new(data), &mut content) {
        Ok(_) => Some(content),
        Err(_) => None,
    }
}

/// A file of the store: the directory it lies in, its name, and its bytes.
pub struct ObjectFile {
    pub dir: String,
    pub name: String,
    pub data: Vec<u8>,
}

/// The mathematical value of a stored file.
pub struct FileView {
    pub dir: Seq<char>,
    pub name: Seq<char>,
    pub data: Seq<u8>,
}

/// The mathematical value of a decoded object.
pub enum ObjectView {
    Commit(CommitView),
    Tree(Seq<EntryView>),
    TreeItem(ItemView),
}

/// The value of an object.
pub open spec fn object_view(object: Object) -> ObjectView {
    match object {
        Object::Commit(commit) => ObjectView::Commit(commit@),
        Object::Tree(tree) => ObjectView::Tree(tree@),
        Object::TreeItem(item) => ObjectView::TreeItem(item@),
    }
}

/// The files of a vector, as mathematical values.
pub open spec fn files_view(files: Seq<ObjectFile>) -> Seq<FileView> {
    Seq::new(
        files.len(),
        |i: int| FileView { dir: files[i].dir@, name: files[i].name@, data: files[i].data@ },
    )
}

/// The bytes of the first file named `name` in directory `dir`.
pub open spec fn find_file(files: Seq<FileView>, dir: Seq<char>, name: Seq<char>) -> Option<
    Seq<u8>,
>
    decreases files.len(),
{
    if files.len() == 0 {
        None
    } else if files[0].dir == dir && files[0].name == name {
        Some(files[0].data)
    } else {
        find_file(files.drop_first(), dir, name)
    }
}

/// The bytes stored under `id`: the file named by all but the first two
/// characters of `id`, in the directory named by those two.
pub open spec fn stored_bytes(files: Seq<FileView>, id: Seq<char>) -> Option<Seq<u8>> {
    if id.len() < 2 {
        None
    } else {
        find_file(files, id.take(2), id.skip(2))
    }
}

/// The type token of a commit record, with the space that ends it.
pub open spec fn commit_tag() -> Seq<u8> {
    seq![0x63u8, 0x6f, 0x6d, 0x6d, 0x69, 0x74, 0x20]
}

/// The type token of a tree record, with the space that ends it.
pub open spec fn tree_tag() -> Seq<u8> {
    seq![0x74u8, 0x72, 0x65, 0x65, 0x20]
}

/// The object that an inflated record holds: a type token, a size that is not
/// looked at, a NUL byte, and the body.
pub open spec fn decode_object(content: Seq<u8>) -> Option<ObjectView> {
    let n = chunk_len(content, 0x20);
    let after_kind = content.skip(n);
    let body = after_kind.skip(chunk_len(after_kind, 0));
    if content.take(n) == commit_tag() {
        Some(ObjectView::Commit(parse_commit(body)))
    } else if content.take(n) == tree_tag() {
        match parse_tree(body) {
            Ok(entries) => Some(ObjectView::Tree(entries)),
            Err(_) => None,
        }
    } else {
        None
    }
}

/// The object that the store holds under `id`.
pub open spec fn load_object(files: Seq<FileView>, id: Seq<char>) -> Option<ObjectView> {
    match stored_bytes(files, id) {
        None => None,
        Some(data) => match zlib_inflated(data) {
            None => None,
            Some(content) => decode_object(content),
        },
    }
}

/// The commit that the store holds under `id`.
pub open spec fn load_commit(files: Seq<FileView>, id: Seq<char>) -> Option<CommitView> {
    match load_object(files, id) {
        Some(ObjectView::Commit(commit)) => Some(commit),
        _ => None,
    }
}

/// The tree that the store holds under `id`.
pub open spec fn load_tree(files: Seq<FileView>, id: Seq<char>) -> Option<Seq<EntryView>> {
    match load_object(files, id) {
        Some(ObjectView::Tree(entries)) => Some(entries),
        _ => None,
    }
}

/// Every tree of the store lists its names in ascending order.
pub proof fn lemma_load_tree_sorted(files: Seq<FileView>, id: Seq<char>)
    ensures
        load_tree(files, id) matches Some(entries) ==> sorted_by_name(entries),
{
    if let Some(data) = stored_bytes(files, id) {
        if let Some(content) = zlib_inflated(data) {
            let n = chunk_len(content, 0x20);
            let after_kind = content.skip(n);
            let body = after_kind.skip(chunk_len(after_kind, 0));
            crate::objects::tree::lemma_parse_entries_sorted(body, Seq::empty());
        }
    }
}

/// Decoding is a function of the record: two objects that were decoded from
/// the same bytes have equal values.
pub proof fn lemma_decode_twice(content: Seq<u8>, first: Object, second: Object)
    requires
        decode_object(content) == Some(object_view(first)),
        decode_object(content) == Some(object_view(second)),
    ensures
        object_view(first) == object_view(second),
{
}

/// Loading is a function of the store and the identifier: two objects that
/// were loaded under the same identifier have equal values, and two
/// identifiers whose files hold the same bytes give equal objects.
pub proof fn lemma_load_twice(files: Seq<FileView>, id: Seq<char>, other: Seq<char>)
    requires
        stored_bytes(files, id) == stored_bytes(files, other),
    ensures
        load_object(files, id) == load_object(files, other),
{
}

fn is_commit_tag(kind: &Vec<u8>) -> (b: bool)
    ensures
        b == (kind@ == commit_tag()),
{
    let b = kind.len() == 7 && kind[0] == 0x63 && kind[1] == 0x6f && kind[2] == 0x6d && kind[3]
        == 0x6d && kind[4] == 0x69 && kind[5] == 0x74 && kind[6] == 0x20;
    assert(b == (kind@ =~= commit_tag()));
    b
}

fn is_tree_tag(kind: &Vec<u8>) -> (b: bool)
    ensures
        b == (kind@ == tree_tag()),
{
    let b = kind.len() == 5 && kind[0] == 0x74 && kind[1] == 0x72 && kind[2] == 0x65 && kind[3]
        == 0x65 && kind[4] == 0x20;
    assert(b == (kind@ =~= tree_tag()));
    b
}

/// A read-only store of compressed objects, held in memory file by file.
pub struct Database {
    files: Vec<ObjectFile>,
}

impl View for Database {
    type V = Seq<FileView>;

    closed spec fn view(&self) -> Seq<FileView> {
        files_view(self.files@)
    }
}

impl Database {
    /// A store that holds `files`.
    pub fn new(files: Vec<ObjectFile>) -> (r: Self)
        ensures
            r@ == files_view(files@),
    {
        Database { files }
    }

    /// The bytes of the file that `id` addresses.
    pub fn find(&self, id: &Id) -> (r: Option<&Vec<u8>>)
        ensures
            match r {
                Some(data) => stored_bytes(self@, id@) == Some(data@),
                None => stored_bytes(self@, id@) is None,
            },
    {
        let text = id.as_str();
        let len = text.unicode_len();
        if len < 2 {
            return None;
        }
        let dir = text.substring_char(0, 2).to_owned();
        let name = text.substring_char(2, len).to_owned();
        assert(dir@ =~= id@.take(2));
        assert(name@ =~= id@.skip(2));
        let n = self.files.len();
        let mut i: usize = 0;
        assert(self@.skip(0) =~= self@);
        while i < n
            invariant
                i <= n,
                n == self.files@.len(),
                id@.len() >= 2,
                dir@ == id@.take(2),
                name@ == id@.skip(2),
                find_file(self@, dir@, name@) == find_file(self@.skip(i as int), dir@, name@),
            decreases n - i,
        {
            proof {
                assert(self@.skip(i as int).drop_first() =~= self@.skip(i + 1));
                assert(self@.skip(i as int)[0] == self@[i as int]);
                assert(self@[i as int].dir == self.files@[i as int].dir@);
                assert(self@[i as int].name == self.files@[i as int].name@);
                assert(self@[i as int].data == self.files@[i as int].data@);
            }
            if self.files[i].dir == dir && self.files[i].name == name {
                return Some(&self.files[i].data);
            }
            i += 1;
        }
        None
    }

    /// Decodes an inflated record.
    pub fn decode(content: Vec<u8>) -> (r: Option<Object>)
        ensures
            match r {
                Some(object) => decode_object(content@) == Some(object_view(object)),
                None => decode_object(content@) is None,
            },
    {
        let mut reader = Reader::new(content);
        let kind = reader.read_until(0x20);
        let _size = reader.read_until(0);
        if is_commit_tag(&kind) {
            Some(Object::Commit(Commit::decode(reader)))
        } else if is_tree_tag(&kind) {
            match Tree::decode(reader) {
                Ok(tree) => Some(Object::Tree(tree)),
                Err(_) => None,
            }
        } else {
            None
        }
    }

    /// Loads the object stored under `id`: finds its file, inflates it, and
    /// decodes the record. A missing file and an object that does not decode
    /// both give `None`.
    pub fn load(&self, id: &Id) -> (r: Option<WithId<Object>>)
        ensures
            match r {
                Some(found) => found.spec_id() == id@ && load_object(self@, id@) == Some(
                    object_view(found.object()),
                ),
                None => load_object(self@, id@) is None,
            },
    {
        let data = match self.find(id) {
            None => {
                return None;
            },
            Some(data) => data,
        };
        let content = match inflate(data.as_slice()) {
            None => {
                return None;
            },
            Some(content) => content,
        };
        match Database::decode(content) {
            None => None,
            Some(object) => Some(WithId::new(id.clone(), object)),
        }
    }
}

} // verus!
