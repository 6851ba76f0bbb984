//! The object model: identifiers, and the typed objects that the store decodes.
pub mod commit;
pub mod tree;
pub mod with_id;

pub use self::commit::Commit;
pub use self::tree::Tree;
pub use self::tree::TreeItem;
pub use self::with_id::WithId;
use vstd::prelude::*;
use vstd::std_specs::cmp::PartialEqSpecImpl;
use vstd::std_specs::convert::FromSpecImpl;

verus! {

/// The sixteen lowercase hexadecimal digits.
pub open spec fn hex_digit(n: int) -> char {
    seq!['0', '1', '2', '3', '4', '5', '6', '7', '8', '9', 'a', 'b', 'c', 'd', 'e', 'f'][n]
}

/// Lowercase hexadecimal rendering of `bytes`, two digits per byte.
pub open spec fn hex(bytes: Seq<u8>) -> Seq<char>
    decreases bytes.len(),
{
    if bytes.len() == 0 {
        Seq::empty()
    } else {
        hex(bytes.drop_last()).push(hex_digit(bytes.last() as int / 16)).push(
            hex_digit(bytes.last() as int % 16),
        )
    }
}

/// The rendering of `bytes` has two characters per byte.
pub proof fn lemma_hex_len(bytes: Seq<u8>)
    ensures
        hex(bytes).len() == 2 * bytes.len(),
    decreases bytes.len(),
{
    if bytes.len() > 0 {
        lemma_hex_len(bytes.drop_last());
    }
}

fn hex_digit_str(n: u8) -> (r: &'static str)
    requires
        n < 16,
    ensures
        r@ == seq![hex_digit(n as int)],
{
    proof {
        reveal_strlit("0");
        reveal_strlit("1");
        reveal_strlit("2");
        reveal_strlit("3");
        reveal_strlit("4");
        reveal_strlit("5");
        reveal_strlit("6");
        reveal_strlit("7");
        reveal_strlit("8");
        reveal_strlit("9");
        reveal_strlit("a");
        reveal_strlit("b");
        reveal_strlit("c");
        reveal_strlit("d");
        reveal_strlit("e");
        reveal_strlit("f");
    }
    let r = match n {
        0 => "0",
        1 => "1",
        2 => "2",
        3 => "3",
        4 => "4",
        5 => "5",
        6 => "6",
        7 => "7",
        8 => "8",
        9 => "9",
        10 => "a",
        11 => "b",
        12 => "c",
        13 => "d",
        14 => "e",
        _ => "f",
    };
    assert(r@ =~= seq![hex_digit(n as int)]);
    r
}

/// One of the objects that the store can hand out.
pub enum Object {
    Commit(Commit),
    Tree(Tree),
    TreeItem(TreeItem),
}

impl Object {
    /// The commit, if the object is one.
    pub fn commit(self) -> (r: Option<Commit>)
        ensures
            match r {
                Some(commit) => self == Object::Commit(commit),
                None => !(self is Commit),
            },
    {
        match self {
            Object::Commit(commit) => Some(commit),
            _ => None,
        }
    }

    /// The tree, if the object is one.
    pub fn tree(self) -> (r: Option<Tree>)
        ensures
            match r {
                Some(tree) => self == Object::Tree(tree),
                None => !(self is Tree),
            },
    {
        match self {
            Object::Tree(tree) => Some(tree),
            _ => None,
        }
    }

    /// The tree entry, if the object is one.
    pub fn tree_item(self) -> (r: Option<TreeItem>)
        ensures
            match r {
                Some(item) => self == Object::TreeItem(item),
                None => !(self is TreeItem),
            },
    {
        match self {
            Object::TreeItem(item) => Some(item),
            _ => None,
        }
    }
}

impl From<Commit> for Object {
    fn from(commit: Commit) -> (r: Self) {
        Object::Commit(commit)
    }
}

impl FromSpecImpl<Commit> for Object {
    open spec fn obeys_from_spec() -> bool {
        true
    }

    open spec fn from_spec(v: Commit) -> Self {
        Object::Commit(v)
    }
}

impl From<TreeItem> for Object {
    fn from(tree_item: TreeItem) -> (r: Self) {
        Object::TreeItem(tree_item)
    }
}

impl FromSpecImpl<TreeItem> for Object {
    open spec fn obeys_from_spec() -> bool {
        true
    }

    open spec fn from_spec(v: TreeItem) -> Self {
        Object::TreeItem(v)
    }
}

/// A content address, held in its textual form.
#[derive(Debug, Eq, Hash, PartialOrd, Ord)]
pub struct Id(String);

impl View for Id {
    type V = Seq<char>;

    closed spec fn view(&self) -> Seq<char> {
        self.0@
    }
}

impl Id {
    /// The textual form of the identifier.
    pub fn as_str(&self) -> (s: &str)
        ensures
            s@ == self@,
    {
        self.0.as_str()
    }
}

impl Clone for Id {
    fn clone(&self) -> (r: Self)
        ensures
            r@ == self@,
    {
        Id(self.0.clone())
    }
}

impl Default for Id {
    fn default() -> (r: Self)
        ensures
            r@ == Seq::<char>::empty(),
    {
        Id(String::new())
    }
}

impl PartialEq for Id {
    fn eq(&self, other: &Self) -> (b: bool) {
        self.0 == other.0
    }
}

impl PartialEqSpecImpl for Id {
    open spec fn obeys_eq_spec() -> bool {
        true
    }

    open spec fn eq_spec(&self, other: &Self) -> bool {
        self@ == other@
    }
}

impl<'a> From<&'a str> for Id {
    fn from(id: &'a str) -> (r: Self)
        ensures
            r@ == id@,
    {
        Id(id.to_owned())
    }
}

impl<'a> FromSpecImpl<&'a str> for Id {
    open spec fn obeys_from_spec() -> bool {
        false
    }

    open spec fn from_spec(v: &'a str) -> Self {
        arbitrary()
    }
}

impl<'a> From<&'a [u8]> for Id {
    fn from(bytes: &'a [u8]) -> (r: Self)
        ensures
            r@ == hex(bytes@),
    {
        let mut text = String::new();
        let n = bytes.len();
        let mut i: usize = 0;
        while i < n
            invariant
                i <= n,
                n == bytes@.len(),
                text@ == hex(bytes@.take(i as int)),
            decreases n - i,
        {
            let byte = bytes[i];
            proof {
                let t = bytes@.take(i + 1);
                assert(t.drop_last() =~= bytes@.take(i as int));
                assert(t.last() == byte);
            }
            text.append(hex_digit_str(byte / 16));
            text.append(hex_digit_str(byte % 16));
            assert(text@ =~= hex(bytes@.take(i + 1)));
            i += 1;
        }
        assert(bytes@.take(n as int) =~= bytes@);
        Id(text)
    }
}

impl<'a> FromSpecImpl<&'a [u8]> for Id {
    open spec fn obeys_from_spec() -> bool {
        false
    }

    open spec fn from_spec(v: &'a [u8]) -> Self {
        arbitrary()
    }
}

} // verus!
