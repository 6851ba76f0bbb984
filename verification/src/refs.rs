//! Branch heads: names that resolve to the identifier of a commit.
use crate::objects::Id;
use crate::text::text_from_utf8;
use crate::text::trim;
use crate::text::trimmed;
use vstd::prelude::*;
use vstd::utf8::decode_utf8;
use vstd::utf8::valid_utf8;

verus! {

/// A file under the heads directory: the name of the branch and its bytes.
pub struct RefFile {
    pub name: String,
    pub data: Vec<u8>,
}

/// The mathematical value of a head file.
pub type RefView = (Seq<char>, Seq<u8>);

/// The head files of a vector, as mathematical values.
pub open spec fn refs_view(heads: Seq<RefFile>) -> Seq<RefView> {
    Seq::new(heads.len(), |i: int| (heads[i].name@, heads[i].data@))
}

/// The bytes of the first head named `name`.
pub open spec fn find_ref(heads: Seq<RefView>, name: Seq<char>) -> Option<Seq<u8>>
    decreases heads.len(),
{
    if heads.len() == 0 {
        None
    } else if heads[0].0 == name {
        Some(heads[0].1)
    } else {
        find_ref(heads.drop_first(), name)
    }
}

/// The identifier that the head `name` resolves to: the text of its file,
/// trimmed. A missing head and one that is not UTF-8 resolve to nothing.
pub open spec fn resolve(heads: Seq<RefView>, name: Seq<char>) -> Option<Seq<char>> {
    match find_ref(heads, name) {
        None => None,
        Some(data) => if valid_utf8(data) {
            Some(trimmed(decode_utf8(data)))
        } else {
            None
        },
    }
}

/// The branch heads of a repository, held in memory file by file.
pub struct Refs {
    heads: Vec<RefFile>,
}

impl View for Refs {
    type V = Seq<RefView>;

    closed spec fn view(&self) -> Seq<RefView> {
        refs_view(self.heads@)
    }
}

impl Refs {
    /// The heads that `heads` holds.
    pub fn new(heads: Vec<RefFile>) -> (r: Self)
        ensures
            r@ == refs_view(heads@),
    {
        Refs { heads }
    }

    /// Resolves the branch `name` to the identifier it points at.
    pub fn read_ref(&self, name: &str) -> (r: Option<Id>)
        ensures
            match r {
                Some(id) => resolve(self@, name@) == Some(id@),
                None => resolve(self@, name@) is None,
            },
    {
        let wanted = name.to_owned();
        let n = self.heads.len();
        let mut i: usize = 0;
        assert(self@.skip(0) =~= self@);
        while i < n
            invariant
                i <= n,
                n == self.heads@.len(),
                wanted@ == name@,
                find_ref(self@, name@) == find_ref(self@.skip(i as int), name@),
            decreases n - i,
        {
            proof {
                assert(self@.skip(i as int).drop_first() =~= self@.skip(i + 1));
                assert(self@.skip(i as int)[0] == self@[i as int]);
            }
            if self.heads[i].name == wanted {
                let data = self.heads[i].data.clone();
                assert(data@ =~= self.heads@[i as int].data@);
                return match text_from_utf8(data) {
                    None => None,
                    Some(text) => Some(Id::from(trim(text.as_str()).as_str())),
                };
            }
            i += 1;
        }
        None
    }
}

} // verus!
