//! Trees: ordered listings of named entries, and their decoder.
use super::hex;
use super::Id;
use crate::read::chunk_len;
use crate::read::lemma_chunk_len;
use crate::read::read_to_string_until;
use crate::read::text_until;
use crate::read::DecodeError;
use crate::read::Reader;
use crate::text::parse_digits;
use crate::text::parse_number;
use vstd::prelude::*;
use vstd::utf8::encode_utf8;
use vstd::utf8::encode_utf8_decode_utf8;

verus! {

/// The mode that marks an entry as a directory.
pub const TREE_MODE: u32 = 0o40000;

/// Number of raw hash bytes that end each tree record.
pub const HASH_LEN: usize = 20;

/// The mathematical value of a tree entry: an identifier and a mode.
pub struct ItemView {
    pub id: Seq<char>,
    pub mode: u32,
}

impl ItemView {
    /// Whether the entry refers to a directory.
    pub open spec fn is_tree(self) -> bool {
        self.mode == TREE_MODE
    }
}

/// A name together with the entry that a tree lists under it.
pub type EntryView = (Seq<char>, ItemView);

/// An entry of a tree: the identifier of an object and its file mode.
#[derive(Debug)]
pub struct TreeItem {
    pub id: Id,
    mode: u32,
}

impl View for TreeItem {
    type V = ItemView;

    closed spec fn view(&self) -> ItemView {
        ItemView { id: self.id@, mode: self.mode }
    }
}

impl Clone for TreeItem {
    fn clone(&self) -> (r: Self)
        ensures
            r@ == self@,
    {
        TreeItem { id: self.id.clone(), mode: self.mode }
    }
}

impl TreeItem {
    /// An entry with the given identifier and mode.
    pub fn new(id: Id, mode: u32) -> (r: Self)
        ensures
            r@ == (ItemView { id: id@, mode }),
    {
        TreeItem { id, mode }
    }

    /// The entry that stands for the directory `id`.
    pub fn tree(id: &Id) -> (r: Self)
        ensures
            r@ == (ItemView { id: id@, mode: TREE_MODE }),
    {
        TreeItem { id: id.clone(), mode: TREE_MODE }
    }

    /// Whether the entry refers to a directory.
    pub fn is_tree(&self) -> (b: bool)
        ensures
            b == self@.is_tree(),
    {
        self.mode == TREE_MODE
    }

    /// The identifier of the object that the entry refers to.
    pub fn id(&self) -> (id: &Id)
        ensures
            id@ == self@.id,
    {
        &self.id
    }

    /// The file mode of the entry.
    pub fn mode(&self) -> (m: u32)
        ensures
            m == self@.mode,
    {
        self.mode
    }
}

/// Lexicographic order on byte strings.
pub open spec fn bytes_less(a: Seq<u8>, b: Seq<u8>) -> bool
    decreases a.len(),
{
    if b.len() == 0 {
        false
    } else if a.len() == 0 {
        true
    } else if a[0] != b[0] {
        a[0] < b[0]
    } else {
        bytes_less(a.drop_first(), b.drop_first())
    }
}

/// The order of entry names: lexicographic on their UTF-8 encoding.
pub open spec fn name_less(a: Seq<char>, b: Seq<char>) -> bool {
    bytes_less(encode_utf8(a), encode_utf8(b))
}

/// Of two different byte strings one is less than the other.
pub proof fn lemma_bytes_less_total(a: Seq<u8>, b: Seq<u8>)
    ensures
        bytes_less(a, b) || a == b || bytes_less(b, a),
    decreases a.len(),
{
    if a.len() > 0 && b.len() > 0 && a[0] == b[0] {
        lemma_bytes_less_total(a.drop_first(), b.drop_first());
        if a.drop_first() == b.drop_first() {
            assert(a =~= seq![a[0]] + a.drop_first());
            assert(b =~= seq![b[0]] + b.drop_first());
        }
    } else if a.len() == 0 && b.len() == 0 {
        assert(a =~= b);
    }
}

/// The order on byte strings is transitive.
pub proof fn lemma_bytes_less_transitive(a: Seq<u8>, b: Seq<u8>, c: Seq<u8>)
    requires
        bytes_less(a, b),
        bytes_less(b, c),
    ensures
        bytes_less(a, c),
    decreases a.len(),
{
    if a.len() > 0 && a[0] == b[0] && b[0] == c[0] {
        lemma_bytes_less_transitive(a.drop_first(), b.drop_first(), c.drop_first());
    }
}

/// No byte string is less than itself.
pub proof fn lemma_bytes_less_irreflexive(a: Seq<u8>)
    ensures
        !bytes_less(a, a),
    decreases a.len(),
{
    if a.len() > 0 {
        lemma_bytes_less_irreflexive(a.drop_first());
    }
}

/// Of two different names one is less than the other.
pub proof fn lemma_name_less_total(a: Seq<char>, b: Seq<char>)
    ensures
        name_less(a, b) || a == b || name_less(b, a),
{
    lemma_bytes_less_total(encode_utf8(a), encode_utf8(b));
    encode_utf8_decode_utf8(a);
    encode_utf8_decode_utf8(b);
}

/// Whether the names of `entries` strictly ascend.
pub open spec fn sorted_by_name(entries: Seq<EntryView>) -> bool {
    forall|i: int, j: int|
        0 <= i < j < entries.len() ==> name_less(#[trigger] entries[i].0, #[trigger] entries[j].0)
}

/// In a tree whose names strictly ascend no name occurs twice.
pub proof fn lemma_sorted_names_unique(entries: Seq<EntryView>, i: int, j: int)
    requires
        sorted_by_name(entries),
        0 <= i < j < entries.len(),
    ensures
        entries[i].0 != entries[j].0,
{
    lemma_bytes_less_irreflexive(encode_utf8(entries[i].0));
}

/// `entries` with `name` bound to `item`: a new entry at its place in the
/// order, or the entry of that name replaced.
pub open spec fn insert_entry(entries: Seq<EntryView>, name: Seq<char>, item: ItemView) -> Seq<
    EntryView,
>
    decreases entries.len(),
{
    if entries.len() == 0 {
        seq![(name, item)]
    } else if entries.last().0 == name {
        entries.drop_last().push((name, item))
    } else if name_less(entries.last().0, name) {
        entries.push((name, item))
    } else {
        insert_entry(entries.drop_last(), name, item).push(entries.last())
    }
}

/// Every entry after an insertion is the new one or one that was there before.
pub proof fn lemma_insert_entry_members(
    entries: Seq<EntryView>,
    name: Seq<char>,
    item: ItemView,
    i: int,
)
    requires
        0 <= i < insert_entry(entries, name, item).len(),
    ensures
        insert_entry(entries, name, item)[i] == (name, item) || entries.contains(
            insert_entry(entries, name, item)[i],
        ),
    decreases entries.len(),
{
    let r = insert_entry(entries, name, item);
    if entries.len() == 0 {
    } else if entries.last().0 == name {
        if i < entries.len() - 1 {
            assert(entries[i] == r[i]);
        }
    } else if name_less(entries.last().0, name) {
        if i < entries.len() {
            assert(entries[i] == r[i]);
        }
    } else {
        let inner = insert_entry(entries.drop_last(), name, item);
        if i < inner.len() {
            lemma_insert_entry_members(entries.drop_last(), name, item, i);
            if inner[i] != (name, item) {
                let j = choose|j: int| 0 <= j < entries.drop_last().len() && entries.drop_last()[j] == inner[i];
                assert(entries[j] == r[i]);
            }
        } else {
            assert(entries[entries.len() - 1] == r[i]);
        }
    }
}

/// Insertion keeps the names strictly ascending.
pub proof fn lemma_insert_entry_sorted(entries: Seq<EntryView>, name: Seq<char>, item: ItemView)
    requires
        sorted_by_name(entries),
    ensures
        sorted_by_name(insert_entry(entries, name, item)),
    decreases entries.len(),
{
    let r = insert_entry(entries, name, item);
    if entries.len() == 0 {
    } else if entries.last().0 == name {
        assert forall|i: int, j: int| 0 <= i < j < r.len() implies name_less(
            #[trigger] r[i].0,
            #[trigger] r[j].0,
        ) by {
            assert(r[i] == entries[i]);
            assert(r[j].0 == entries[j].0);
        }
    } else if name_less(entries.last().0, name) {
        assert forall|i: int, j: int| 0 <= i < j < r.len() implies name_less(
            #[trigger] r[i].0,
            #[trigger] r[j].0,
        ) by {
            assert(r[i] == entries[i]);
            if j < entries.len() {
                assert(r[j] == entries[j]);
            } else if i < entries.len() - 1 {
                assert(name_less(entries[i].0, entries[entries.len() - 1].0));
                lemma_bytes_less_transitive(
                    encode_utf8(entries[i].0),
                    encode_utf8(entries.last().0),
                    encode_utf8(name),
                );
            }
        }
    } else {
        let front = entries.drop_last();
        let inner = insert_entry(front, name, item);
        assert forall|i: int, j: int| 0 <= i < j < front.len() implies name_less(
            #[trigger] front[i].0,
            #[trigger] front[j].0,
        ) by {
            assert(front[i] == entries[i]);
            assert(front[j] == entries[j]);
        }
        lemma_insert_entry_sorted(front, name, item);
        lemma_name_less_total(entries.last().0, name);
        assert forall|i: int, j: int| 0 <= i < j < r.len() implies name_less(
            #[trigger] r[i].0,
            #[trigger] r[j].0,
        ) by {
            assert(r[i] == inner[i]);
            if j < inner.len() {
                assert(r[j] == inner[j]);
            } else {
                lemma_insert_entry_members(front, name, item, i);
                if inner[i] != (name, item) {
                    let k = choose|k: int| 0 <= k < front.len() && front[k] == inner[i];
                    assert(entries[k] == front[k]);
                    assert(name_less(entries[k].0, entries[entries.len() - 1].0));
                }
            }
        }
    }
}

/// What the standard unsigned parse in radix eight makes of `s`: an optional
/// leading `+`, then octal digits whose value fits 32 bits.
pub open spec fn parse_mode(s: Seq<char>) -> Option<u32> {
    let digits = if s.len() > 1 && s[0] == '+' {
        s.drop_first()
    } else {
        s
    };
    match parse_number(digits, 8, u32::MAX as int) {
        Some(v) => Some(v as u32),
        None => None,
    }
}

/// The first record of `rest`: its name, its entry, and the bytes after it.
/// `Ok(None)` marks the end of the stream.
pub open spec fn parse_item(rest: Seq<u8>) -> Result<
    Option<(Seq<char>, ItemView, Seq<u8>)>,
    DecodeError,
> {
    let after_mode = rest.skip(chunk_len(rest, 0x20));
    let after_name = after_mode.skip(chunk_len(after_mode, 0));
    match text_until(rest, 0x20) {
        Err(e) => Err(e),
        Ok(mode) => match text_until(after_mode, 0) {
            Err(e) => Err(e),
            Ok(name) => match mode {
                None => Ok(None),
                Some(mode_text) => if after_name.len() < HASH_LEN {
                    Err(DecodeError::UnexpectedEof)
                } else {
                    match (parse_mode(mode_text), name) {
                        (Some(mode), Some(name_text)) => Ok(
                            Some(
                                (
                                    name_text,
                                    ItemView { id: hex(after_name.take(HASH_LEN as int)), mode },
                                    after_name.skip(HASH_LEN as int),
                                ),
                            ),
                        ),
                        _ => Err(DecodeError::InvalidMode),
                    }
                },
            },
        },
    }
}

/// The entries that the records of `rest` add to `entries`, in stream order.
pub open spec fn parse_entries(rest: Seq<u8>, entries: Seq<EntryView>) -> Result<
    Seq<EntryView>,
    DecodeError,
>
    decreases rest.len(),
{
    match parse_item(rest) {
        Err(e) => Err(e),
        Ok(None) => Ok(entries),
        Ok(Some((name, item, after))) => {
            proof {
                lemma_parse_item_advances(rest);
            }
            parse_entries(after, insert_entry(entries, name, item))
        },
    }
}

/// The tree that a record stream decodes to.
pub open spec fn parse_tree(body: Seq<u8>) -> Result<Seq<EntryView>, DecodeError> {
    parse_entries(body, Seq::empty())
}

/// A record takes at least one byte off the stream.
pub proof fn lemma_parse_item_advances(rest: Seq<u8>)
    ensures
        parse_item(rest) matches Ok(Some((_, _, after))) ==> after.len() < rest.len(),
{
    lemma_chunk_len(rest, 0x20);
    let after_mode = rest.skip(chunk_len(rest, 0x20));
    lemma_chunk_len(after_mode, 0);
}

/// Decoding keeps the names strictly ascending.
pub proof fn lemma_parse_entries_sorted(rest: Seq<u8>, entries: Seq<EntryView>)
    requires
        sorted_by_name(entries),
    ensures
        parse_entries(rest, entries) matches Ok(r) ==> sorted_by_name(r),
    decreases rest.len(),
{
    match parse_item(rest) {
        Ok(Some((name, item, after))) => {
            lemma_parse_item_advances(rest);
            lemma_insert_entry_sorted(entries, name, item);
            lemma_parse_entries_sorted(after, insert_entry(entries, name, item));
        },
        _ => {},
    }
}

/// Whether `a` comes before `b` in lexicographic order.
pub fn bytes_before(a: &[u8], b: &[u8]) -> (r: bool)
    ensures
        r == bytes_less(a@, b@),
{
    let n = a.len();
    let m = b.len();
    let mut i: usize = 0;
    assert(a@.skip(0) =~= a@ && b@.skip(0) =~= b@);
    while i < n && i < m && a[i] == b[i]
        invariant
            i <= n,
            i <= m,
            n == a@.len(),
            m == b@.len(),
            bytes_less(a@, b@) == bytes_less(a@.skip(i as int), b@.skip(i as int)),
        decreases n - i,
    {
        proof {
            assert(a@.skip(i as int).drop_first() =~= a@.skip(i + 1));
            assert(b@.skip(i as int).drop_first() =~= b@.skip(i + 1));
        }
        i += 1;
    }
    if i == m {
        false
    } else if i == n {
        true
    } else {
        a[i] < b[i]
    }
}

/// The entries of a vector of named items, as mathematical values.
pub open spec fn entries_view(items: Seq<(String, TreeItem)>) -> Seq<EntryView> {
    Seq::new(items.len(), |i: int| (items[i].0@, items[i].1@))
}

/// An ordered mapping from entry names to entries, ascending by name.
pub struct Tree {
    items: Vec<(String, TreeItem)>,
}

impl View for Tree {
    type V = Seq<EntryView>;

    closed spec fn view(&self) -> Seq<EntryView> {
        entries_view(self.items@)
    }
}

impl Tree {
    #[verifier::type_invariant]
    spec fn well_formed(&self) -> bool {
        sorted_by_name(entries_view(self.items@))
    }

    /// The empty tree.
    pub fn new() -> (r: Self)
        ensures
            r@ == Seq::<EntryView>::empty(),
    {
        let r = Tree { items: Vec::new() };
        assert(r@ =~= Seq::<EntryView>::empty());
        r
    }

    /// The entries in ascending order of their names.
    pub fn items(&self) -> (r: &Vec<(String, TreeItem)>)
        ensures
            entries_view(r@) == self@,
            sorted_by_name(self@),
    {
        proof {
            use_type_invariant(self);
        }
        &self.items
    }

    /// Binds `name` to `item`, replacing the entry of that name if there is one.
    pub fn insert(self, name: String, item: TreeItem) -> (r: Self)
        ensures
            r@ == insert_entry(self@, name@, item@),
    {
        proof {
            use_type_invariant(&self);
            lemma_insert_entry_sorted(self@, name@, item@);
        }
        let mut items = self.items;
        insert_sorted(&mut items, name, item);
        Tree { items }
    }
}

/// Binds `name` to `item` in a vector of entries that ascends by name.
fn insert_sorted(items: &mut Vec<(String, TreeItem)>, name: String, item: TreeItem)
    ensures
        entries_view(final(items)@) == insert_entry(entries_view(old(items)@), name@, item@),
{
    let ghost before = entries_view(items@);
    let ghost goal = insert_entry(before, name@, item@);
    let mut k = items.len();
    let mut replace = false;
    proof {
        assert(before.take(k as int) =~= before);
        assert(goal + before.skip(k as int) =~= goal);
    }
    while k > 0
        invariant_except_break
            !replace,
            goal == insert_entry(before.take(k as int), name@, item@) + before.skip(k as int),
        invariant
            k <= items@.len(),
            before == entries_view(items@),
        ensures
            k <= items@.len(),
            before == entries_view(items@),
            replace ==> 0 < k && goal == before.take(k - 1).push((name@, item@)) + before.skip(
                k as int,
            ),
            !replace ==> goal == before.take(k as int).push((name@, item@)) + before.skip(
                k as int,
            ),
        decreases k,
    {
        let ghost front = before.take(k as int);
        proof {
            assert(front.last() == before[k - 1]);
            assert(front.drop_last() =~= before.take(k - 1));
            assert(before.skip(k - 1) =~= seq![before[k - 1]] + before.skip(k as int));
        }
        if items[k - 1].0 == name {
            replace = true;
            break ;
        }
        if bytes_before(items[k - 1].0.as_str().as_bytes(), name.as_str().as_bytes()) {
            break ;
        }
        proof {
            let inner = insert_entry(before.take(k - 1), name@, item@);
            assert(inner.push(front.last()) + before.skip(k as int) =~= inner + before.skip(
                k - 1,
            ));
        }
        k -= 1;
    }
    proof {
        if !replace && k == 0 {
            assert(before.take(0) =~= Seq::<EntryView>::empty());
            assert(before.take(0).push((name@, item@)) =~= seq![(name@, item@)]);
        }
    }
    if replace {
        items.set(k - 1, (name, item));
        assert(entries_view(items@) =~= goal);
    } else {
        items.insert(k, (name, item));
        assert(entries_view(items@) =~= goal);
    }
}

/// Reads an octal file mode as the standard unsigned parse does.
pub fn read_mode(s: &str) -> (r: Option<u32>)
    ensures
        r == parse_mode(s@),
{
    let n = s.unicode_len();
    let digits = if n > 1 && s.get_char(0) == '+' {
        let d = s.substring_char(1, n);
        assert(d@ =~= s@.drop_first());
        d
    } else {
        s
    };
    match parse_digits(digits, 8, 0xffff_ffff) {
        Some(v) => Some(v as u32),
        None => None,
    }
}

/// Reads one record of a tree: a mode, a name, and the raw hash.
pub fn read_item(reader: &mut Reader) -> (r: Result<Option<(String, TreeItem)>, DecodeError>)
    ensures
        match r {
            Ok(Some((name, item))) => parse_item(old(reader).remaining()) matches Ok(
                Some((n, i, after)),
            ) && n == name@ && i == item@ && after == final(reader).remaining(),
            Ok(None) => parse_item(old(reader).remaining()) == Ok::<
                Option<(Seq<char>, ItemView, Seq<u8>)>,
                DecodeError,
            >(None),
            Err(e) => parse_item(old(reader).remaining()) == Err::<
                Option<(Seq<char>, ItemView, Seq<u8>)>,
                DecodeError,
            >(e),
        },
{
    let mode = read_to_string_until(reader, 0x20)?;
    let name = read_to_string_until(reader, 0)?;
    let mode_text = match mode {
        None => {
            return Ok(None);
        },
        Some(text) => text,
    };
    let hash = match reader.read_exact(HASH_LEN) {
        None => {
            return Err(DecodeError::UnexpectedEof);
        },
        Some(bytes) => bytes,
    };
    let mode = match read_mode(mode_text.as_str()) {
        None => {
            return Err(DecodeError::InvalidMode);
        },
        Some(mode) => mode,
    };
    match name {
        None => Err(DecodeError::InvalidMode),
        Some(name) => Ok(Some((name, TreeItem { id: Id::from(hash.as_slice()), mode }))),
    }
}

impl Tree {
    /// Decodes the body of a tree object: records until the stream ends.
    pub fn decode(body: Reader) -> (r: Result<Tree, DecodeError>)
        ensures
            match r {
                Ok(tree) => parse_tree(body.remaining()) == Ok::<Seq<EntryView>, DecodeError>(
                    tree@,
                ),
                Err(e) => parse_tree(body.remaining()) == Err::<Seq<EntryView>, DecodeError>(e),
            },
    {
        let mut reader = body;
        let mut tree = Tree::new();
        loop
            invariant
                parse_tree(body.remaining()) == parse_entries(reader.remaining(), tree@),
            decreases reader.remaining().len(),
        {
            proof {
                lemma_parse_item_advances(reader.remaining());
            }
            match read_item(&mut reader) {
                Err(e) => {
                    return Err(e);
                },
                Ok(None) => {
                    return Ok(tree);
                },
                Ok(Some((name, item))) => {
                    tree = tree.insert(name, item);
                },
            }
        }
    }
}

} // verus!
