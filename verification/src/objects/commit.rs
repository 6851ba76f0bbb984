//! Commits and the decoder of their header block.
use super::tree::ItemView;
use super::tree::TreeItem;
use super::tree::TREE_MODE;
use super::Id;
use crate::read::chunk_len;
use crate::read::lemma_chunk_len;
use crate::read::Reader;
use crate::text::digit_value;
use crate::text::find_char;
use crate::text::first_index;
use crate::text::is_digit;
use crate::text::parse_digits;
use crate::text::parse_number;
use crate::text::text_from_utf8;
use crate::text::trim;
use crate::text::trimmed;
use vstd::prelude::*;
use vstd::utf8::decode_utf8;
use vstd::utf8::valid_utf8;

verus! {

/// A header of a commit: its key and its value.
pub type HeaderView = (Seq<char>, Seq<char>);

/// The mathematical value of a commit.
pub struct CommitView {
    pub tree: Seq<char>,
    pub parents: Seq<Seq<char>>,
    pub time: Option<u64>,
    pub message: Seq<char>,
}

/// The header that a line holds, or `None` where the header block ends: at a
/// line that is not UTF-8, is blank, or has no space after its key.
pub open spec fn parse_header(line: Seq<u8>) -> Option<HeaderView> {
    if !valid_utf8(line) {
        None
    } else {
        let text = decode_utf8(line);
        let i = first_index(text, ' ');
        if trimmed(text).len() == 0 || i >= text.len() {
            None
        } else {
            Some((trimmed(text.take(i)), trimmed(text.skip(i + 1))))
        }
    }
}

/// The headers at the start of `rest`, and the bytes that follow the line that
/// ends them.
pub open spec fn parse_headers(rest: Seq<u8>) -> (Seq<HeaderView>, Seq<u8>)
    decreases rest.len(),
{
    let n = chunk_len(rest, 0x0a);
    match parse_header(rest.take(n)) {
        None => (Seq::empty(), rest.skip(n)),
        Some(header) => {
            proof {
                lemma_header_advances(rest);
            }
            let (headers, after) = parse_headers(rest.skip(n));
            (seq![header] + headers, after)
        },
    }
}

/// A line that holds a header is not empty.
pub proof fn lemma_header_advances(rest: Seq<u8>)
    ensures
        parse_header(rest.take(chunk_len(rest, 0x0a))) is Some ==> rest.skip(
            chunk_len(rest, 0x0a),
        ).len() < rest.len(),
{
    lemma_chunk_len(rest, 0x0a);
    let line = rest.take(chunk_len(rest, 0x0a));
    if line.len() == 0 {
        assert(decode_utf8(line) =~= Seq::<char>::empty());
    }
}

/// The values of the headers named `key`, in the order of the block.
pub open spec fn header_values(headers: Seq<HeaderView>, key: Seq<char>) -> Seq<Seq<char>>
    decreases headers.len(),
{
    if headers.len() == 0 {
        Seq::empty()
    } else if headers.last().0 == key {
        header_values(headers.drop_last(), key).push(headers.last().1)
    } else {
        header_values(headers.drop_last(), key)
    }
}

/// The zone offset in seconds that `s` starts with: `Z`, or a sign, two
/// digits of hours, an optional colon and two digits of minutes.
pub open spec fn zone_offset(s: Seq<char>) -> Option<int> {
    if s.len() >= 1 && s[0] == 'Z' {
        Some(0)
    } else if s.len() >= 3 && (s[0] == '+' || s[0] == '-') && is_digit(s[1], 10) && is_digit(
        s[2],
        10,
    ) {
        let sign: int = if s[0] == '+' {
            1
        } else {
            -1
        };
        let hours = digit_value(s[1]) * 10 + digit_value(s[2]);
        let m = if s.len() > 3 && s[3] == ':' {
            s.skip(4)
        } else {
            s.skip(3)
        };
        if m.len() >= 2 && is_digit(m[0], 10) && is_digit(m[1], 10) {
            Some(sign * (hours * 3600 + (digit_value(m[0]) * 10 + digit_value(m[1])) * 60))
        } else {
            None
        }
    } else {
        None
    }
}

/// The seconds since the epoch that `text` gives: decimal digits that fit 64
/// bits, one space, and a zone offset.
pub open spec fn parse_timestamp(text: Seq<char>) -> Option<u64> {
    let k = first_index(text, ' ');
    if k >= text.len() {
        None
    } else {
        match parse_number(text.take(k), 10, u64::MAX as int) {
            None => None,
            Some(seconds) => if zone_offset(text.skip(k + 1)) is Some {
                Some(seconds as u64)
            } else {
                None
            },
        }
    }
}

/// The time that a `name <email> seconds zone` value gives: the timestamp
/// after the first `>` that follows the first `<`.
pub open spec fn parse_author(value: Seq<char>) -> Option<u64> {
    let i = first_index(value, '<');
    if i >= value.len() {
        None
    } else {
        let rest = value.skip(i + 1);
        let j = first_index(rest, '>');
        if j >= rest.len() {
            None
        } else {
            parse_timestamp(trimmed(rest.skip(j + 1)))
        }
    }
}

/// The text that `bytes` hold, or the empty text where they are not UTF-8.
pub open spec fn lossy_text(bytes: Seq<u8>) -> Seq<char> {
    if valid_utf8(bytes) {
        decode_utf8(bytes)
    } else {
        Seq::empty()
    }
}

/// The commit that `body` decodes to.
pub open spec fn parse_commit(body: Seq<u8>) -> CommitView {
    let (headers, after) = parse_headers(body);
    let trees = header_values(headers, "tree"@);
    let committers = header_values(headers, "committer"@);
    CommitView {
        tree: if trees.len() > 0 {
            trees[0]
        } else {
            Seq::empty()
        },
        parents: header_values(headers, "parent"@),
        time: if committers.len() > 0 {
            parse_author(committers[0])
        } else {
            None
        },
        message: lossy_text(after),
    }
}

/// Parses a zone offset at the start of `s`.
///
/// Trusted: wraps `time::strptime` with the format `%z`, which accepts `Z`, or
/// a sign, two digits, an optional colon and two digits, ignores what follows,
/// and stores the offset in seconds in `tm_utcoff`.
#[verifier::external_body]
fn strptime_zone(s: &str) -> (r: Option<i32>)
    ensures
        match r {
            Some(offset) => zone_offset(s@) == Some(offset as int),
            None => zone_offset(s@) is None,
        },
{
    match time::strptime(s, "%z") {
        Ok(tm) => Some(tm.tm_utcoff),
        Err(_) => None,
    }
}

/// The committer of a commit, of whom only the time is kept.
pub struct Author {
    time: u64,
}

impl Author {
    /// Seconds since the epoch.
    pub closed spec fn spec_time(&self) -> u64 {
        self.time
    }

    /// Seconds since the epoch.
    pub fn time(&self) -> (t: u64)
        ensures
            t == self.spec_time(),
    {
        self.time
    }

    /// Reads the seconds and the zone of a timestamp.
    pub fn timestamp(text: &str) -> (r: Option<u64>)
        ensures
            r == parse_timestamp(text@),
    {
        let n = text.unicode_len();
        let k = find_char(text, ' ');
        if k >= n {
            return None;
        }
        let digits = text.substring_char(0, k);
        let zone = text.substring_char(k + 1, n);
        assert(digits@ =~= text@.take(k as int));
        assert(zone@ =~= text@.skip(k + 1));
        match parse_digits(digits, 10, 0xffff_ffff_ffff_ffff) {
            None => None,
            Some(seconds) => match strptime_zone(zone) {
                None => None,
                Some(_) => Some(seconds),
            },
        }
    }

    /// Reads a `name <email> seconds zone` value.
    pub fn from_str(string: &str) -> (r: Option<Author>)
        ensures
            match r {
                Some(author) => parse_author(string@) == Some(author.spec_time()),
                None => parse_author(string@) is None,
            },
    {
        let n = string.unicode_len();
        let i = find_char(string, '<');
        if i >= n {
            return None;
        }
        let rest = string.substring_char(i + 1, n);
        assert(rest@ =~= string@.skip(i + 1));
        let m = rest.unicode_len();
        let j = find_char(rest, '>');
        if j >= m {
            return None;
        }
        let tail = rest.substring_char(j + 1, m);
        assert(tail@ =~= rest@.skip(j + 1));
        let text = trim(tail);
        match Author::timestamp(text.as_str()) {
            None => None,
            Some(time) => Some(Author { time }),
        }
    }
}

/// The identifiers of a vector, as mathematical values.
pub open spec fn ids_view(ids: Seq<Id>) -> Seq<Seq<char>> {
    Seq::new(ids.len(), |i: int| ids[i]@)
}

/// The texts of a vector of strings, as mathematical values.
pub open spec fn texts_view(texts: Seq<String>) -> Seq<Seq<char>> {
    Seq::new(texts.len(), |i: int| texts[i]@)
}

/// The headers of a vector of string pairs, as mathematical values.
pub open spec fn headers_view(headers: Seq<(String, String)>) -> Seq<HeaderView> {
    Seq::new(headers.len(), |i: int| (headers[i].0@, headers[i].1@))
}

/// Reads one header line. `None` marks the end of the header block.
pub fn read_header(reader: &mut Reader) -> (r: Option<(String, String)>)
    ensures
        match r {
            Some((key, value)) => parse_header(
                old(reader).remaining().take(chunk_len(old(reader).remaining(), 0x0a)),
            ) == Some((key@, value@)),
            None => parse_header(
                old(reader).remaining().take(chunk_len(old(reader).remaining(), 0x0a)),
            ) is None,
        },
        final(reader).remaining() == old(reader).remaining().skip(
            chunk_len(old(reader).remaining(), 0x0a),
        ),
{
    let line = reader.read_until(0x0a);
    let text = match text_from_utf8(line) {
        None => {
            return None;
        },
        Some(text) => text,
    };
    if trim(text.as_str()).as_str().unicode_len() == 0 {
        return None;
    }
    let n = text.as_str().unicode_len();
    let i = find_char(text.as_str(), ' ');
    if i >= n {
        return None;
    }
    let key = text.as_str().substring_char(0, i);
    let value = text.as_str().substring_char(i + 1, n);
    assert(key@ =~= text@.take(i as int));
    assert(value@ =~= text@.skip(i + 1));
    Some((trim(key), trim(value)))
}

/// The header block of a commit: keys may repeat, and the values of a key keep
/// their order.
pub struct Headers(Vec<(String, String)>);

impl View for Headers {
    type V = Seq<HeaderView>;

    closed spec fn view(&self) -> Seq<HeaderView> {
        headers_view(self.0@)
    }
}

impl Headers {
    /// The values of the headers named `key`, in order.
    pub fn get_all(&self, key: &str) -> (r: Vec<String>)
        ensures
            texts_view(r@) == header_values(self@, key@),
    {
        let mut values: Vec<String> = Vec::new();
        let wanted = key.to_owned();
        let n = self.0.len();
        let mut i: usize = 0;
        assert(self@.take(0) =~= Seq::<HeaderView>::empty());
        assert(texts_view(values@) =~= Seq::<Seq<char>>::empty());
        while i < n
            invariant
                i <= n,
                n == self.0@.len(),
                texts_view(values@) == header_values(self@.take(i as int), key@),
                wanted@ == key@,
            decreases n - i,
        {
            proof {
                let t = self@.take(i + 1);
                assert(t.drop_last() =~= self@.take(i as int));
                assert(t.last() == self@[i as int]);
            }
            if self.0[i].0 == wanted {
                let ghost before = texts_view(values@);
                values.push(self.0[i].1.clone());
                assert(texts_view(values@) =~= before.push(self@[i as int].1));
            }
            i += 1;
        }
        assert(self@.take(n as int) =~= self@);
        values
    }

    /// The first value of the headers named `key`.
    pub fn get_one(&self, key: &str) -> (r: Option<String>)
        ensures
            match r {
                Some(value) => header_values(self@, key@).len() > 0 && value@ == header_values(
                    self@,
                    key@,
                )[0],
                None => header_values(self@, key@).len() == 0,
            },
    {
        let mut values = self.get_all(key);
        if values.len() == 0 {
            None
        } else {
            assert(texts_view(values@)[0] == values@[0]@);
            Some(values.swap_remove(0))
        }
    }

    /// Reads header lines until the line that ends the block.
    pub fn from(reader: &mut Reader) -> (r: Headers)
        ensures
            r@ == parse_headers(old(reader).remaining()).0,
            final(reader).remaining() == parse_headers(old(reader).remaining()).1,
    {
        let mut headers: Vec<(String, String)> = Vec::new();
        let ghost body = reader.remaining();
        assert(headers_view(headers@) =~= Seq::<HeaderView>::empty());
        assert(Seq::<HeaderView>::empty() + parse_headers(body).0 =~= parse_headers(body).0);
        loop
            invariant
                body == old(reader).remaining(),
                parse_headers(body).0 == headers_view(headers@) + parse_headers(
                    reader.remaining(),
                ).0,
                parse_headers(body).1 == parse_headers(reader.remaining()).1,
            decreases reader.remaining().len(),
        {
            let ghost rest = reader.remaining();
            proof {
                lemma_header_advances(rest);
            }
            match read_header(reader) {
                None => {
                    assert(headers_view(headers@) + Seq::<HeaderView>::empty() =~= headers_view(
                        headers@,
                    ));
                    return Headers(headers);
                },
                Some((key, value)) => {
                    let ghost before = headers_view(headers@);
                    let ghost header = (key@, value@);
                    headers.push((key, value));
                    proof {
                        assert(headers_view(headers@) =~= before.push(header));
                        let tail = parse_headers(reader.remaining()).0;
                        assert(before.push(header) + tail =~= before + (seq![header] + tail));
                    }
                },
            }
        }
    }
}

/// A commit: a tree, the parents, the time of the committer, and a message.
pub struct Commit {
    pub tree: Id,
    parents: Vec<Id>,
    committer: Option<Author>,
    message: String,
}

impl View for Commit {
    type V = CommitView;

    closed spec fn view(&self) -> CommitView {
        CommitView {
            tree: self.tree@,
            parents: ids_view(self.parents@),
            time: match self.committer {
                Some(author) => Some(author.spec_time()),
                None => None,
            },
            message: self.message@,
        }
    }
}

impl Default for Commit {
    fn default() -> (r: Self)
        ensures
            r@ == (CommitView {
                tree: Seq::empty(),
                parents: Seq::empty(),
                time: None,
                message: Seq::empty(),
            }),
    {
        let r = Commit {
            tree: Id::default(),
            parents: Vec::new(),
            committer: None,
            message: String::new(),
        };
        assert(ids_view(r.parents@) =~= Seq::<Seq<char>>::empty());
        r
    }
}

impl Commit {
    /// The identifier of the root tree.
    pub fn tree(&self) -> (id: &Id)
        ensures
            id@ == self@.tree,
    {
        &self.tree
    }

    /// The identifiers of the parents, in header order.
    pub fn parents(&self) -> (r: Vec<Id>)
        ensures
            ids_view(r@) == self@.parents,
    {
        let mut ids: Vec<Id> = Vec::new();
        let n = self.parents.len();
        let mut i: usize = 0;
        while i < n
            invariant
                i <= n,
                n == self.parents@.len(),
                ids@.len() == i,
                forall|j: int| 0 <= j < i ==> ids@[j]@ == self.parents@[j]@,
            decreases n - i,
        {
            ids.push(self.parents[i].clone());
            i += 1;
        }
        assert(ids_view(ids@) =~= ids_view(self.parents@));
        ids
    }

    /// The time of the committer in seconds since the epoch, if the commit has one.
    pub fn date(&self) -> (r: Option<u64>)
        ensures
            r == self@.time,
    {
        match &self.committer {
            Some(author) => Some(author.time()),
            None => None,
        }
    }

    /// The message, which is empty where the bytes were not UTF-8.
    pub fn message(&self) -> (s: &str)
        ensures
            s@ == self@.message,
    {
        self.message.as_str()
    }

    /// The entry that stands for the root tree of the commit.
    pub fn tree_item(&self) -> (r: TreeItem)
        ensures
            r@ == (ItemView { id: self@.tree, mode: TREE_MODE }),
    {
        TreeItem::tree(&self.tree)
    }

    /// Decodes the body of a commit object: a header block, then the message.
    pub fn decode(body: Reader) -> (r: Commit)
        ensures
            r@ == parse_commit(body.remaining()),
    {
        let mut reader = body;
        let headers = Headers::from(&mut reader);
        let tree = match headers.get_one("tree") {
            Some(text) => Id::from(text.as_str()),
            None => Id::default(),
        };
        let committer = match headers.get_one("committer") {
            Some(text) => Author::from_str(text.as_str()),
            None => None,
        };
        let values = headers.get_all("parent");
        let mut parents: Vec<Id> = Vec::new();
        let n = values.len();
        let mut i: usize = 0;
        while i < n
            invariant
                i <= n,
                n == values@.len(),
                parents@.len() == i,
                forall|j: int| 0 <= j < i ==> parents@[j]@ == values@[j]@,
            decreases n - i,
        {
            parents.push(Id::from(values[i].as_str()));
            i += 1;
        }
        assert(ids_view(parents@) =~= texts_view(values@));
        let message = match text_from_utf8(reader.read_to_end()) {
            Some(text) => text,
            None => String::new(),
        };
        Commit { tree, parents, committer, message }
    }
}

} // verus!
