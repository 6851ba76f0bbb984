//! A forward-only cursor over a decoded byte stream, and the record reader
//! that the object decoders build on.
use crate::text::first_index;
use crate::text::find_byte;
use crate::text::lemma_first_index_bounds;
use crate::text::text_from_utf8;
use crate::text::trim;
use crate::text::trimmed;
use vstd::prelude::*;
use vstd::slice::slice_subrange;
use vstd::slice::slice_to_vec;
use vstd::utf8::decode_utf8;
use vstd::utf8::valid_utf8;

verus! {

/// Why a record could not be decoded.
#[derive(Debug, Clone, Copy, PartialEq, Eq)]
pub enum DecodeError {
    /// Text was required and the bytes are not well-formed UTF-8.
    InvalidUtf8,
    /// The stream ended inside a fixed-length field.
    UnexpectedEof,
    /// A tree entry's mode is not an octal number that fits 32 bits.
    InvalidMode,
}

/// Length of the chunk that ends with the first `sep` of `rest`, or all of
/// `rest` when it holds no `sep`.
pub open spec fn chunk_len(rest: Seq<u8>, sep: u8) -> int {
    let i = first_index(rest, sep);
    if i < rest.len() {
        i + 1
    } else {
        rest.len() as int
    }
}

/// What `read_to_string_until` yields on a stream whose unread part is `rest`.
pub open spec fn text_until(rest: Seq<u8>, sep: u8) -> Result<Option<Seq<char>>, DecodeError> {
    let chunk = rest.take(chunk_len(rest, sep));
    if chunk.len() == 0 {
        Ok(None)
    } else if !valid_utf8(chunk) || !valid_utf8(chunk.drop_last()) {
        Err(DecodeError::InvalidUtf8)
    } else {
        Ok(Some(trimmed(decode_utf8(chunk.drop_last()))))
    }
}

/// `chunk_len` stays within the stream and is zero only on an empty one.
pub proof fn lemma_chunk_len(rest: Seq<u8>, sep: u8)
    ensures
        0 <= chunk_len(rest, sep) <= rest.len(),
        rest.len() > 0 ==> chunk_len(rest, sep) > 0,
{
    lemma_first_index_bounds(rest, sep);
}

/// A cursor over bytes that only moves forward.
pub struct Reader {
    data: Vec<u8>,
    pos: usize,
}

impl Reader {
    #[verifier::type_invariant]
    spec fn well_formed(&self) -> bool {
        self.pos <= self.data@.len()
    }

    /// The bytes not yet read.
    pub closed spec fn remaining(&self) -> Seq<u8> {
        self.data@.subrange(self.pos as int, self.data@.len() as int)
    }

    /// A reader positioned at the start of `data`.
    pub fn new(data: Vec<u8>) -> (r: Self)
        ensures
            r.remaining() == data@,
    {
        assert(data@.subrange(0, data@.len() as int) =~= data@);
        Reader { data, pos: 0 }
    }

    /// Whether every byte has been read.
    pub fn is_empty(&self) -> (b: bool)
        ensures
            b == (self.remaining().len() == 0),
    {
        proof {
            use_type_invariant(self);
        }
        self.pos == self.data.len()
    }

    /// Reads through the first `sep`, or to the end when there is none.
    pub fn read_until(&mut self, sep: u8) -> (chunk: Vec<u8>)
        ensures
            chunk@ == old(self).remaining().take(chunk_len(old(self).remaining(), sep)),
            final(self).remaining() == old(self).remaining().skip(
                chunk_len(old(self).remaining(), sep),
            ),
    {
        proof {
            use_type_invariant(&*self);
            lemma_first_index_bounds(self.remaining(), sep);
        }
        let n = self.data.len();
        let start = self.pos;
        let i = find_byte(self.data.as_slice(), start, sep);
        let end = if start + i < n {
            start + i + 1
        } else {
            n
        };
        let chunk = slice_to_vec(slice_subrange(self.data.as_slice(), start, end));
        self.pos = end;
        proof {
            let rest = old(self).remaining();
            assert(chunk@ =~= rest.take(end - start));
            assert(self.remaining() =~= rest.skip(end - start));
        }
        chunk
    }

    /// Reads exactly `n` bytes, or nothing when fewer are left.
    pub fn read_exact(&mut self, n: usize) -> (r: Option<Vec<u8>>)
        ensures
            match r {
                Some(bytes) => n <= old(self).remaining().len() && bytes@ == old(
                    self,
                ).remaining().take(n as int) && final(self).remaining() == old(
                    self,
                ).remaining().skip(n as int),
                None => n > old(self).remaining().len() && final(self).remaining() == old(
                    self,
                ).remaining(),
            },
    {
        proof {
            use_type_invariant(&*self);
        }
        let start = self.pos;
        if self.data.len() - start < n {
            return None;
        }
        let end = start + n;
        let bytes = slice_to_vec(slice_subrange(self.data.as_slice(), start, end));
        self.pos = end;
        proof {
            let rest = old(self).remaining();
            assert(bytes@ =~= rest.take(n as int));
            assert(self.remaining() =~= rest.skip(n as int));
        }
        Some(bytes)
    }

    /// Reads everything that is left.
    pub fn read_to_end(&mut self) -> (bytes: Vec<u8>)
        ensures
            bytes@ == old(self).remaining(),
            final(self).remaining().len() == 0,
    {
        proof {
            use_type_invariant(&*self);
        }
        let n = self.data.len();
        let bytes = slice_to_vec(slice_subrange(self.data.as_slice(), self.pos, n));
        self.pos = n;
        bytes
    }
}

/// Reads through the next `sep` and returns the text before it, trimmed.
///
/// Yields `Ok(None)` at the end of the stream. The chunk read, and the chunk
/// without its last byte, must both be well-formed UTF-8. The last byte of the
/// chunk is dropped even where the stream ended before any `sep`.
pub fn read_to_string_until(bytes: &mut Reader, sep: u8) -> (r: Result<Option<String>, DecodeError>)
    ensures
        match r {
            Ok(Some(s)) => text_until(old(bytes).remaining(), sep) == Ok::<
                Option<Seq<char>>,
                DecodeError,
            >(Some(s@)),
            Ok(None) => text_until(old(bytes).remaining(), sep) == Ok::<
                Option<Seq<char>>,
                DecodeError,
            >(None),
            Err(e) => text_until(old(bytes).remaining(), sep) == Err::<
                Option<Seq<char>>,
                DecodeError,
            >(e),
        },
        final(bytes).remaining() == old(bytes).remaining().skip(
            chunk_len(old(bytes).remaining(), sep),
        ),
{
    let mut chunk = bytes.read_until(sep);
    if chunk.len() == 0 {
        return Ok(None);
    }
    let ghost whole = chunk@;
    let copy = chunk.clone();
    assert(copy@ =~= whole);
    if text_from_utf8(copy).is_none() {
        return Err(DecodeError::InvalidUtf8);
    }
    chunk.pop();
    assert(chunk@ =~= whole.drop_last());
    match text_from_utf8(chunk) {
        None => Err(DecodeError::InvalidUtf8),
        Some(s) => Ok(Some(trim(s.as_str()))),
    }
}

} // verus!
