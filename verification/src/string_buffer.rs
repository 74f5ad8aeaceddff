//! A buffer of bytes of a fixed size that collects the text written to it.
use vstd::prelude::*;
use vstd::utf8::{decode_utf8, encode_utf8};

verus! {

/// The error of a write that does not fit in what is left of the buffer.
#[derive(Clone, Copy, Debug, PartialEq, Eq)]
pub struct BufferFull;

/// Makes a string of the bytes that encode it. This is `String::from_utf8`
/// of the standard library, which is taken on trust here: it gives a string
/// exactly if the bytes are the UTF-8 encoding of a text, and the string
/// then holds that text.
#[verifier::external_body]
fn string_from_utf8(bytes: Vec<u8>) -> (r: Option<String>)
    ensures
        r matches Some(s) ==> encode_utf8(s@) == bytes@,
        r.is_none() ==> forall|text: Seq<char>| #[trigger] encode_utf8(text) != bytes@,
{
    String::from_utf8(bytes).ok()
}

/// A way to write strings for debugging into a buffer of a fixed size.
pub struct StringBuffer {
    buffer: Vec<u8>,
    index: usize,
}

impl View for StringBuffer {
    type V = Seq<char>;

    /// The text written so far.
    closed spec fn view(&self) -> Seq<char> {
        decode_utf8(self.buffer@.take(self.index as int))
    }
}

impl StringBuffer {
    /// The number of bytes that the buffer holds at most.
    pub closed spec fn capacity(&self) -> int {
        self.buffer@.len() as int
    }

    /// The number of bytes written so far.
    pub closed spec fn used(&self) -> int {
        self.index as int
    }

    /// What is written fits in the buffer and is the encoding of a text.
    pub closed spec fn wf(&self) -> bool {
        self.index <= self.buffer@.len() && self.buffer@.take(self.index as int) == encode_utf8(
            self@,
        )
    }

    /// An empty text in the buffer `buffer`.
    pub fn new(buffer: Vec<u8>) -> (r: StringBuffer)
        ensures
            r.wf(),
            r@ == Seq::<char>::empty(),
            r.capacity() == buffer@.len(),
            r.used() == 0,
    {
        let r = StringBuffer { buffer, index: 0 };
        proof {
            assert(r.buffer@.take(0) =~= Seq::<u8>::empty());
            vstd::utf8::encode_utf8_decode_utf8(Seq::<char>::empty());
            assert(encode_utf8(Seq::<char>::empty()) =~= Seq::<u8>::empty());
        }
        r
    }

    /// Append `s` to the text, if its bytes fit in what is left of the
    /// buffer; if they do not, nothing is written.
    pub fn write_str(&mut self, s: &str) -> (r: Result<(), BufferFull>)
        requires
            old(self).wf(),
        ensures
            final(self).wf(),
            final(self).capacity() == old(self).capacity(),
            old(self).used() + encode_utf8(s@).len() <= old(self).capacity() ==> r.is_ok()
                && final(self)@ == old(self)@ + s@ && final(self).used() == old(self).used()
                + encode_utf8(s@).len(),
            old(self).used() + encode_utf8(s@).len() > old(self).capacity() ==> r.is_err()
                && final(self)@ == old(self)@ && final(self).used() == old(self).used(),
    {
        let bytes = s.as_bytes();
        let len: usize = bytes.len();
        let size: usize = self.buffer.len();
        if len > size - self.index {
            return Err(BufferFull);
        }
        let ghost written = self.buffer@.take(self.index as int);
        let mut i: usize = 0;
        while i < len
            invariant
                i <= len,
                len == bytes@.len(),
                self.index + len <= size,
                self.buffer@.len() == size,
                self.index == old(self).index,
                written.len() == self.index,
                forall|j: int| 0 <= j < self.index ==> self.buffer@[j] == written[j],
                forall|j: int| 0 <= j < i ==> self.buffer@[self.index + j] == bytes@[j],
            decreases len - i,
        {
            self.buffer.set(self.index + i, bytes[i]);
            i += 1;
        }
        proof {
            assert(self.buffer@.take(self.index + len) =~= written + bytes@);
            let text = old(self)@ + s@;
            lemma_encode_concat(old(self)@, s@);
            vstd::utf8::encode_utf8_decode_utf8(text);
        }
        self.index = self.index + len;
        Ok(())
    }

    /// The text written so far.
    pub fn to_str(self) -> (r: String)
        requires
            self.wf(),
        ensures
            r@ == self@,
    {
        let mut bytes = self.buffer;
        bytes.truncate(self.index);
        match string_from_utf8(bytes) {
            Some(s) => {
                proof {
                    vstd::utf8::encode_utf8_decode_utf8(s@);
                    vstd::utf8::encode_utf8_decode_utf8(self@);
                }
                s
            },
            None => {
                // what is written is the encoding of a text
                assert(encode_utf8(self@) == bytes@);
                String::new()
            },
        }
    }
}

/// The encoding of two texts one after the other is the encoding of the
/// first followed by the encoding of the second.
pub proof fn lemma_encode_concat(a: Seq<char>, b: Seq<char>)
    ensures
        encode_utf8(a + b) == encode_utf8(a) + encode_utf8(b),
    decreases a.len(),
{
    if a.len() == 0 {
        assert(a + b =~= b);
        assert(encode_utf8(a) =~= Seq::<u8>::empty());
        assert(encode_utf8(a) + encode_utf8(b) =~= encode_utf8(b));
    } else {
        assert((a + b).drop_first() =~= a.drop_first() + b);
        assert((a + b)[0] == a[0]);
        lemma_encode_concat(a.drop_first(), b);
        assert(encode_utf8(a + b) =~= encode_utf8(a) + encode_utf8(b));
    }
}

} // verus!
