//! A UTF-8 string over a [`MyVec`] of bytes, taking its storage from a [`Manager`].
use vstd::prelude::*;
use vstd::utf8::*;
use vstd::string::StringSliceAdditionalSpecFns;
use crate::heap::HeapModel;
use crate::manager::{AllocError, Manager};
use crate::my_vec::{MyVec, grew_then, keeps_others, released, storage_bytes};
use vstd::layout::align_of;

verus! {

broadcast use {encode_utf8_valid_utf8, encode_utf8_decode_utf8, char_is_scalar, char_u32_cast};

/// Relies on `char::from_u32`: the `char` of a Unicode scalar value, `None`
/// for surrogates and values above the last scalar.
#[verifier::external_body]
fn char_from_u32(v: u32) -> (r: Option<char>)
    ensures
        is_scalar(v) ==> r == Some(v as char),
        !is_scalar(v) ==> r is None,
{
    char::from_u32(v)
}

/// Two valid encodings joined are valid and decode to the two texts joined.
proof fn lemma_decode_concat(b1: Seq<u8>, b2: Seq<u8>)
    requires
        valid_utf8(b1),
        valid_utf8(b2),
    ensures
        valid_utf8(b1 + b2),
        decode_utf8(b1 + b2) == decode_utf8(b1) + decode_utf8(b2),
{
    valid_utf8_concat(b1, b2);
    let b = b1 + b2;
    if b2.len() == 0 {
        assert(b =~= b1);
        assert(decode_utf8(b1) + decode_utf8(b2) =~= decode_utf8(b1));
    } else {
        assert(valid_first_scalar(b2));
        assert(b[b1.len() as int] == b2[0]);
        is_char_boundary_iff_not_is_continuation_byte(b, b1.len() as int);
        decode_utf8_split(b, b1.len() as int);
        assert(b.subrange(0, b1.len() as int) =~= b1);
        assert(b.subrange(b1.len() as int, b.len() as int) =~= b2);
    }
}

/// Splitting a valid encoding at a character boundary gives two valid
/// encodings whose texts join to the whole text.
proof fn lemma_split(b: Seq<u8>, i: int)
    requires
        valid_utf8(b),
        is_char_boundary(b, i),
    ensures
        0 <= i <= b.len(),
        valid_utf8(b.subrange(0, i)),
        valid_utf8(b.subrange(i, b.len() as int)),
        decode_utf8(b) == decode_utf8(b.subrange(0, i)) + decode_utf8(b.subrange(i, b.len() as int)),
{
    valid_utf8_split(b, i);
    decode_utf8_split(b, i);
}

/// The UTF-8 bytes of `c`.
fn encode_char(c: char) -> (r: Vec<u8>)
    ensures
        r@ == encode_scalar(c as u32),
        r@ == encode_utf8(seq![c]),
{
    proof {
        assert(seq![c].drop_first() =~= Seq::<char>::empty());
        assert(encode_scalar(c as u32) + encode_utf8(Seq::<char>::empty()) =~= encode_scalar(c as u32));
    }
    let v = c as u32;
    let mut r: Vec<u8> = Vec::new();
    if v <= 0x7F {
        r.push((v & 0x7F) as u8);
    } else if v <= 0x7FF {
        r.push(0xC0 | ((v >> 6) & 0x1F) as u8);
        r.push(0x80 | (v & 0x3F) as u8);
    } else if v <= 0xFFFF {
        r.push(0xE0 | ((v >> 12) & 0x0F) as u8);
        r.push(0x80 | ((v >> 6) & 0x3F) as u8);
        r.push(0x80 | (v & 0x3F) as u8);
    } else {
        r.push(0xF0 | ((v >> 18) & 0x7) as u8);
        r.push(0x80 | ((v >> 12) & 0x3F) as u8);
        r.push(0x80 | ((v >> 6) & 0x3F) as u8);
        r.push(0x80 | (v & 0x3F) as u8);
    }
    proof {
        assert(r@ =~= encode_scalar(v));
    }
    r
}

/// Decode the character that starts at byte `i`, a character boundary before
/// the end: the character and the number of bytes it takes.
fn decode_at(bytes: &[u8], i: usize) -> (r: (char, usize))
    requires
        valid_utf8(bytes@),
        is_char_boundary(bytes@, i as int),
        i < bytes@.len(),
    ensures
        ({
            let rest = bytes@.subrange(i as int, bytes@.len() as int);
            &&& r.0 == decode_utf8(rest)[0]
            &&& r.1 == length_of_first_scalar(rest)
            &&& valid_first_scalar(rest)
            &&& decode_utf8(rest) == seq![r.0] + decode_utf8(pop_first_scalar(rest))
            &&& valid_utf8(pop_first_scalar(rest))
            &&& i + r.1 <= bytes@.len()
        }),
{
    let ghost rest = bytes@.subrange(i as int, bytes@.len() as int);
    proof {
        lemma_split(bytes@, i as int);
        assert(valid_first_scalar(rest));
    }
    let b0 = bytes[i];
    let (v, w): (u32, usize) = if b0 <= 0x7F {
        let v = (b0 & 0x7F) as u32;
        assert(v <= 0x7F) by (bit_vector)
            requires
                v == (b0 & 0x7F) as u32,
        ;
        (v, 1)
    } else if b0 <= 0xDF {
        let b1 = bytes[i + 1];
        let v = (((b0 & 0x1F) as u32) << 6) | ((b1 & 0x3F) as u32);
        assert(v <= 0x7FF) by (bit_vector)
            requires
                v == (((b0 & 0x1F) as u32) << 6) | ((b1 & 0x3F) as u32),
        ;
        (v, 2)
    } else if b0 <= 0xEF {
        let b1 = bytes[i + 1];
        let b2 = bytes[i + 2];
        let v = (((b0 & 0x0F) as u32) << 12) | (((b1 & 0x3F) as u32) << 6) | ((b2 & 0x3F) as u32);
        assert(v <= 0xFFFF) by (bit_vector)
            requires
                v == (((b0 & 0x0F) as u32) << 12) | (((b1 & 0x3F) as u32) << 6) | ((b2 & 0x3F) as u32),
        ;
        (v, 3)
    } else {
        let b1 = bytes[i + 1];
        let b2 = bytes[i + 2];
        let b3 = bytes[i + 3];
        let v = (((b0 & 0x07) as u32) << 18) | (((b1 & 0x3F) as u32) << 12) | (((b2 & 0x3F) as u32) << 6)
            | ((b3 & 0x3F) as u32);
        (v, 4)
    };
    assert(v == decode_first_scalar(rest));
    assert(is_scalar(v));
    let c = match char_from_u32(v) {
        Some(c) => c,
        None => {
            proof {
                assert(false);
            }
            ' '
        },
    };
    proof {
        assert(decode_utf8(rest) == seq![decode_first_scalar(rest) as char] + decode_utf8(pop_first_scalar(rest)));
    }
    (c, w)
}

/// A growable UTF-8 string whose bytes live in a [`MyVec`].
pub struct MyString {
    vec: MyVec<u8>,
}

impl View for MyString {
    type V = Seq<char>;

    /// The characters the bytes encode.
    closed spec fn view(&self) -> Seq<char> {
        decode_utf8(self.vec@)
    }
}

impl MyString {
    /// The UTF-8 bytes.
    pub closed spec fn bytes(&self) -> Seq<u8> {
        self.vec@
    }

    /// The byte container underneath.
    pub closed spec fn storage(&self) -> MyVec<u8> {
        self.vec
    }

    /// The bytes are valid UTF-8 and the container is well formed.
    pub closed spec fn wf(&self) -> bool {
        &&& self.vec.wf()
        &&& valid_utf8(self.vec@)
    }

    /// Well formed, with the container's block live in `m`.
    pub open spec fn backed_by(&self, m: HeapModel) -> bool {
        &&& self.wf()
        &&& self.storage().backed_by(m)
    }

    /// The string's bytes and characters agree.
    pub proof fn lemma_bytes_encode(&self)
        requires
            self.wf(),
        ensures
            self.bytes() == encode_utf8(self@),
            self.storage()@ == self.bytes(),
    {
        decode_utf8_encode_utf8(self.vec@);
    }

    /// An empty string without a block.
    pub fn new() -> (r: MyString)
        ensures
            r.wf(),
            r@ == Seq::<char>::empty(),
            r.bytes() == Seq::<u8>::empty(),
            r.storage().spec_block() is None,
    {
        let r = MyString { vec: MyVec::new() };
        proof {
            assert(decode_utf8(r.vec@) =~= Seq::<char>::empty());
        }
        r
    }

    /// An empty string with room for `capacity` bytes.
    pub fn with_capacity(capacity: usize, m: &mut Manager) -> (r: Result<MyString, AllocError>)
        requires
            old(m).wf(),
        ensures
            final(m).wf(),
            keeps_others(old(m)@, final(m)@, None),
            capacity == 0 ==> (r matches Ok(s) && s.storage().spec_block() is None && final(m)@ == old(m)@),
            capacity > 0 ==> match old(m)@.allocate(storage_bytes::<u8>(capacity as nat), align_of::<u8>()) {
                Some((m2, p)) => storage_bytes::<u8>(capacity as nat) <= usize::MAX ==> (r matches Ok(s)
                    && s.storage().spec_block() == Some(p) && final(m)@ == m2),
                None => r == Err::<MyString, AllocError>(AllocError::OutOfMemory) && final(m)@ == old(m)@,
            },
            storage_bytes::<u8>(capacity as nat) > usize::MAX ==> r == Err::<MyString, AllocError>(
                AllocError::OutOfMemory,
            ) && final(m)@ == old(m)@,
            r matches Ok(s) ==> s.backed_by(final(m)@) && s@ == Seq::<char>::empty() && s.bytes()
                == Seq::<u8>::empty() && s.storage().spec_capacity() == capacity,
    {
        match MyVec::with_capacity(capacity, m) {
            Ok(vec) => {
                let r = MyString { vec };
                proof {
                    assert(decode_utf8(r.vec@) =~= Seq::<char>::empty());
                }
                Ok(r)
            },
            Err(e) => Err(e),
        }
    }

    /// A string holding a copy of `s`, with exactly its byte length as capacity.
    pub fn from_str(s: &str, m: &mut Manager) -> (r: Result<MyString, AllocError>)
        requires
            old(m).wf(),
        ensures
            final(m).wf(),
            keeps_others(old(m)@, final(m)@, None),
            r matches Ok(t) ==> t.backed_by(final(m)@) && t@ == s@ && t.bytes() == s.spec_bytes()
                && t.storage().spec_capacity() == s.spec_bytes().len(),
            s.spec_bytes().len() == 0 ==> r is Ok && final(m)@ == old(m)@,
            s.spec_bytes().len() > 0 ==> match old(m)@.allocate(
                storage_bytes::<u8>(s.spec_bytes().len()),
                align_of::<u8>(),
            ) {
                Some((m2, p)) => storage_bytes::<u8>(s.spec_bytes().len()) <= usize::MAX ==> (r matches Ok(
                    t,
                ) && t.storage().spec_block() == Some(p) && final(m)@ == m2),
                None => r == Err::<MyString, AllocError>(AllocError::OutOfMemory) && final(m)@ == old(m)@,
            },
            storage_bytes::<u8>(s.spec_bytes().len()) > usize::MAX ==> r == Err::<MyString, AllocError>(
                AllocError::OutOfMemory,
            ) && final(m)@ == old(m)@,
    {
        match MyVec::from_slice(s.as_bytes(), m) {
            Ok(vec) => Ok(MyString { vec }),
            Err(e) => Err(e),
        }
    }

    /// Length in bytes.
    pub fn len(&self) -> (r: usize)
        ensures
            r == self.bytes().len(),
    {
        self.vec.len()
    }

    /// Whether there are no characters.
    pub fn is_empty(&self) -> (r: bool)
        requires
            self.wf(),
        ensures
            r == (self@.len() == 0),
            r == (self.bytes().len() == 0),
    {
        proof {
            self.lemma_bytes_encode();
            if self@.len() > 0 {
                assert(self.bytes().len() > 0);
            }
        }
        self.vec.is_empty()
    }

    /// The UTF-8 bytes.
    pub fn as_bytes(&self) -> (r: &[u8])
        ensures
            r@ == self.bytes(),
    {
        self.vec.as_slice()
    }

    /// Append the bytes `tail`, which are valid UTF-8.
    fn push_bytes(&mut self, tail: &[u8], m: &mut Manager) -> (r: Result<(), AllocError>)
        requires
            old(m).wf(),
            old(self).backed_by(old(m)@),
            valid_utf8(tail@),
        ensures
            final(m).wf(),
            final(self).backed_by(final(m)@),
            keeps_others(old(m)@, final(m)@, old(self).storage().spec_block()),
            grew_then(
                old(self).storage(),
                final(self).storage(),
                old(m)@,
                final(m)@,
                old(self).bytes().len() + tail@.len(),
                Some(old(self).bytes().len() + tail@.len()),
                r,
                old(self).bytes() + tail@,
            ),
            r is Ok ==> final(self)@ == old(self)@ + decode_utf8(tail@),
            r is Err ==> final(self)@ == old(self)@,
    {
        let r = self.vec.extend_from_slice(tail, m);
        proof {
            lemma_decode_concat(old(self).vec@, tail@);
        }
        r
    }

    /// Append the character `c`.
    pub fn push(&mut self, c: char, m: &mut Manager) -> (r: Result<(), AllocError>)
        requires
            old(m).wf(),
            old(self).backed_by(old(m)@),
        ensures
            final(m).wf(),
            final(self).backed_by(final(m)@),
            keeps_others(old(m)@, final(m)@, old(self).storage().spec_block()),
            grew_then(
                old(self).storage(),
                final(self).storage(),
                old(m)@,
                final(m)@,
                old(self).bytes().len() + encode_scalar(c as u32).len(),
                Some(old(self).bytes().len() + encode_scalar(c as u32).len()),
                r,
                old(self).bytes() + encode_scalar(c as u32),
            ),
            r is Ok ==> final(self)@ == old(self)@.push(c),
            r is Err ==> final(self)@ == old(self)@,
    {
        let enc = encode_char(c);
        let r = self.push_bytes(enc.as_slice(), m);
        proof {
            assert(old(self)@ + seq![c] =~= old(self)@.push(c));
        }
        r
    }

    /// Append the text `s`.
    pub fn push_str(&mut self, s: &str, m: &mut Manager) -> (r: Result<(), AllocError>)
        requires
            old(m).wf(),
            old(self).backed_by(old(m)@),
        ensures
            final(m).wf(),
            final(self).backed_by(final(m)@),
            keeps_others(old(m)@, final(m)@, old(self).storage().spec_block()),
            grew_then(
                old(self).storage(),
                final(self).storage(),
                old(m)@,
                final(m)@,
                old(self).bytes().len() + s.spec_bytes().len(),
                Some(old(self).bytes().len() + s.spec_bytes().len()),
                r,
                old(self).bytes() + s.spec_bytes(),
            ),
            r is Ok ==> final(self)@ == old(self)@ + s@,
            r is Err ==> final(self)@ == old(self)@,
    {
        self.push_bytes(s.as_bytes(), m)
    }

    /// Put the valid UTF-8 bytes `mid` at byte `index`, a character boundary.
    fn insert_bytes(&mut self, index: usize, mid: &[u8], m: &mut Manager) -> (r: Result<(), AllocError>)
        requires
            old(m).wf(),
            old(self).backed_by(old(m)@),
            valid_utf8(mid@),
            is_char_boundary(old(self).bytes(), index as int),
        ensures
            final(m).wf(),
            final(self).backed_by(final(m)@),
            keeps_others(old(m)@, final(m)@, old(self).storage().spec_block()),
            grew_then(
                old(self).storage(),
                final(self).storage(),
                old(m)@,
                final(m)@,
                old(self).bytes().len() + mid@.len(),
                Some(old(self).bytes().len() + mid@.len()),
                r,
                old(self).bytes().subrange(0, index as int) + mid@ + old(self).bytes().subrange(
                    index as int,
                    old(self).bytes().len() as int,
                ),
            ),
            r is Ok ==> final(self)@ == decode_utf8(old(self).bytes().subrange(0, index as int))
                + decode_utf8(mid@) + decode_utf8(
                old(self).bytes().subrange(index as int, old(self).bytes().len() as int),
            ),
            r is Err ==> final(self)@ == old(self)@,
    {
        let ghost b = self.vec@;
        proof {
            lemma_split(b, index as int);
        }
        let r = self.vec.insert_slice(index, mid, m);
        proof {
            let pre = b.subrange(0, index as int);
            let post = b.subrange(index as int, b.len() as int);
            lemma_decode_concat(pre, mid@);
            lemma_decode_concat(pre + mid@, post);
        }
        r
    }

    /// Put the character `c` at byte `index`, which must be a character boundary.
    pub fn insert(&mut self, index: usize, c: char, m: &mut Manager) -> (r: Result<(), AllocError>)
        requires
            old(m).wf(),
            old(self).backed_by(old(m)@),
            is_char_boundary(old(self).bytes(), index as int),
        ensures
            final(m).wf(),
            final(self).backed_by(final(m)@),
            keeps_others(old(m)@, final(m)@, old(self).storage().spec_block()),
            grew_then(
                old(self).storage(),
                final(self).storage(),
                old(m)@,
                final(m)@,
                old(self).bytes().len() + encode_scalar(c as u32).len(),
                Some(old(self).bytes().len() + encode_scalar(c as u32).len()),
                r,
                old(self).bytes().subrange(0, index as int) + encode_scalar(c as u32) + old(
                    self,
                ).bytes().subrange(index as int, old(self).bytes().len() as int),
            ),
            r is Ok ==> final(self)@ == decode_utf8(old(self).bytes().subrange(0, index as int))
                + seq![c] + decode_utf8(
                old(self).bytes().subrange(index as int, old(self).bytes().len() as int),
            ),
            r is Err ==> final(self)@ == old(self)@,
    {
        let enc = encode_char(c);
        self.insert_bytes(index, enc.as_slice(), m)
    }

    /// Put the text `s` at byte `index`, which must be a character boundary.
    pub fn insert_str(&mut self, index: usize, s: &str, m: &mut Manager) -> (r: Result<(), AllocError>)
        requires
            old(m).wf(),
            old(self).backed_by(old(m)@),
            is_char_boundary(old(self).bytes(), index as int),
        ensures
            final(m).wf(),
            final(self).backed_by(final(m)@),
            keeps_others(old(m)@, final(m)@, old(self).storage().spec_block()),
            grew_then(
                old(self).storage(),
                final(self).storage(),
                old(m)@,
                final(m)@,
                old(self).bytes().len() + s.spec_bytes().len(),
                Some(old(self).bytes().len() + s.spec_bytes().len()),
                r,
                old(self).bytes().subrange(0, index as int) + s.spec_bytes() + old(
                    self,
                ).bytes().subrange(index as int, old(self).bytes().len() as int),
            ),
            r is Ok ==> final(self)@ == decode_utf8(old(self).bytes().subrange(0, index as int))
                + s@ + decode_utf8(
                old(self).bytes().subrange(index as int, old(self).bytes().len() as int),
            ),
            r is Err ==> final(self)@ == old(self)@,
    {
        self.insert_bytes(index, s.as_bytes(), m)
    }

    /// Keep the first `len` bytes, which must end on a character boundary.
    pub fn truncate(&mut self, len: usize)
        requires
            old(self).wf(),
            is_char_boundary(old(self).bytes(), len as int),
        ensures
            final(self).wf(),
            final(self).bytes() == old(self).bytes().subrange(0, len as int),
            final(self)@ == decode_utf8(old(self).bytes().subrange(0, len as int)),
            final(self)@ == old(self)@.subrange(0, final(self)@.len() as int),
            final(self).storage().spec_capacity() == old(self).storage().spec_capacity(),
            final(self).storage().spec_block() == old(self).storage().spec_block(),
    {
        let ghost b = self.vec@;
        proof {
            lemma_split(b, len as int);
        }
        self.vec.truncate(len);
        proof {
            let pre = decode_utf8(b.subrange(0, len as int));
            assert(old(self)@.subrange(0, pre.len() as int) =~= pre);
        }
    }

    /// Remove and return the last character, or `None` when there is none.
    pub fn pop(&mut self) -> (r: Option<char>)
        requires
            old(self).wf(),
        ensures
            final(self).wf(),
            old(self)@.len() == 0 ==> r is None && final(self)@ == old(self)@,
            old(self)@.len() > 0 ==> r == Some(old(self)@.last()) && final(self)@ == old(self)@.drop_last(),
            final(self).storage().spec_capacity() == old(self).storage().spec_capacity(),
            final(self).storage().spec_block() == old(self).storage().spec_block(),
    {
        let ghost b = self.vec@;
        let n = self.vec.len();
        if n == 0 {
            proof {
                assert(decode_utf8(b) =~= Seq::<char>::empty());
            }
            return None;
        }
        // the last character starts at the last byte that is not a continuation byte
        let mut i: usize = n - 1;
        proof {
            assert(valid_first_scalar(b));
            is_char_boundary_iff_not_is_continuation_byte(b, 0);
        }
        while 0x80 <= self.vec.as_slice()[i] && self.vec.as_slice()[i] <= 0xBF
            invariant
                self.vec@ == b,
                self.vec.wf(),
                valid_utf8(b),
                n == b.len(),
                i < n,
                !is_continuation_byte(b[0]),
                forall|j: int| i < j < n ==> is_continuation_byte(#[trigger] b[j]),
            decreases i,
        {
            i = i - 1;
        }
        proof {
            is_char_boundary_iff_not_is_continuation_byte(b, i as int);
        }
        let (c, w) = decode_at(self.vec.as_slice(), i);
        proof {
            lemma_split(b, i as int);
            let rest = b.subrange(i as int, n as int);
            let tail = pop_first_scalar(rest);
            if tail.len() > 0 {
                assert(valid_first_scalar(tail));
                assert(tail[0] == b[i + w]);
            }
            assert(decode_utf8(tail) =~= Seq::<char>::empty());
            assert(decode_utf8(rest) =~= seq![c]);
        }
        self.vec.truncate(i);
        proof {
            let pre = decode_utf8(b.subrange(0, i as int));
            assert(decode_utf8(b) =~= pre + seq![c]);
            assert(pre =~= decode_utf8(b).drop_last());
        }
        Some(c)
    }

    /// Remove and return the character that starts at byte `index`, a
    /// character boundary before the end.
    pub fn remove(&mut self, index: usize) -> (r: char)
        requires
            old(self).wf(),
            is_char_boundary(old(self).bytes(), index as int),
            index < old(self).bytes().len(),
        ensures
            final(self).wf(),
            ({
                let pre = old(self).bytes().subrange(0, index as int);
                let rest = old(self).bytes().subrange(index as int, old(self).bytes().len() as int);
                &&& r == decode_utf8(rest)[0]
                &&& final(self).bytes() == pre + pop_first_scalar(rest)
                &&& final(self)@ == decode_utf8(pre) + decode_utf8(rest).drop_first()
                &&& old(self)@ == decode_utf8(pre) + seq![r] + final(self)@.subrange(
                    decode_utf8(pre).len() as int,
                    final(self)@.len() as int,
                )
            }),
            final(self).storage().spec_capacity() == old(self).storage().spec_capacity(),
            final(self).storage().spec_block() == old(self).storage().spec_block(),
    {
        let ghost b = self.vec@;
        let len = self.vec.len();
        let (c, w) = decode_at(self.vec.as_slice(), index);
        proof {
            lemma_split(b, index as int);
        }
        assert(index + w <= len);
        let _gone = self.vec.drain(index..index + w);
        proof {
            let pre = b.subrange(0, index as int);
            let rest = b.subrange(index as int, b.len() as int);
            let tail = pop_first_scalar(rest);
            assert(self.vec@ =~= pre + tail);
            lemma_decode_concat(pre, tail);
            assert(decode_utf8(rest).drop_first() =~= decode_utf8(tail));
            assert(old(self)@ =~= decode_utf8(pre) + seq![c] + self@.subrange(
                decode_utf8(pre).len() as int,
                self@.len() as int,
            ));
        }
        c
    }

    /// Destroy the string and give its block back.
    pub fn release(self, m: &mut Manager)
        requires
            old(m).wf(),
            self.backed_by(old(m)@),
        ensures
            final(m).wf(),
            final(m)@ == released(old(m)@, self.storage().spec_block()),
    {
        self.vec.release(m);
    }
}

} // verus!
