//! Newline framing: a byte stream is cut into frames, each ended by one
//! delimiter byte, and each frame carries UTF-8 text.

use bytes::BytesMut;
use vstd::prelude::*;
use vstd::utf8::*;

verus! {

/// The byte that ends every frame (`\n`).
pub const DELIMITER: u8 = 10;

/// Position of the first delimiter in `b`, or `b.len()` when it holds none.
pub open spec fn first_delimiter(b: Seq<u8>) -> nat
    decreases b.len(),
{
    if b.len() == 0 {
        0
    } else if b[0] == DELIMITER {
        0
    } else {
        1 + first_delimiter(b.drop_first())
    }
}

/// Whether `b` holds at least one complete frame.
pub open spec fn has_frame(b: Seq<u8>) -> bool {
    first_delimiter(b) < b.len()
}

/// The bytes of the first frame of `b`, without its delimiter.
pub open spec fn next_frame(b: Seq<u8>) -> Seq<u8> {
    b.take(first_delimiter(b) as int)
}

/// What stays in `b` once its first frame and that frame's delimiter are gone.
pub open spec fn after_frame(b: Seq<u8>) -> Seq<u8> {
    b.skip(first_delimiter(b) + 1 as int)
}

/// Every complete frame of `b`, in order.
pub open spec fn frames(b: Seq<u8>) -> Seq<Seq<u8>>
    decreases b.len(),
{
    if has_frame(b) {
        seq![next_frame(b)] + frames(after_frame(b))
    } else {
        seq![]
    }
}

/// The bytes after the last delimiter of `b`: an incomplete frame.
pub open spec fn remainder(b: Seq<u8>) -> Seq<u8>
    decreases b.len(),
{
    if has_frame(b) {
        remainder(after_frame(b))
    } else {
        b
    }
}

/// The bytes that `encode` writes for the text `s`.
pub open spec fn framed(s: Seq<char>) -> Seq<u8> {
    encode_utf8(s) + seq![DELIMITER]
}

/// The first delimiter lies within `b`, or just past its end; no byte before it is one.
pub proof fn proof_first_delimiter_bounds(b: Seq<u8>)
    ensures
        first_delimiter(b) <= b.len(),
        first_delimiter(b) < b.len() ==> b[first_delimiter(b) as int] == DELIMITER,
        forall|k: int| 0 <= k < first_delimiter(b) ==> b[k] != DELIMITER,
    decreases b.len(),
{
    if b.len() > 0 && b[0] != DELIMITER {
        proof_first_delimiter_bounds(b.drop_first());
        assert forall|k: int| 0 <= k < first_delimiter(b) implies b[k] != DELIMITER by {
            if k > 0 {
                assert(b[k] == b.drop_first()[k - 1]);
            }
        }
    }
}

/// A position that holds a delimiter, or the end, with none before it, is the first delimiter.
pub proof fn proof_first_delimiter_at(b: Seq<u8>, i: int)
    requires
        0 <= i <= b.len(),
        i < b.len() ==> b[i] == DELIMITER,
        forall|k: int| 0 <= k < i ==> b[k] != DELIMITER,
    ensures
        first_delimiter(b) == i,
    decreases i,
{
    if i > 0 {
        assert forall|k: int| 0 <= k < i - 1 implies b.drop_first()[k] != DELIMITER by {
            assert(b.drop_first()[k] == b[k + 1]);
        }
        proof_first_delimiter_at(b.drop_first(), i - 1);
    }
}

/// Where the first delimiter of `a + c` lies, given that of `a`.
proof fn proof_first_delimiter_concat(a: Seq<u8>, c: Seq<u8>)
    ensures
        has_frame(a) ==> first_delimiter(a + c) == first_delimiter(a),
        !has_frame(a) ==> first_delimiter(a + c) == a.len() + first_delimiter(c),
{
    let ac = a + c;
    proof_first_delimiter_bounds(a);
    proof_first_delimiter_bounds(c);
    if has_frame(a) {
        let i = first_delimiter(a) as int;
        assert(ac[i] == a[i]);
        assert forall|k: int| 0 <= k < i implies ac[k] != DELIMITER by {
            assert(ac[k] == a[k]);
        }
        proof_first_delimiter_at(ac, i);
    } else {
        let i: int = a.len() + first_delimiter(c) as int;
        assert(i < ac.len() ==> ac[i] == c[first_delimiter(c) as int]);
        assert forall|k: int| 0 <= k < i implies ac[k] != DELIMITER by {
            if k < a.len() {
                assert(ac[k] == a[k]);
            } else {
                assert(ac[k] == c[k - a.len()]);
            }
        }
        proof_first_delimiter_at(ac, i);
    }
}

/// Bytes that arrive in two pieces give the same frames as the whole: the
/// frames of the first piece, then those of its leftover followed by the
/// second piece; and the same bytes stay buffered at the end.
pub proof fn proof_framing_split(a: Seq<u8>, c: Seq<u8>)
    ensures
        frames(a + c) == frames(a) + frames(remainder(a) + c),
        remainder(a + c) == remainder(remainder(a) + c),
    decreases a.len(),
{
    proof_first_delimiter_concat(a, c);
    proof_first_delimiter_bounds(a);
    if has_frame(a) {
        let ac = a + c;
        assert(has_frame(ac));
        assert(next_frame(ac) =~= next_frame(a));
        assert(after_frame(ac) =~= after_frame(a) + c);
        proof_framing_split(after_frame(a), c);
        assert(frames(ac) =~= frames(a) + frames(remainder(a) + c));
    } else {
        assert(frames(a) =~= Seq::<Seq<u8>>::empty());
        assert(frames(a + c) =~= frames(a) + frames(remainder(a) + c));
    }
}

/// The frames met when `input` is fed after `buf` one byte at a time, each
/// byte followed by taking off every frame that has become complete.
pub open spec fn frames_fed_bytewise(buf: Seq<u8>, input: Seq<u8>) -> Seq<Seq<u8>>
    decreases input.len(),
{
    if input.len() == 0 {
        seq![]
    } else {
        let b = buf + seq![input[0]];
        frames(b) + frames_fed_bytewise(remainder(b), input.drop_first())
    }
}

/// Feeding bytes one at a time loses nothing and adds nothing: starting from
/// a buffer that holds no complete frame, the frames met are those of the
/// whole stream taken at once.
pub proof fn proof_bytewise_framing(buf: Seq<u8>, input: Seq<u8>)
    requires
        !has_frame(buf),
    ensures
        frames_fed_bytewise(buf, input) == frames(buf + input),
    decreases input.len(),
{
    if input.len() == 0 {
        assert(buf + input =~= buf);
        assert(frames(buf) =~= Seq::<Seq<u8>>::empty());
    } else {
        let b = buf + seq![input[0]];
        proof_remainder_has_no_frame(b);
        proof_bytewise_framing(remainder(b), input.drop_first());
        proof_framing_split(b, input.drop_first());
        assert(b + input.drop_first() =~= buf + input);
    }
}

/// What stays buffered holds no complete frame.
pub proof fn proof_remainder_has_no_frame(b: Seq<u8>)
    ensures
        !has_frame(remainder(b)),
    decreases b.len(),
{
    proof_first_delimiter_bounds(b);
    if has_frame(b) {
        proof_remainder_has_no_frame(after_frame(b));
    }
}

/// Text that can travel in one frame: it holds no newline.
pub open spec fn fits_in_frame(s: Seq<char>) -> bool {
    forall|i: int| 0 <= i < s.len() ==> s[i] != '\n'
}

/// No byte of the UTF-8 encoding of a character other than newline is the delimiter.
proof fn proof_scalar_has_no_delimiter(c: char)
    requires
        c != '\n',
    ensures
        forall|k: int|
            0 <= k < encode_scalar(c as u32).len() ==> #[trigger] encode_scalar(c as u32)[k]
                != DELIMITER,
{
    let v = c as u32;
    char_is_scalar(c);
    if v == 10 {
        char_u32_cast(c, v);
        char_u32_cast('\n', v);
    }
    assert(v != 10);
    if has_width_1_encoding(v) {
        assert(((v & 0x7Fu32) as u8) != 10u8) by (bit_vector)
            requires
                v <= 0x7Fu32,
                v != 10u32,
        ;
    } else {
        assert((0xC0u8 | (((v >> 6u32) & 0x1Fu32) as u8)) != 10u8) by (bit_vector);
        assert((0xE0u8 | (((v >> 12u32) & 0x0Fu32) as u8)) != 10u8) by (bit_vector);
        assert((0xF0u8 | (((v >> 18u32) & 0x7u32) as u8)) != 10u8) by (bit_vector);
        assert((0x80u8 | ((v & 0x3Fu32) as u8)) != 10u8) by (bit_vector);
        assert((0x80u8 | (((v >> 6u32) & 0x3Fu32) as u8)) != 10u8) by (bit_vector);
        assert((0x80u8 | (((v >> 12u32) & 0x3Fu32) as u8)) != 10u8) by (bit_vector);
    }
}

/// Text that fits in a frame encodes to bytes without a delimiter.
proof fn proof_encoding_has_no_delimiter(s: Seq<char>)
    requires
        fits_in_frame(s),
    ensures
        forall|k: int| 0 <= k < encode_utf8(s).len() ==> encode_utf8(s)[k] != DELIMITER,
    decreases s.len(),
{
    if s.len() > 0 {
        let head = encode_scalar(s[0] as u32);
        let tail = encode_utf8(s.drop_first());
        proof_scalar_has_no_delimiter(s[0]);
        proof_encoding_has_no_delimiter(s.drop_first());
        assert forall|k: int| 0 <= k < encode_utf8(s).len() implies encode_utf8(s)[k]
            != DELIMITER by {
            if k < head.len() {
                assert(encode_utf8(s)[k] == head[k]);
            } else {
                assert(encode_utf8(s)[k] == tail[k - head.len()]);
            }
        }
    }
}

/// What `encode` writes for text that fits in a frame is read back by
/// `decode` as exactly one frame, holding the same text, with nothing left over.
pub proof fn proof_round_trip(s: Seq<char>)
    requires
        fits_in_frame(s),
    ensures
        has_frame(framed(s)),
        frames(framed(s)) == seq![encode_utf8(s)],
        remainder(framed(s)) == Seq::<u8>::empty(),
        next_frame(framed(s)) == encode_utf8(s),
        after_frame(framed(s)) == Seq::<u8>::empty(),
        valid_utf8(next_frame(framed(s))),
        decode_utf8(next_frame(framed(s))) == s,
{
    let b = framed(s);
    let e = encode_utf8(s);
    proof_encoding_has_no_delimiter(s);
    assert forall|k: int| 0 <= k < e.len() implies b[k] != DELIMITER by {
        assert(b[k] == e[k]);
    }
    proof_first_delimiter_at(b, e.len() as int);
    assert(next_frame(b) =~= e);
    assert(after_frame(b) =~= Seq::<u8>::empty());
    assert(!has_frame(Seq::<u8>::empty()));
    assert(frames(after_frame(b)) =~= Seq::<Seq<u8>>::empty());
    assert(frames(b) =~= seq![e]);
    assert(remainder(after_frame(b)) =~= Seq::<u8>::empty());
    encode_utf8_valid_utf8(s);
    encode_utf8_decode_utf8(s);
}

/// Why a frame could not be read.
#[derive(Debug, Clone, Copy, PartialEq, Eq, Structural)]
pub enum CodecError {
    /// The frame's bytes are not well-formed UTF-8.
    InvalidUtf8,
}

#[verifier::external_type_specification]
#[verifier::external_body]
pub struct ExBytesMut(BytesMut);

/// The bytes that a buffer holds, in order.
pub uninterp spec fn buffer_bytes(b: BytesMut) -> Seq<u8>;

/// Relies on BytesMut::len: the number of bytes the buffer holds.
pub assume_specification[ BytesMut::len ](b: &BytesMut) -> (r: usize)
    ensures
        r == buffer_bytes(*b).len(),
;

/// Relies on BytesMut::split_to: the first `at` bytes move to the returned
/// buffer and the rest stay. It panics when `at` exceeds the length.
pub assume_specification[ BytesMut::split_to ](b: &mut BytesMut, at: usize) -> (r: BytesMut)
    requires
        at <= buffer_bytes(*old(b)).len(),
    ensures
        buffer_bytes(r) == buffer_bytes(*old(b)).take(at as int),
        buffer_bytes(*final(b)) == buffer_bytes(*old(b)).skip(at as int),
;

/// Relies on BytesMut::extend_from_slice: the bytes of `s` are appended, the
/// buffer growing as needed.
pub assume_specification[ BytesMut::extend_from_slice ](b: &mut BytesMut, s: &[u8])
    ensures
        buffer_bytes(*final(b)) == buffer_bytes(*old(b)) + s@,
;

/// Relies on indexing a BytesMut through its Deref to `[u8]`: the byte at `i`.
#[verifier::external_body]
fn byte_at(b: &BytesMut, i: usize) -> (r: u8)
    requires
        i < buffer_bytes(*b).len(),
    ensures
        r == buffer_bytes(*b)[i as int],
{
    b[i]
}

/// Relies on std::str::from_utf8 over the buffer's bytes: it accepts exactly
/// the well-formed UTF-8 sequences and hands back the characters they encode.
#[verifier::external_body]
fn utf8_text(b: &BytesMut) -> (r: Option<String>)
    ensures
        r is Some <==> valid_utf8(buffer_bytes(*b)),
        r matches Some(s) ==> s@ == decode_utf8(buffer_bytes(*b)),
{
    match std::str::from_utf8(b) {
        Ok(s) => Some(String::from(s)),
        Err(_) => None,
    }
}

/// The frame codec: turns a byte buffer into text frames and back.
pub struct MessageCodec;

impl MessageCodec {
    /// Takes the first complete frame off the front of `buf`.
    ///
    /// With no delimiter in `buf`, nothing is consumed and `Ok(None)` asks for
    /// more bytes. Otherwise the frame and its delimiter leave `buf`, and the
    /// frame's text comes back, or `InvalidUtf8` when it is not UTF-8.
    pub fn decode(&mut self, buf: &mut BytesMut) -> (r: Result<Option<String>, CodecError>)
        ensures
            !has_frame(buffer_bytes(*old(buf))) ==> r == Ok::<Option<String>, CodecError>(None)
                && buffer_bytes(*final(buf)) == buffer_bytes(*old(buf)),
            has_frame(buffer_bytes(*old(buf))) ==> buffer_bytes(*final(buf)) == after_frame(
                buffer_bytes(*old(buf)),
            ),
            has_frame(buffer_bytes(*old(buf))) ==> match r {
                Ok(Some(s)) => valid_utf8(next_frame(buffer_bytes(*old(buf)))) && s@
                    == decode_utf8(next_frame(buffer_bytes(*old(buf)))),
                Ok(None) => false,
                Err(e) => e == CodecError::InvalidUtf8 && !valid_utf8(
                    next_frame(buffer_bytes(*old(buf))),
                ),
            },
    {
        let ghost b = buffer_bytes(*buf);
        proof {
            proof_first_delimiter_bounds(b);
        }
        let n = buf.len();
        let mut i: usize = 0;
        while i < n && byte_at(buf, i) != DELIMITER
            invariant
                buffer_bytes(*buf) == b,
                n == b.len(),
                i <= n,
                forall|k: int| 0 <= k < i ==> b[k] != DELIMITER,
            decreases n - i,
        {
            i = i + 1;
        }
        proof {
            proof_first_delimiter_at(b, i as int);
        }
        if i == n {
            return Ok(None);
        }
        let line = buf.split_to(i);
        buf.split_to(1);
        assert(buffer_bytes(*buf) =~= after_frame(b));
        match utf8_text(&line) {
            Some(s) => Ok(Some(s)),
            None => Err(CodecError::InvalidUtf8),
        }
    }

    /// Appends the UTF-8 bytes of `msg` and then the delimiter to `buf`.
    pub fn encode(&mut self, msg: String, buf: &mut BytesMut)
        ensures
            buffer_bytes(*final(buf)) == buffer_bytes(*old(buf)) + framed(msg@),
    {
        buf.extend_from_slice(msg.as_str().as_bytes());
        let mut end: Vec<u8> = Vec::new();
        end.push(DELIMITER);
        buf.extend_from_slice(end.as_slice());
        assert(buffer_bytes(*buf) =~= buffer_bytes(*old(buf)) + framed(msg@));
    }
}

} // verus!
