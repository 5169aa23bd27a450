use vstd::prelude::*;
use vstd::string::{StrSliceExecFns, StringExecFns};
use crate::error::DatabaseError;
use crate::types::{Value, ValueView, ValueWithTTL, WrappedView};

verus! {

// ---------------------------------------------------------------------------
// The compression-at-rest codec: a wrapped value is laid out as a canonical
// byte string and that byte string is compressed. The layout is proved
// injective through the decoder's contract, and the compression layer is the
// lz4 block format behind two trusted wrappers; together they give the
// round-trip guarantee `decompress(compress(w)) == w`.
// ---------------------------------------------------------------------------

/// The longest byte string the compression layer accepts.
pub const MAX_ENCODED_LEN: usize = 0x7e00_0000;

/// A 64-bit integer laid out as eight little-endian bytes.
pub open spec fn enc_u64(v: u64) -> Seq<u8> {
    seq![
        (v & 0xff) as u8,
        ((v >> 8) & 0xff) as u8,
        ((v >> 16) & 0xff) as u8,
        ((v >> 24) & 0xff) as u8,
        ((v >> 32) & 0xff) as u8,
        ((v >> 40) & 0xff) as u8,
        ((v >> 48) & 0xff) as u8,
        ((v >> 56) & 0xff) as u8,
    ]
}

/// A 32-bit integer laid out as four little-endian bytes.
pub open spec fn enc_u32(v: u32) -> Seq<u8> {
    seq![(v & 0xff) as u8, ((v >> 8) & 0xff) as u8, ((v >> 16) & 0xff) as u8, ((v >> 24) & 0xff) as u8]
}

/// A character sequence laid out as one 32-bit code point each.
pub open spec fn enc_chars(s: Seq<char>) -> Seq<u8>
    decreases s.len(),
{
    if s.len() == 0 {
        Seq::empty()
    } else {
        enc_u32(s[0] as u32) + enc_chars(s.drop_first())
    }
}

/// The two's-complement bit pattern of a signed 64-bit value.
pub open spec fn u64_of_i64(i: int) -> u64 {
    if 0 <= i < 0x8000_0000_0000_0000 {
        i as u64
    } else if -0x8000_0000_0000_0000 <= i < 0 {
        (i + 0x1_0000_0000_0000_0000) as u64
    } else {
        0
    }
}

/// A value laid out as a tag byte followed by its payload.
pub open spec fn enc_value(v: ValueView) -> Seq<u8> {
    match v {
        ValueView::Null => seq![0u8],
        ValueView::Bool(b) => seq![1u8, if b { 1u8 } else { 0u8 }],
        ValueView::Int(i) => seq![2u8] + enc_u64(u64_of_i64(i)),
        ValueView::Float(bits) => seq![3u8] + enc_u64(bits),
        ValueView::Str(s) => seq![4u8] + enc_u64(s.len() as u64) + enc_chars(s),
    }
}

/// A wrapped value laid out as its optional expiration instant followed by
/// its value.
pub open spec fn enc_wrapped(w: WrappedView) -> Seq<u8> {
    (match w.expires_at {
        None => seq![0u8],
        Some(t) => seq![1u8] + enc_u64(t),
    }) + enc_value(w.value)
}

/// Whether a view is in the image of a real value: its integer fits a
/// machine word. Every view of a [`ValueWithTTL`] satisfies this.
pub open spec fn view_wf(w: WrappedView) -> bool {
    match w.value {
        ValueView::Int(i) => -0x8000_0000_0000_0000 <= i < 0x8000_0000_0000_0000,
        _ => true,
    }
}

/// Whether a wrapped value can pass through the codec: a well-formed view
/// whose layout the compression layer accepts.
pub open spec fn codec_ok(w: WrappedView) -> bool {
    view_wf(w) && enc_wrapped(w).len() <= MAX_ENCODED_LEN
}

/// The compressed form of a wrapped value: its canonical layout run through
/// the compression layer.
pub open spec fn compressed_of(w: WrappedView) -> Seq<u8> {
    lz4_block_of(enc_wrapped(w))
}

/// The view of any real wrapped value is well formed.
pub proof fn lemma_view_wf(v: ValueWithTTL)
    ensures
        view_wf(v@),
{
    match v.value {
        Value::Int(i) => {
            assert(-0x8000_0000_0000_0000 <= (i as int) && (i as int) < 0x8000_0000_0000_0000);
        },
        _ => {},
    }
}

/// Whether a wrapped value fits the codec, decided at run time: the one
/// bound is the length of its canonical layout.
pub fn codec_fits(value: &ValueWithTTL) -> (r: bool)
    ensures
        r == codec_ok(value@),
{
    proof {
        lemma_view_wf(*value);
        lemma_enc_value_shape(value@.value, enc_value(value@.value));
    }
    let base: u64 = match value.expires_at {
        None => 1,
        Some(_) => 9,
    };
    let val_len: u64 = match &value.value {
        Value::Null => 1,
        Value::Bool(_) => 2,
        Value::Int(_) => 9,
        Value::Float(_) => 9,
        Value::String(s) => {
            let n = s.as_str().unicode_len();
            proof {
                lemma_enc_chars_len(value@.value->Str_0);
            }
            if n as u64 > 0x3f00_0000_0000_0000u64 {
                return false;
            }
            9 + 4 * (n as u64)
        },
    };
    base + val_len <= MAX_ENCODED_LEN as u64
}

// ---------------------------------------------------------------------------
// The compression layer.
// ---------------------------------------------------------------------------

/// What the lz4 block format makes of a byte string, with the original
/// length prepended.
pub uninterp spec fn lz4_block_of(b: Seq<u8>) -> Seq<u8>;

/// Relies on `lz4::block::compress` with size prepending: it succeeds on
/// every input no longer than the format's input bound, and its output is a
/// function of the input bytes alone.
#[verifier::external_body]
fn lz4_pack(data: &[u8]) -> (r: Vec<u8>)
    requires
        data@.len() <= MAX_ENCODED_LEN,
    ensures
        r@ == lz4_block_of(data@),
{
    lz4::block::compress(data, None, true).unwrap()
}

/// Relies on `lz4::block::decompress`: whatever `lz4::block::compress`
/// produced comes back exactly as the bytes that went in, and corrupt input
/// is reported rather than misread.
#[verifier::external_body]
fn lz4_unpack(data: &[u8]) -> (r: Result<Vec<u8>, ()>)
    ensures
        match r {
            Ok(o) => forall|b: Seq<u8>|
                b.len() <= MAX_ENCODED_LEN && data@ == #[trigger] lz4_block_of(b) ==> o@ == b,
            Err(_) => forall|b: Seq<u8>|
                !(b.len() <= MAX_ENCODED_LEN && data@ == #[trigger] lz4_block_of(b)),
        },
{
    match lz4::block::decompress(data, None) {
        Ok(o) => Ok(o),
        Err(_) => Err(()),
    }
}

/// The Unicode scalar value of a character.
pub open spec fn char_value(c: char) -> u32 {
    c as u32
}

/// Relies on `char::from_u32`: `Some` holds the one character whose scalar
/// value is the argument, and every character with that scalar value is that
/// character.
#[verifier::external_body]
fn char_from_u32(u: u32) -> (r: Option<char>)
    ensures
        match r {
            Some(c) => c as u32 == u && (forall|c2: char| #[trigger] char_value(c2) == u ==> c2
                == c),
            None => forall|c2: char| #[trigger] char_value(c2) != u,
        },
{
    char::from_u32(u)
}

/// Relies on `String::push`: appends the one character.
#[verifier::external_body]
fn string_push_char(s: &mut String, c: char)
    ensures
        final(s)@ == old(s)@.push(c),
{
    s.push(c);
}

// ---------------------------------------------------------------------------
// The canonical layout: encoding.
// ---------------------------------------------------------------------------

/// Appends the eight little-endian bytes of a 64-bit integer.
fn push_u64(out: &mut Vec<u8>, v: u64)
    ensures
        final(out)@ == old(out)@ + enc_u64(v),
{
    proof {
        assert(v & 0xff < 256 && (v >> 8) & 0xff < 256 && (v >> 16) & 0xff < 256 && (v >> 24)
            & 0xff < 256 && (v >> 32) & 0xff < 256 && (v >> 40) & 0xff < 256 && (v >> 48) & 0xff
            < 256 && (v >> 56) & 0xff < 256) by (bit_vector);
    }
    out.push((v & 0xff) as u8);
    out.push(((v >> 8) & 0xff) as u8);
    out.push(((v >> 16) & 0xff) as u8);
    out.push(((v >> 24) & 0xff) as u8);
    out.push(((v >> 32) & 0xff) as u8);
    out.push(((v >> 40) & 0xff) as u8);
    out.push(((v >> 48) & 0xff) as u8);
    out.push(((v >> 56) & 0xff) as u8);
    proof {
        assert(final(out)@ =~= old(out)@ + enc_u64(v));
    }
}

/// Appends the four little-endian bytes of a 32-bit integer.
fn push_u32(out: &mut Vec<u8>, v: u32)
    ensures
        final(out)@ == old(out)@ + enc_u32(v),
{
    proof {
        assert(v & 0xff < 256 && (v >> 8) & 0xff < 256 && (v >> 16) & 0xff < 256 && (v >> 24)
            & 0xff < 256) by (bit_vector);
    }
    out.push((v & 0xff) as u8);
    out.push(((v >> 8) & 0xff) as u8);
    out.push(((v >> 16) & 0xff) as u8);
    out.push(((v >> 24) & 0xff) as u8);
    proof {
        assert(final(out)@ =~= old(out)@ + enc_u32(v));
    }
}

/// Appending one character extends the layout by that character's bytes.
proof fn lemma_enc_chars_push(s: Seq<char>, c: char)
    ensures
        enc_chars(s.push(c)) == enc_chars(s) + enc_u32(c as u32),
    decreases s.len(),
{
    if s.len() == 0 {
        assert(s.push(c)[0] == c);
        assert(s.push(c).drop_first() =~= Seq::<char>::empty());
        assert(enc_chars(Seq::<char>::empty()) =~= Seq::<u8>::empty());
        assert(s =~= Seq::<char>::empty());
        assert(enc_chars(s.push(c)) =~= enc_chars(s) + enc_u32(c as u32));
    } else {
        lemma_enc_chars_push(s.drop_first(), c);
        assert(s.push(c).drop_first() =~= s.drop_first().push(c));
        assert(enc_chars(s.push(c)) =~= enc_chars(s) + enc_u32(c as u32));
    }
}

/// The layout of a character sequence is four bytes per character, and the
/// bytes of character `i` sit at offset `4 * i`.
pub proof fn lemma_enc_chars_index(s: Seq<char>, i: int)
    requires
        0 <= i < s.len(),
    ensures
        enc_chars(s).len() == 4 * s.len(),
        enc_chars(s).subrange(4 * i, 4 * i + 4) == enc_u32(s[i] as u32),
    decreases s.len(),
{
    lemma_enc_chars_len(s);
    if i == 0 {
        assert(enc_chars(s).subrange(0, 4) =~= enc_u32(s[0] as u32));
    } else {
        lemma_enc_chars_index(s.drop_first(), i - 1);
        assert(enc_chars(s).subrange(4 * i, 4 * i + 4) =~= enc_chars(s.drop_first()).subrange(
            4 * (i - 1),
            4 * (i - 1) + 4,
        ));
    }
}

/// The layout of a character sequence is four bytes per character.
pub proof fn lemma_enc_chars_len(s: Seq<char>)
    ensures
        enc_chars(s).len() == 4 * s.len(),
    decreases s.len(),
{
    if s.len() > 0 {
        lemma_enc_chars_len(s.drop_first());
    }
}

/// Lays a wrapped value out as its canonical byte string.
fn encode(value: &ValueWithTTL) -> (r: Vec<u8>)
    ensures
        r@ == enc_wrapped(value@),
{
    let mut out: Vec<u8> = Vec::new();
    match value.expires_at {
        None => out.push(0u8),
        Some(t) => {
            out.push(1u8);
            push_u64(&mut out, t);
        },
    }
    let ghost exp_part = out@;
    match &value.value {
        Value::Null => {
            out.push(0u8);
        },
        Value::Bool(b) => {
            out.push(1u8);
            out.push(if *b { 1u8 } else { 0u8 });
        },
        Value::Int(i) => {
            out.push(2u8);
            let bits: u64 = if *i >= 0 {
                *i as u64
            } else {
                // two's complement: shift into the upper half without
                // leaving the signed range on the way
                (*i + 0x4000_0000_0000_0000i64 + 0x4000_0000_0000_0000i64) as u64
                    + 0x8000_0000_0000_0000u64
            };
            proof {
                assert(bits == u64_of_i64(*i as int));
            }
            push_u64(&mut out, bits);
        },
        Value::Float(bits) => {
            out.push(3u8);
            push_u64(&mut out, *bits);
        },
        Value::String(s) => {
            out.push(4u8);
            let n = s.as_str().unicode_len();
            push_u64(&mut out, n as u64);
            let ghost head = out@;
            let mut j: usize = 0;
            proof {
                assert(s@.take(0) =~= Seq::<char>::empty());
            }
            while j < n
                invariant
                    j <= n,
                    n == s@.len(),
                    out@ == head + enc_chars(s@.take(j as int)),
                decreases n - j,
            {
                let c = s.as_str().get_char(j);
                push_u32(&mut out, c as u32);
                proof {
                    lemma_enc_chars_push(s@.take(j as int), c);
                    assert(s@.take(j + 1) =~= s@.take(j as int).push(s@[j as int]));
                }
                j = j + 1;
            }
            proof {
                assert(s@.take(n as int) =~= s@);
            }
        },
    }
    proof {
        assert(out@ =~= enc_wrapped(value@));
    }
    out
}

// ---------------------------------------------------------------------------
// The canonical layout: decoding.
// ---------------------------------------------------------------------------

/// Two 64-bit integers with the same layout are the same integer.
proof fn lemma_enc_u64_inj(a: u64, b: u64)
    requires
        enc_u64(a) == enc_u64(b),
    ensures
        a == b,
{
    assert(enc_u64(a)[0] == enc_u64(b)[0] && enc_u64(a)[1] == enc_u64(b)[1] && enc_u64(a)[2]
        == enc_u64(b)[2] && enc_u64(a)[3] == enc_u64(b)[3] && enc_u64(a)[4] == enc_u64(b)[4]
        && enc_u64(a)[5] == enc_u64(b)[5] && enc_u64(a)[6] == enc_u64(b)[6] && enc_u64(a)[7]
        == enc_u64(b)[7]);
    assert((a & 0xff) as u8 == (b & 0xff) as u8 && ((a >> 8) & 0xff) as u8 == ((b >> 8) & 0xff)
        as u8 && ((a >> 16) & 0xff) as u8 == ((b >> 16) & 0xff) as u8 && ((a >> 24) & 0xff) as u8
        == ((b >> 24) & 0xff) as u8 && ((a >> 32) & 0xff) as u8 == ((b >> 32) & 0xff) as u8 && ((a
        >> 40) & 0xff) as u8 == ((b >> 40) & 0xff) as u8 && ((a >> 48) & 0xff) as u8 == ((b >> 48)
        & 0xff) as u8 && ((a >> 56) & 0xff) as u8 == ((b >> 56) & 0xff) as u8 ==> a == b)
        by (bit_vector);
}

/// Two 32-bit integers with the same layout are the same integer.
proof fn lemma_enc_u32_inj(a: u32, b: u32)
    requires
        enc_u32(a) == enc_u32(b),
    ensures
        a == b,
{
    assert(enc_u32(a)[0] == enc_u32(b)[0] && enc_u32(a)[1] == enc_u32(b)[1] && enc_u32(a)[2]
        == enc_u32(b)[2] && enc_u32(a)[3] == enc_u32(b)[3]);
    assert((a & 0xff) as u8 == (b & 0xff) as u8 && ((a >> 8) & 0xff) as u8 == ((b >> 8) & 0xff)
        as u8 && ((a >> 16) & 0xff) as u8 == ((b >> 16) & 0xff) as u8 && ((a >> 24) & 0xff) as u8
        == ((b >> 24) & 0xff) as u8 ==> a == b) by (bit_vector);
}

/// Reads the 64-bit integer whose layout sits at `pos`.
fn take_u64(bytes: &[u8], pos: usize) -> (r: u64)
    requires
        pos + 8 <= bytes@.len(),
    ensures
        enc_u64(r) == bytes@.subrange(pos as int, pos as int + 8),
{
    let b0 = bytes[pos] as u64;
    let b1 = bytes[pos + 1] as u64;
    let b2 = bytes[pos + 2] as u64;
    let b3 = bytes[pos + 3] as u64;
    let b4 = bytes[pos + 4] as u64;
    let b5 = bytes[pos + 5] as u64;
    let b6 = bytes[pos + 6] as u64;
    let b7 = bytes[pos + 7] as u64;
    let v = b0 | (b1 << 8) | (b2 << 16) | (b3 << 24) | (b4 << 32) | (b5 << 40) | (b6 << 48) | (b7
        << 56);
    proof {
        let x = v;
        assert(b0 < 256 && b1 < 256 && b2 < 256 && b3 < 256 && b4 < 256 && b5 < 256 && b6 < 256
            && b7 < 256);
        assert((b0 < 256 && b1 < 256 && b2 < 256 && b3 < 256 && b4 < 256 && b5 < 256 && b6 < 256
            && b7 < 256 && x == b0 | (b1 << 8) | (b2 << 16) | (b3 << 24) | (b4 << 32) | (b5 << 40)
            | (b6 << 48) | (b7 << 56)) ==> (x & 0xff == b0 && (x >> 8) & 0xff == b1 && (x >> 16)
            & 0xff == b2 && (x >> 24) & 0xff == b3 && (x >> 32) & 0xff == b4 && (x >> 40) & 0xff
            == b5 && (x >> 48) & 0xff == b6 && (x >> 56) & 0xff == b7)) by (bit_vector);
        assert(enc_u64(v) =~= bytes@.subrange(pos as int, pos as int + 8));
    }
    v
}

/// Reads the 32-bit integer whose layout sits at `pos`.
fn take_u32(bytes: &[u8], pos: usize) -> (r: u32)
    requires
        pos + 4 <= bytes@.len(),
    ensures
        enc_u32(r) == bytes@.subrange(pos as int, pos as int + 4),
{
    let b0 = bytes[pos] as u32;
    let b1 = bytes[pos + 1] as u32;
    let b2 = bytes[pos + 2] as u32;
    let b3 = bytes[pos + 3] as u32;
    let v = b0 | (b1 << 8) | (b2 << 16) | (b3 << 24);
    proof {
        let x = v;
        assert(b0 < 256 && b1 < 256 && b2 < 256 && b3 < 256);
        assert((b0 < 256 && b1 < 256 && b2 < 256 && b3 < 256 && x == b0 | (b1 << 8) | (b2 << 16)
            | (b3 << 24)) ==> (x & 0xff == b0 && (x >> 8) & 0xff == b1 && (x >> 16) & 0xff == b2
            && (x >> 24) & 0xff == b3)) by (bit_vector);
        assert(enc_u32(v) =~= bytes@.subrange(pos as int, pos as int + 4));
    }
    v
}

/// Reads back the string whose characters are laid out from `start`,
/// `count` of them.
fn decode_chars(bytes: &[u8], start: usize, count: usize) -> (r: Result<String, ()>)
    requires
        start + 4 * count <= bytes@.len(),
    ensures
        forall|s: Seq<char>|
            (s.len() == count && bytes@.subrange(start as int, start as int + 4 * count as int)
                == #[trigger] enc_chars(s)) ==> (r matches Ok(o) && o@ == s),
{
    let total = bytes.len();
    let mut acc = String::new();
    let mut j: usize = 0;
    while j < count
        invariant
            j <= count,
            start + 4 * count <= total,
            total == bytes@.len(),
            forall|s: Seq<char>|
                (s.len() == count && bytes@.subrange(
                    start as int,
                    start as int + 4 * count as int,
                ) == #[trigger] enc_chars(s)) ==> acc@ == s.take(j as int),
        decreases count - j,
    {
        let u = take_u32(bytes, start + 4 * j);
        let c = match char_from_u32(u) {
            Some(c) => c,
            None => {
                proof {
                    assert forall|s: Seq<char>|
                        s.len() == count && bytes@.subrange(
                            start as int,
                            start as int + 4 * count as int,
                        ) == #[trigger] enc_chars(s) implies false by {
                        lemma_enc_chars_index(s, j as int);
                        assert(enc_u32(s[j as int] as u32) =~= bytes@.subrange(
                            start + 4 * j,
                            start + 4 * j + 4,
                        ));
                        lemma_enc_u32_inj(u, s[j as int] as u32);
                        assert(char_value(s[j as int]) == u);
                    }
                }
                return Err(());
            },
        };
        string_push_char(&mut acc, c);
        proof {
            assert forall|s: Seq<char>|
                s.len() == count && bytes@.subrange(start as int, start as int + 4 * count as int)
                    == #[trigger] enc_chars(s) implies acc@ == s.take(j + 1) by {
                lemma_enc_chars_index(s, j as int);
                assert(enc_u32(s[j as int] as u32) =~= bytes@.subrange(
                    start + 4 * j,
                    start + 4 * j + 4,
                ));
                lemma_enc_u32_inj(u, s[j as int] as u32);
                assert(char_value(s[j as int]) == u);
                assert(c == s[j as int]);
                assert(s.take(j + 1) =~= s.take(j as int).push(s[j as int]));
            }
        }
        j = j + 1;
    }
    proof {
        assert forall|s: Seq<char>|
            s.len() == count && bytes@.subrange(start as int, start as int + 4 * count as int)
                == #[trigger] enc_chars(s) implies acc@ == s by {
            assert(s.take(count as int) =~= s);
        }
    }
    Ok(acc)
}

/// Whether `bytes` is the canonical layout of the well-formed view `wv`.
pub open spec fn encodes(bytes: Seq<u8>, wv: WrappedView) -> bool {
    view_wf(wv) && bytes == enc_wrapped(wv)
}

/// How the layout of a value starts and how long it runs, by variant.
proof fn lemma_enc_value_shape(v: ValueView, bytes: Seq<u8>)
    requires
        bytes == enc_value(v),
    ensures
        bytes.len() >= 1,
        v is Null ==> bytes.len() == 1 && bytes[0] == 0,
        v matches ValueView::Bool(b) ==> bytes.len() == 2 && bytes[0] == 1 && bytes[1] == (
        if b {
            1u8
        } else {
            0u8
        }),
        v matches ValueView::Int(i) ==> bytes.len() == 9 && bytes[0] == 2 && bytes.subrange(1, 9)
            == enc_u64(u64_of_i64(i)),
        v matches ValueView::Float(bits) ==> bytes.len() == 9 && bytes[0] == 3 && bytes.subrange(
            1,
            9,
        ) == enc_u64(bits),
        v matches ValueView::Str(s) ==> bytes.len() == 9 + 4 * s.len() && bytes[0] == 4
            && bytes.subrange(1, 9) == enc_u64(s.len() as u64) && bytes.skip(9) == enc_chars(s),
{
    match v {
        ValueView::Null => {},
        ValueView::Bool(b) => {},
        ValueView::Int(i) => {
            assert(bytes.subrange(1, 9) =~= enc_u64(u64_of_i64(i)));
        },
        ValueView::Float(bits) => {
            assert(bytes.subrange(1, 9) =~= enc_u64(bits));
        },
        ValueView::Str(s) => {
            lemma_enc_chars_len(s);
            assert(bytes.subrange(1, 9) =~= enc_u64(s.len() as u64));
            assert(bytes.skip(9) =~= enc_chars(s));
        },
    }
}

/// How the layout of a wrapped value splits into its expiration part and its
/// value part.
proof fn lemma_enc_wrapped_split(wv: WrappedView, bytes: Seq<u8>)
    requires
        bytes == enc_wrapped(wv),
    ensures
        bytes.len() >= 2,
        wv.expires_at is None ==> bytes[0] == 0 && bytes.skip(1) == enc_value(wv.value),
        wv.expires_at matches Some(t) ==> bytes.len() >= 10 && bytes[0] == 1 && bytes.subrange(
            1,
            9,
        ) == enc_u64(t) && bytes.skip(9) == enc_value(wv.value),
{
    lemma_enc_value_shape(wv.value, enc_value(wv.value));
    match wv.expires_at {
        None => {
            assert(bytes.skip(1) =~= enc_value(wv.value));
        },
        Some(t) => {
            assert(bytes.subrange(1, 9) =~= enc_u64(t));
            assert(bytes.skip(9) =~= enc_value(wv.value));
        },
    }
}

/// The bit pattern determines the signed value, within the signed range.
proof fn lemma_u64_of_i64_inj(a: int, b: int)
    requires
        -0x8000_0000_0000_0000 <= a < 0x8000_0000_0000_0000,
        -0x8000_0000_0000_0000 <= b < 0x8000_0000_0000_0000,
        u64_of_i64(a) == u64_of_i64(b),
    ensures
        a == b,
{
}

/// Reads a wrapped value back from its canonical layout. Accepts every
/// layout the encoder produces and hands back exactly the value that was
/// laid out.
fn decode_entry(bytes: &[u8]) -> (r: Result<ValueWithTTL, ()>)
    ensures
        forall|wv: WrappedView| #[trigger] encodes(bytes@, wv) ==> (r matches Ok(w) && w@ == wv),
{
    let n_total = bytes.len();
    if n_total < 2 {
        proof {
            assert forall|wv: WrappedView| #[trigger] encodes(bytes@, wv) implies false by {
                lemma_enc_wrapped_split(wv, bytes@);
            }
        }
        return Err(());
    }
    let t0 = bytes[0];
    let (expires_at, pos): (Option<u64>, usize) = if t0 == 0 {
        (None, 1)
    } else if t0 == 1 {
        if n_total < 10 {
            proof {
                assert forall|wv: WrappedView| #[trigger] encodes(bytes@, wv) implies false by {
                    lemma_enc_wrapped_split(wv, bytes@);
                }
            }
            return Err(());
        }
        let t = take_u64(bytes, 1);
        proof {
            assert forall|wv: WrappedView| #[trigger] encodes(bytes@, wv) implies wv.expires_at
                == Some(t) by {
                lemma_enc_wrapped_split(wv, bytes@);
                lemma_enc_u64_inj(t, wv.expires_at->0);
            }
        }
        (Some(t), 9)
    } else {
        proof {
            assert forall|wv: WrappedView| #[trigger] encodes(bytes@, wv) implies false by {
                lemma_enc_wrapped_split(wv, bytes@);
            }
        }
        return Err(());
    };
    proof {
        assert forall|wv: WrappedView| #[trigger] encodes(bytes@, wv) implies wv.expires_at
            == expires_at && bytes@.skip(pos as int) == enc_value(wv.value) by {
            lemma_enc_wrapped_split(wv, bytes@);
        }
    }
    let ghost val_bytes = bytes@.skip(pos as int);
    let tag = bytes[pos];
    proof {
        assert forall|wv: WrappedView| #[trigger] encodes(bytes@, wv) implies enc_value(
            wv.value,
        )[0] == tag && enc_value(wv.value).len() == n_total - pos by {
            lemma_enc_wrapped_split(wv, bytes@);
        }
    }
    let value: Value = if tag == 0 {
        if pos + 1 != n_total {
            proof {
                assert forall|wv: WrappedView| #[trigger] encodes(bytes@, wv) implies false by {
                    lemma_enc_value_shape(wv.value, val_bytes);
                }
            }
            return Err(());
        }
        proof {
            assert forall|wv: WrappedView| #[trigger] encodes(bytes@, wv) implies wv.value
                == ValueView::Null by {
                lemma_enc_value_shape(wv.value, val_bytes);
            }
        }
        Value::Null
    } else if tag == 1 {
        if pos + 2 != n_total {
            proof {
                assert forall|wv: WrappedView| #[trigger] encodes(bytes@, wv) implies false by {
                    lemma_enc_value_shape(wv.value, val_bytes);
                }
            }
            return Err(());
        }
        let b = bytes[pos + 1];
        if b != 0 && b != 1 {
            proof {
                assert forall|wv: WrappedView| #[trigger] encodes(bytes@, wv) implies false by {
                    lemma_enc_value_shape(wv.value, val_bytes);
                }
            }
            return Err(());
        }
        proof {
            assert forall|wv: WrappedView| #[trigger] encodes(bytes@, wv) implies wv.value
                == ValueView::Bool(b == 1) by {
                lemma_enc_value_shape(wv.value, val_bytes);
            }
        }
        Value::Bool(b == 1)
    } else if tag == 2 {
        if pos + 9 != n_total {
            proof {
                assert forall|wv: WrappedView| #[trigger] encodes(bytes@, wv) implies false by {
                    lemma_enc_value_shape(wv.value, val_bytes);
                }
            }
            return Err(());
        }
        let u = take_u64(bytes, pos + 1);
        let i: i64 = if u < 0x8000_0000_0000_0000 {
            u as i64
        } else {
            -((u64::MAX - u) as i64) - 1
        };
        proof {
            assert(u64_of_i64(i as int) == u);
            assert forall|wv: WrappedView| #[trigger] encodes(bytes@, wv) implies wv.value
                == ValueView::Int(i as int) by {
                lemma_enc_value_shape(wv.value, val_bytes);
                assert(val_bytes.subrange(1, 9) =~= bytes@.subrange(pos + 1, pos + 9));
                lemma_enc_u64_inj(u, u64_of_i64(wv.value->Int_0));
                lemma_u64_of_i64_inj(i as int, wv.value->Int_0);
            }
        }
        Value::Int(i)
    } else if tag == 3 {
        if pos + 9 != n_total {
            proof {
                assert forall|wv: WrappedView| #[trigger] encodes(bytes@, wv) implies false by {
                    lemma_enc_value_shape(wv.value, val_bytes);
                }
            }
            return Err(());
        }
        let u = take_u64(bytes, pos + 1);
        proof {
            assert forall|wv: WrappedView| #[trigger] encodes(bytes@, wv) implies wv.value
                == ValueView::Float(u) by {
                lemma_enc_value_shape(wv.value, val_bytes);
                assert(val_bytes.subrange(1, 9) =~= bytes@.subrange(pos + 1, pos + 9));
                lemma_enc_u64_inj(u, wv.value->Float_0);
            }
        }
        Value::Float(u)
    } else if tag == 4 {
        if pos + 9 > n_total {
            proof {
                assert forall|wv: WrappedView| #[trigger] encodes(bytes@, wv) implies false by {
                    lemma_enc_value_shape(wv.value, val_bytes);
                }
            }
            return Err(());
        }
        let len_u = take_u64(bytes, pos + 1);
        let remaining = n_total - (pos + 9);
        if (remaining as u64) != 4 * (remaining as u64 / 4) || len_u != remaining as u64 / 4 {
            proof {
                assert forall|wv: WrappedView| #[trigger] encodes(bytes@, wv) implies false by {
                    lemma_enc_value_shape(wv.value, val_bytes);
                    assert(val_bytes.subrange(1, 9) =~= bytes@.subrange(pos + 1, pos + 9));
                    lemma_enc_u64_inj(len_u, wv.value->Str_0.len() as u64);
                }
            }
            return Err(());
        }
        let n = remaining / 4;
        let parsed = decode_chars(bytes, pos + 9, n);
        proof {
            assert forall|wv: WrappedView| #[trigger] encodes(bytes@, wv) implies (wv.value
                matches ValueView::Str(s) && s.len() == n && bytes@.subrange(
                pos + 9,
                pos + 9 + 4 * n,
            ) == enc_chars(s)) by {
                lemma_enc_value_shape(wv.value, val_bytes);
                assert(val_bytes.subrange(1, 9) =~= bytes@.subrange(pos + 1, pos + 9));
                lemma_enc_u64_inj(len_u, wv.value->Str_0.len() as u64);
                assert(bytes@.subrange(pos + 9, pos + 9 + 4 * n) =~= val_bytes.skip(9));
            }
        }
        match parsed {
            Ok(s) => Value::String(s),
            Err(_) => {
                return Err(());
            },
        }
    } else {
        proof {
            assert forall|wv: WrappedView| #[trigger] encodes(bytes@, wv) implies false by {
                lemma_enc_value_shape(wv.value, val_bytes);
            }
        }
        return Err(());
    };
    Ok(ValueWithTTL { value, expires_at })
}

// ---------------------------------------------------------------------------
// The public codec.
// ---------------------------------------------------------------------------

/// Compresses a wrapped value to its at-rest byte form: the canonical layout
/// run through the compression layer. Total and deterministic on every value
/// the codec accepts.
pub fn compress(value: &ValueWithTTL) -> (r: Vec<u8>)
    requires
        codec_ok(value@),
    ensures
        r@ == compressed_of(value@),
{
    let encoded = encode(value);
    lz4_pack(encoded.as_slice())
}

/// Decompresses an at-rest byte form back to the wrapped value. Whatever
/// `compress` accepted and produced comes back exactly; bytes that are no
/// compressed layout are a storage error, never a silent default.
pub fn decompress(compressed: &[u8]) -> (r: Result<ValueWithTTL, DatabaseError>)
    ensures
        forall|wv: WrappedView|
            (#[trigger] codec_ok(wv) && compressed@ == compressed_of(wv)) ==> (r matches Ok(w)
                && w@ == wv),
        r matches Err(e) ==> e matches DatabaseError::StorageError(_),
{
    match lz4_unpack(compressed) {
        Err(_) => Err(DatabaseError::StorageError(String::from_str("corrupt compressed block"))),
        Ok(bytes) => {
            proof {
                assert forall|wv: WrappedView|
                    #[trigger] codec_ok(wv) && compressed@ == compressed_of(wv) implies encodes(
                    bytes@,
                    wv,
                ) by {}
            }
            match decode_entry(bytes.as_slice()) {
                Ok(w) => Ok(w),
                Err(_) => Err(
                    DatabaseError::StorageError(String::from_str("malformed stored value")),
                ),
            }
        },
    }
}

} // verus!

