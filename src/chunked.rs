//! Chunked transfer coding of streamed bodies.
use vstd::prelude::*;

use crate::text::append_bytes;

verus! {

/// Size of the pieces a streamed body is read and sent in.
pub const BUFFER_SIZE: usize = 8192;

/// The ASCII byte of an uppercase hexadecimal digit.
pub open spec fn hex_digit(d: nat) -> u8 {
    if d < 10 {
        (48 + d) as u8
    } else {
        (55 + d) as u8
    }
}

/// `n` in uppercase hexadecimal, without leading zeros.
pub open spec fn hex_bytes(n: nat) -> Seq<u8>
    decreases n,
{
    if n < 16 {
        seq![hex_digit(n)]
    } else {
        hex_bytes(n / 16).push(hex_digit(n % 16))
    }
}

/// One chunk on the wire: its length in hexadecimal, a line break, the
/// data, a line break.
pub open spec fn chunk(data: Seq<u8>) -> Seq<u8> {
    hex_bytes(data.len()) + seq![13u8, 10u8] + data + seq![13u8, 10u8]
}

/// The chunk that ends a body, with its empty trailer.
pub open spec fn last_chunk() -> Seq<u8> {
    seq![48u8, 13u8, 10u8, 13u8, 10u8]
}

/// A body sent as the given chunks, in order, and the closing chunk.
pub open spec fn encode_chunks(chunks: Seq<Seq<u8>>) -> Seq<u8>
    decreases chunks.len(),
{
    if chunks.len() == 0 {
        last_chunk()
    } else {
        chunk(chunks[0]) + encode_chunks(chunks.drop_first())
    }
}

/// The chunks joined together.
pub open spec fn flatten(chunks: Seq<Seq<u8>>) -> Seq<u8>
    decreases chunks.len(),
{
    if chunks.len() == 0 {
        seq![]
    } else {
        chunks[0] + flatten(chunks.drop_first())
    }
}

/// Appends the hexadecimal digits of `n`.
fn append_hex(out: &mut Vec<u8>, n: usize)
    ensures
        final(out)@ == old(out)@ + hex_bytes(n as nat),
    decreases n,
{
    if n >= 16 {
        append_hex(out, n / 16);
    }
    let d = (n % 16) as u8;
    if d < 10 {
        out.push(48 + d);
    } else {
        out.push(55 + d);
    }
    proof {
        if n >= 16 {
            assert(old(out)@ + hex_bytes(n as nat) =~= old(out)@ + hex_bytes((n / 16) as nat)
                + seq![hex_digit((n % 16) as nat)]);
        }
    }
    assert(final(out)@ =~= old(out)@ + hex_bytes(n as nat)) by {
        if n < 16 {
        }
    }
}

/// Encodes one piece of a streamed body as a chunk.
pub fn encode_chunk(data: &[u8]) -> (r: Vec<u8>)
    ensures
        r@ == chunk(data@),
{
    let mut out: Vec<u8> = Vec::new();
    append_hex(&mut out, data.len());
    out.push(13);
    out.push(10);
    append_bytes(&mut out, data);
    out.push(13);
    out.push(10);
    assert(out@ =~= chunk(data@));
    out
}

/// The chunk that ends a streamed body.
pub fn last_chunk_bytes() -> (r: Vec<u8>)
    ensures
        r@ == last_chunk(),
{
    let r = vec![48u8, 13u8, 10u8, 13u8, 10u8];
    assert(r@ =~= last_chunk());
    r
}

/// The value of a hexadecimal digit byte, either case.
pub open spec fn hex_val(b: u8) -> Option<nat> {
    if 48 <= b <= 57 {
        Some((b - 48) as nat)
    } else if 65 <= b <= 70 {
        Some((b - 55) as nat)
    } else if 97 <= b <= 102 {
        Some((b - 87) as nat)
    } else {
        None
    }
}

/// How many hexadecimal digits `s` starts with.
pub open spec fn hex_prefix_len(s: Seq<u8>) -> nat
    decreases s.len(),
{
    if s.len() > 0 && hex_val(s[0]) is Some {
        1 + hex_prefix_len(s.drop_first())
    } else {
        0
    }
}

/// The value of a string of hexadecimal digits.
pub open spec fn hex_value(s: Seq<u8>) -> nat
    decreases s.len(),
{
    if s.len() == 0 {
        0
    } else {
        hex_value(s.drop_last()) * 16 + match hex_val(s.last()) {
            Some(v) => v,
            None => 0,
        }
    }
}

/// The body that a chunked wire form carries: chunks read one after the
/// other up to the closing zero-length chunk, which must end the input;
/// `None` for a malformed input.
pub open spec fn decode_chunked(s: Seq<u8>) -> Option<Seq<u8>>
    decreases s.len(),
{
    let m = hex_prefix_len(s) as int;
    if m == 0 || m + 2 > s.len() || s[m] != 13 || s[m + 1] != 10 {
        None
    } else {
        let n = hex_value(s.take(m)) as int;
        let k = m + 2;
        if n == 0 {
            if s.len() == k + 2 && s[k] == 13 && s[k + 1] == 10 {
                Some(seq![])
            } else {
                None
            }
        } else if k + n + 2 <= s.len() && s[k + n] == 13 && s[k + n + 1] == 10 {
            match decode_chunked(s.subrange(k + n + 2, s.len() as int)) {
                Some(rest) => Some(s.subrange(k, k + n) + rest),
                None => None,
            }
        } else {
            None
        }
    }
}

/// The digits written for a number are hexadecimal digits that read back
/// as the number.
proof fn lemma_hex_bytes(n: nat)
    ensures
        hex_bytes(n).len() >= 1,
        forall|i: int| 0 <= i < hex_bytes(n).len() ==> hex_val(#[trigger] hex_bytes(n)[i]) is Some,
        hex_value(hex_bytes(n)) == n,
    decreases n,
{
    let d = (n % 16) as nat;
    assert(hex_val(hex_digit(d)) == Some(d));
    if n >= 16 {
        lemma_hex_bytes(n / 16);
        let h = hex_bytes(n);
        assert(h.drop_last() =~= hex_bytes(n / 16));
        assert(h.last() == hex_digit(d));
        vstd::arithmetic::div_mod::lemma_fundamental_div_mod(n as int, 16);
        assert(hex_value(h) == hex_value(hex_bytes(n / 16)) * 16 + d);
        assert forall|i: int| 0 <= i < h.len() implies hex_val(#[trigger] h[i]) is Some by {
            if i < h.len() - 1 {
                assert(h[i] == hex_bytes(n / 16)[i]);
            }
        }
    } else {
        assert(hex_bytes(n).drop_last() =~= seq![]);
        assert(hex_value(hex_bytes(n).drop_last()) == 0);
        vstd::arithmetic::div_mod::lemma_small_mod(n, 16);
    }
}

/// Leading hexadecimal digits followed by a line break are counted exactly.
proof fn lemma_hex_prefix(h: Seq<u8>, rest: Seq<u8>)
    requires
        forall|i: int| 0 <= i < h.len() ==> hex_val(#[trigger] h[i]) is Some,
        rest.len() > 0,
        rest[0] == 13,
    ensures
        hex_prefix_len(h + rest) == h.len(),
    decreases h.len(),
{
    if h.len() > 0 {
        assert((h + rest).drop_first() =~= h.drop_first() + rest);
        assert forall|i: int| 0 <= i < h.drop_first().len() implies hex_val(
            #[trigger] h.drop_first()[i],
        ) is Some by {
            assert(h.drop_first()[i] == h[i + 1]);
        }
        lemma_hex_prefix(h.drop_first(), rest);
    } else {
        assert(h + rest =~= rest);
    }
}

/// Decoding a chunk followed by more input gives the chunk's data followed
/// by what the rest decodes to.
#[verifier::rlimit(50)]
proof fn lemma_decode_chunk(data: Seq<u8>, rest: Seq<u8>)
    requires
        data.len() > 0,
    ensures
        decode_chunked(chunk(data) + rest) == match decode_chunked(rest) {
            Some(r) => Some(data + r),
            None => None::<Seq<u8>>,
        },
{
    let h = hex_bytes(data.len());
    let s = chunk(data) + rest;
    lemma_hex_bytes(data.len());
    let tail = seq![13u8, 10u8] + data + seq![13u8, 10u8] + rest;
    assert(s =~= h + tail);
    lemma_hex_prefix(h, tail);
    let m = h.len() as int;
    assert(hex_prefix_len(s) == m);
    assert(s[m] == 13 && s[m + 1] == 10);
    assert(s.take(m) =~= h);
    assert(hex_value(s.take(m)) == data.len());
    let k = m + 2;
    let n = data.len() as int;
    assert(s[k + n] == 13 && s[k + n + 1] == 10);
    assert(s.subrange(k, k + n) =~= data);
    assert(s.subrange(k + n + 2, s.len() as int) =~= rest);
}

/// The closing chunk decodes to nothing more.
proof fn lemma_decode_last()
    ensures
        decode_chunked(last_chunk()) == Some(Seq::<u8>::empty()),
{
    let s = last_chunk();
    assert(s.drop_first()[0] == 13u8);
    assert(hex_prefix_len(s.drop_first()) == 0);
    assert(hex_val(s[0]) == Some(0nat));
    assert(hex_prefix_len(s) == 1);
    assert(s.take(1).drop_last() =~= seq![]);
    assert(s.take(1).last() == 48u8);
    assert(hex_value(s.take(1).drop_last()) == 0);
    assert(hex_value(s.take(1)) == 0);
    assert(s[1] == 13 && s[2] == 10 && s[3] == 13 && s[4] == 10 && s.len() == 5);
}

/// Reading back a body sent as non-empty chunks gives the body exactly.
pub proof fn lemma_chunked_round_trip(chunks: Seq<Seq<u8>>)
    requires
        forall|i: int| 0 <= i < chunks.len() ==> (#[trigger] chunks[i]).len() > 0,
    ensures
        decode_chunked(encode_chunks(chunks)) == Some(flatten(chunks)),
    decreases chunks.len(),
{
    if chunks.len() == 0 {
        lemma_decode_last();
    } else {
        assert forall|i: int| 0 <= i < chunks.drop_first().len() implies (
        #[trigger] chunks.drop_first()[i]).len() > 0 by {
            assert(chunks.drop_first()[i] == chunks[i + 1]);
        }
        lemma_chunked_round_trip(chunks.drop_first());
        lemma_decode_chunk(chunks[0], encode_chunks(chunks.drop_first()));
    }
}

} // verus!
