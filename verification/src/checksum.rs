//! The content checksum: a small polynomial digest over the UTF-8 bytes of
//! the content, rendered as lower-case hex.  Only equality and stability
//! matter for deduplication, so the digest is deliberately simple and fully
//! defined here.
use crate::codec::string_from_utf8;
use vstd::prelude::*;

verus! {

/// One digest step: multiply-and-add modulo a Mersenne prime.
pub open spec fn digest_step(h: nat, b: u8) -> nat {
    ((h * 31 + b) % 0x7fff_ffff) as nat
}

/// The digest of a byte string.
pub open spec fn digest(bs: Seq<u8>) -> nat
    decreases bs.len(),
{
    if bs.len() == 0 {
        0
    } else {
        digest_step(digest(bs.drop_last()), bs.last())
    }
}

/// Lower-case hex digit byte for a value below 16.
pub open spec fn hex_ascii(v: nat) -> u8
    recommends
        v < 16,
{
    if v < 10 {
        (0x30 + v) as u8
    } else {
        (0x57 + v) as u8
    }
}

/// Hex rendering of a number as ASCII bytes, most significant first.
pub open spec fn hex_bytes(n: nat) -> Seq<u8>
    decreases n,
{
    if n < 16 {
        seq![hex_ascii(n)]
    } else {
        hex_bytes(n / 16).push(hex_ascii(n % 16))
    }
}

/// The checksum of a byte string: its hex digest, given as the character
/// string whose UTF-8 encoding is those hex bytes.
pub open spec fn spec_checksum_bytes(bs: Seq<u8>) -> Seq<char> {
    vstd::utf8::decode_utf8(hex_bytes(digest(bs)))
}

/// The checksum of a character string: the digest of its UTF-8 bytes.
pub open spec fn spec_checksum(s: Seq<char>) -> Seq<char> {
    spec_checksum_bytes(vstd::utf8::encode_utf8(s))
}

proof fn lemma_digest_bound(bs: Seq<u8>)
    ensures
        digest(bs) < 0x8000_0000,
    decreases bs.len(),
{
    if bs.len() > 0 {
        lemma_digest_bound(bs.drop_last());
    }
}

proof fn lemma_hex_ascii(n: nat)
    ensures
        hex_bytes(n).len() >= 1,
        forall|i: int| 0 <= i < hex_bytes(n).len() ==> #[trigger] hex_bytes(n)[i] < 0x80,
    decreases n,
{
    if n >= 16 {
        lemma_hex_ascii(n / 16);
        assert forall|i: int| 0 <= i < hex_bytes(n).len() implies #[trigger] hex_bytes(n)[i]
            < 0x80 by {
            if i < hex_bytes(n / 16).len() {
                assert(hex_bytes(n)[i] == hex_bytes(n / 16)[i]);
            }
        }
    }
}

/// ASCII bytes form valid UTF-8 whose decoding maps each byte to its char.
proof fn lemma_ascii_utf8(bs: Seq<u8>)
    requires
        forall|i: int| 0 <= i < bs.len() ==> #[trigger] bs[i] < 0x80,
    ensures
        vstd::utf8::valid_utf8(bs),
        vstd::utf8::encode_utf8(vstd::utf8::decode_utf8(bs)) == bs,
    decreases bs.len(),
{
    let cs = Seq::new(bs.len(), |i: int| bs[i] as char);
    assert(vstd::utf8::is_ascii_chars(cs)) by {
        assert forall|i: int| 0 <= i < cs.len() implies '\0' <= #[trigger] cs[i] <= '\u{7f}' by {
            assert(cs[i] == bs[i] as char);
        }
    }
    vstd::utf8::is_ascii_chars_encode_utf8(cs);
    assert(vstd::utf8::encode_utf8(cs) =~= bs) by {
        assert forall|i: int| 0 <= i < bs.len() implies vstd::utf8::encode_utf8(cs)[i] == bs[i] by {
            assert(vstd::utf8::encode_utf8(cs)[i] == cs[i] as u8);
            assert(cs[i] == bs[i] as char);
        }
    }
    vstd::utf8::encode_utf8_valid_utf8(cs);
    vstd::utf8::encode_utf8_decode_utf8(cs);
}

fn digest_bytes(bs: &[u8]) -> (r: u64)
    ensures
        r as nat == digest(bs@),
        r < 0x8000_0000,
{
    let mut h: u64 = 0;
    let mut i: usize = 0;
    proof {
        assert(bs@.subrange(0, 0) =~= Seq::<u8>::empty());
    }
    while i < bs.len()
        invariant
            i <= bs@.len(),
            h as nat == digest(bs@.subrange(0, i as int)),
            h < 0x8000_0000,
        decreases bs@.len() - i,
    {
        let b = bs[i];
        h = (h * 31 + (b as u64)) % 0x7fff_ffff;
        proof {
            let pre = bs@.subrange(0, i as int);
            let now = bs@.subrange(0, i + 1);
            assert(now.drop_last() =~= pre);
            assert(now.last() == b);
        }
        i = i + 1;
    }
    assert(bs@.subrange(0, bs@.len() as int) =~= bs@);
    proof {
        lemma_digest_bound(bs@);
    }
    h
}

fn hex_byte(v: u64) -> (r: u8)
    requires
        v < 16,
    ensures
        r == hex_ascii(v as nat),
{
    if v < 10 {
        0x30 + (v as u8)
    } else {
        0x57 + (v as u8)
    }
}

fn push_hex(out: &mut Vec<u8>, n: u64)
    ensures
        final(out)@ == old(out)@ + hex_bytes(n as nat),
    decreases n,
{
    if n < 16 {
        out.push(hex_byte(n));
        assert(final(out)@ =~= old(out)@ + hex_bytes(n as nat));
    } else {
        push_hex(out, n / 16);
        out.push(hex_byte(n % 16));
        assert(final(out)@ =~= old(out)@ + hex_bytes(n as nat)) by {
            assert((n / 16) as nat == (n as nat) / 16);
            assert((n % 16) as nat == (n as nat) % 16);
            assert(hex_bytes(n as nat) == hex_bytes((n as nat) / 16).push(
                hex_ascii((n as nat) % 16),
            ));
        }
    }
}

/// The checksum of a byte string, as lower-case hex text.
pub fn checksum_of_bytes(bs: &[u8]) -> (r: String)
    ensures
        r@ == spec_checksum_bytes(bs@),
{
    let h = digest_bytes(bs);
    let mut hx: Vec<u8> = Vec::new();
    push_hex(&mut hx, h);
    proof {
        assert(hx@ =~= hex_bytes(h as nat));
        lemma_hex_ascii(h as nat);
        lemma_ascii_utf8(hx@);
    }
    match string_from_utf8(hx) {
        Some(out) => {
            proof {
                vstd::utf8::encode_utf8_valid_utf8(out@);
                vstd::utf8::encode_utf8_decode_utf8(out@);
                vstd::utf8::decode_utf8_encode_utf8(hex_bytes(h as nat));
            }
            out
        },
        None => {
            proof {
                assert(false);
            }
            String::new()
        },
    }
}

/// The checksum of a string, as lower-case hex text.
pub fn checksum_of_str(s: &str) -> (r: String)
    ensures
        r@ == spec_checksum(s@),
{
    checksum_of_bytes(s.as_bytes())
}

} // verus!
