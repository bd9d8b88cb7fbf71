//! Token-level building blocks of the wire text: escaped strings, decimal
//! numbers, and the big-endian length prefix.  Every token has a spec-level
//! canonical encoding, a spec-level scanner, and exec functions that are
//! proved to match them exactly.
use vstd::prelude::*;

verus! {

// ---------------------------------------------------------------------------
// Prefix predicate
// ---------------------------------------------------------------------------
/// `p` occurs in `b` starting at `pos`.
pub open spec fn is_prefix_at(p: Seq<u8>, b: Seq<u8>, pos: int) -> bool {
    0 <= pos && pos + p.len() <= b.len() && b.subrange(pos, pos + p.len()) == p
}

pub proof fn lemma_prefix_concat(x: Seq<u8>, y: Seq<u8>, b: Seq<u8>, pos: int)
    ensures
        is_prefix_at(x + y, b, pos) <==> (is_prefix_at(x, b, pos) && is_prefix_at(
            y,
            b,
            pos + x.len(),
        )),
{
    if is_prefix_at(x + y, b, pos) {
        assert(b.subrange(pos, pos + x.len()) =~= x) by {
            assert forall|i: int| 0 <= i < x.len() implies b[pos + i] == x[i] by {
                assert(b.subrange(pos, pos + (x + y).len())[i] == (x + y)[i]);
            }
        }
        assert(b.subrange(pos + x.len(), pos + x.len() + y.len()) =~= y) by {
            assert forall|i: int| 0 <= i < y.len() implies b[pos + x.len() + i] == y[i] by {
                assert(b.subrange(pos, pos + (x + y).len())[x.len() + i] == (x + y)[x.len() + i]);
            }
        }
    }
    if is_prefix_at(x, b, pos) && is_prefix_at(y, b, pos + x.len()) {
        assert(b.subrange(pos, pos + (x + y).len()) =~= x + y) by {
            assert forall|i: int| 0 <= i < (x + y).len() implies b.subrange(
                pos,
                pos + (x + y).len(),
            )[i] == (x + y)[i] by {
                if i < x.len() {
                    assert(b.subrange(pos, pos + x.len())[i] == x[i]);
                } else {
                    assert(b.subrange(pos + x.len(), pos + x.len() + y.len())[i - x.len()] == y[i
                        - x.len()]);
                }
            }
        }
    }
}

// ---------------------------------------------------------------------------
// Escaped strings
// ---------------------------------------------------------------------------
/// Lower-case hex digit for a value below 16.
pub open spec fn hex_digit(v: u8) -> u8
    recommends
        v < 16,
{
    if v < 10 {
        (0x30 + v) as u8
    } else {
        (0x57 + v) as u8
    }
}

pub open spec fn is_hex_lc(b: u8) -> bool {
    (0x30 <= b && b <= 0x39) || (0x61 <= b && b <= 0x66)
}

pub open spec fn hex_val(b: u8) -> u8
    recommends
        is_hex_lc(b),
{
    if 0x30 <= b && b <= 0x39 {
        (b - 0x30) as u8
    } else {
        (b - 0x57) as u8
    }
}

proof fn lemma_hex_digit(v: u8)
    requires
        v < 16,
    ensures
        is_hex_lc(hex_digit(v)),
        hex_val(hex_digit(v)) == v,
{
}

/// Canonical escaping of one byte of string payload: quote and backslash get a
/// two-byte escape, control bytes get `\u00xx`, everything else is kept as is.
pub open spec fn esc_byte(b: u8) -> Seq<u8> {
    if b == 0x22 {
        seq![0x5cu8, 0x22u8]
    } else if b == 0x5c {
        seq![0x5cu8, 0x5cu8]
    } else if b < 0x20 {
        seq![0x5cu8, 0x75u8, 0x30u8, 0x30u8, hex_digit(b / 16), hex_digit(b % 16)]
    } else {
        seq![b]
    }
}

pub open spec fn esc(bs: Seq<u8>) -> Seq<u8>
    decreases bs.len(),
{
    if bs.len() == 0 {
        Seq::empty()
    } else {
        esc_byte(bs[0]) + esc(bs.drop_first())
    }
}

pub proof fn lemma_esc_concat(a: Seq<u8>, b: Seq<u8>)
    ensures
        esc(a + b) == esc(a) + esc(b),
    decreases a.len(),
{
    if a.len() == 0 {
        assert(a + b =~= b);
        assert(esc(a) + esc(b) =~= esc(b));
    } else {
        assert((a + b).drop_first() =~= a.drop_first() + b);
        lemma_esc_concat(a.drop_first(), b);
        assert(esc_byte(a[0]) + (esc(a.drop_first()) + esc(b)) =~= (esc_byte(a[0]) + esc(
            a.drop_first(),
        )) + esc(b));
    }
}

/// A quoted string token for a byte payload.
pub open spec fn quoted_bytes(bs: Seq<u8>) -> Seq<u8> {
    seq![0x22u8] + esc(bs) + seq![0x22u8]
}

/// A quoted string token for a character string: quotes around the escaped
/// UTF-8 encoding.
pub open spec fn quoted(s: Seq<char>) -> Seq<u8> {
    quoted_bytes(vstd::utf8::encode_utf8(s))
}

/// Spec-level scanner for the inside of a quoted string.  `pos` points just
/// after the opening quote; `acc` holds the bytes unescaped so far.  Returns
/// the unescaped payload and the position just after the closing quote.
pub open spec fn sq_scan(b: Seq<u8>, pos: int, acc: Seq<u8>) -> Option<(Seq<u8>, int)>
    decreases b.len() - pos,
    when 0 <= pos <= b.len()
{
    if pos >= b.len() {
        None
    } else if b[pos] == 0x22 {
        Some((acc, pos + 1))
    } else if b[pos] == 0x5c {
        if pos + 1 < b.len() && b[pos + 1] == 0x22 {
            sq_scan(b, pos + 2, acc.push(0x22))
        } else if pos + 1 < b.len() && b[pos + 1] == 0x5c {
            sq_scan(b, pos + 2, acc.push(0x5c))
        } else if pos + 5 < b.len() && b[pos + 1] == 0x75 && b[pos + 2] == 0x30 && b[pos + 3]
            == 0x30 && is_hex_lc(b[pos + 4]) && is_hex_lc(b[pos + 5]) && hex_val(b[pos + 4]) * 16
            + hex_val(b[pos + 5]) < 0x20 {
            sq_scan(b, pos + 6, acc.push((hex_val(b[pos + 4]) * 16 + hex_val(b[pos + 5])) as u8))
        } else {
            None
        }
    } else if b[pos] >= 0x20 {
        sq_scan(b, pos + 1, acc.push(b[pos]))
    } else {
        None
    }
}

/// The scanner accepts the canonical escaping of any byte string.
pub proof fn lemma_sq_scan_complete(b: Seq<u8>, pos: int, acc: Seq<u8>, ub: Seq<u8>)
    requires
        0 <= pos,
        pos + esc(ub).len() + 1 <= b.len(),
        b.subrange(pos, pos + esc(ub).len()) == esc(ub),
        b[pos + esc(ub).len()] == 0x22,
    ensures
        sq_scan(b, pos, acc) == Some((acc + ub, pos + esc(ub).len() + 1)),
    decreases ub.len(),
{
    if ub.len() == 0 {
        assert(esc(ub).len() == 0);
        assert(b[pos] == 0x22);
        assert(acc + ub =~= acc);
    } else {
        let c = ub[0];
        let rest = ub.drop_first();
        assert(esc(ub) == esc_byte(c) + esc(rest));
        let k = esc_byte(c).len() as int;
        assert forall|i: int| 0 <= i < k implies b[pos + i] == esc_byte(c)[i] by {
            assert(b.subrange(pos, pos + esc(ub).len())[i] == esc(ub)[i]);
            assert(esc(ub)[i] == esc_byte(c)[i]);
        }
        assert(b[pos + 0] == esc_byte(c)[0]);
        if k >= 2 {
            assert(b[pos + 1] == esc_byte(c)[1]);
        }
        assert(b.subrange(pos + k, pos + k + esc(rest).len()) =~= esc(rest)) by {
            assert forall|i: int| 0 <= i < esc(rest).len() implies b[pos + k + i] == esc(rest)[i]
                by {
                assert(b.subrange(pos, pos + esc(ub).len())[k + i] == esc(ub)[k + i]);
                assert(esc(ub)[k + i] == esc(rest)[i]);
            }
        }
        if c == 0x22 {
            assert(b[pos] == 0x5c && b[pos + 1] == 0x22);
            lemma_sq_scan_complete(b, pos + 2, acc.push(0x22), rest);
            assert(acc.push(0x22) + rest =~= acc + ub);
        } else if c == 0x5c {
            assert(b[pos] == 0x5c && b[pos + 1] == 0x5c);
            lemma_sq_scan_complete(b, pos + 2, acc.push(0x5c), rest);
            assert(acc.push(0x5c) + rest =~= acc + ub);
        } else if c < 0x20 {
            assert(b[pos] == 0x5c && b[pos + 1] == 0x75 && b[pos + 2] == 0x30 && b[pos + 3]
                == 0x30);
            assert(b[pos + 4] == hex_digit(c / 16) && b[pos + 5] == hex_digit(c % 16));
            lemma_hex_digit(c / 16);
            lemma_hex_digit(c % 16);
            assert(hex_val(b[pos + 4]) * 16 + hex_val(b[pos + 5]) == c);
            lemma_sq_scan_complete(b, pos + 6, acc.push(c), rest);
            assert(acc.push(c) + rest =~= acc + ub);
        } else {
            assert(b[pos] == c);
            assert(c != 0x22 && c != 0x5c && c >= 0x20);
            lemma_sq_scan_complete(b, pos + 1, acc.push(c), rest);
            assert(acc.push(c) + rest =~= acc + ub);
        }
    }
}

/// Whatever the scanner accepts is the canonical escaping of what it returns.
pub proof fn lemma_sq_scan_sound(b: Seq<u8>, pos: int, acc: Seq<u8>)
    requires
        0 <= pos <= b.len(),
        sq_scan(b, pos, acc) is Some,
    ensures
        ({
            let (ub, end) = sq_scan(b, pos, acc)->Some_0;
            &&& acc.len() <= ub.len()
            &&& ub.subrange(0, acc.len() as int) == acc
            &&& pos < end <= b.len()
            &&& b.subrange(pos, end) == esc(ub.subrange(acc.len() as int, ub.len() as int))
                + seq![0x22u8]
        }),
    decreases b.len() - pos,
{
    if b[pos] == 0x22 {
        let (ub, end) = sq_scan(b, pos, acc)->Some_0;
        assert(ub == acc && end == pos + 1);
        assert(ub.subrange(0, acc.len() as int) =~= acc);
        assert(ub.subrange(acc.len() as int, ub.len() as int) =~= Seq::<u8>::empty());
        assert(b.subrange(pos, pos + 1) =~= seq![0x22u8]);
        assert(esc(Seq::<u8>::empty()) + seq![0x22u8] =~= seq![0x22u8]);
    } else if b[pos] == 0x5c {
        if pos + 1 < b.len() && b[pos + 1] == 0x22 {
            lemma_sq_scan_sound(b, pos + 2, acc.push(0x22));
            assert(b.subrange(pos, pos + 2) =~= esc_byte(0x22));
            step_glue(b, pos, acc, 0x22, 2);
        } else if pos + 1 < b.len() && b[pos + 1] == 0x5c {
            lemma_sq_scan_sound(b, pos + 2, acc.push(0x5c));
            assert(b.subrange(pos, pos + 2) =~= esc_byte(0x5c));
            step_glue(b, pos, acc, 0x5c, 2);
        } else {
            let c = (hex_val(b[pos + 4]) * 16 + hex_val(b[pos + 5])) as u8;
            lemma_sq_scan_sound(b, pos + 6, acc.push(c));
            lemma_hex_digit_inv(b[pos + 4]);
            lemma_hex_digit_inv(b[pos + 5]);
            vstd::arithmetic::div_mod::lemma_fundamental_div_mod_converse(
                c as int,
                16,
                hex_val(b[pos + 4]) as int,
                hex_val(b[pos + 5]) as int,
            );
            assert(c / 16 == hex_val(b[pos + 4]) && c % 16 == hex_val(b[pos + 5]));
            assert(b.subrange(pos, pos + 6) =~= esc_byte(c));
            step_glue(b, pos, acc, c, 6);
        }
    } else {
        let c = b[pos];
        lemma_sq_scan_sound(b, pos + 1, acc.push(c));
        assert(b.subrange(pos, pos + 1) =~= esc_byte(c));
        step_glue(b, pos, acc, c, 1);
    }
}

proof fn lemma_hex_digit_inv(d: u8)
    requires
        is_hex_lc(d),
    ensures
        hex_val(d) < 16,
        hex_digit(hex_val(d)) == d,
{
}

/// Glue step for the soundness proof: one consumed escape of width `w`
/// standing for byte `c`, followed by a sound tail scan.
proof fn step_glue(b: Seq<u8>, pos: int, acc: Seq<u8>, c: u8, w: int)
    requires
        0 <= pos,
        1 <= w,
        pos + w <= b.len(),
        b.subrange(pos, pos + w) == esc_byte(c),
        sq_scan(b, pos, acc) == sq_scan(b, pos + w, acc.push(c)),
        sq_scan(b, pos + w, acc.push(c)) is Some,
        ({
            let (ub, end) = sq_scan(b, pos + w, acc.push(c))->Some_0;
            &&& acc.push(c).len() <= ub.len()
            &&& ub.subrange(0, acc.push(c).len() as int) == acc.push(c)
            &&& pos + w < end <= b.len()
            &&& b.subrange(pos + w, end) == esc(
                ub.subrange(acc.push(c).len() as int, ub.len() as int),
            ) + seq![0x22u8]
        }),
    ensures
        ({
            let (ub, end) = sq_scan(b, pos, acc)->Some_0;
            &&& acc.len() <= ub.len()
            &&& ub.subrange(0, acc.len() as int) == acc
            &&& pos < end <= b.len()
            &&& b.subrange(pos, end) == esc(ub.subrange(acc.len() as int, ub.len() as int))
                + seq![0x22u8]
        }),
{
    let r = sq_scan(b, pos + w, acc.push(c));
    if r is Some {
        let (ub, end) = r->Some_0;
        assert(acc.push(c).len() <= ub.len());
        assert(pos + w < end <= b.len());
        assert(ub.subrange(0, acc.len() as int) =~= acc) by {
            assert forall|i: int| 0 <= i < acc.len() implies ub[i] == acc[i] by {
                assert(ub.subrange(0, acc.len() as int + 1)[i] == acc.push(c)[i]);
            }
        }
        let tail = ub.subrange(acc.len() as int, ub.len() as int);
        let tail1 = ub.subrange(acc.len() as int + 1, ub.len() as int);
        assert(tail[0] == c) by {
            assert(ub.subrange(0, acc.len() as int + 1)[acc.len() as int] == acc.push(c)[acc.len() as int]);
        }
        assert(tail.drop_first() =~= tail1);
        assert(esc(tail) == esc_byte(c) + esc(tail1));
        assert(b.subrange(pos, end) =~= b.subrange(pos, pos + w) + b.subrange(pos + w, end)) by {
            assert forall|i: int| 0 <= i < end - pos implies b.subrange(pos, end)[i] == (b.subrange(
                pos,
                pos + w,
            ) + b.subrange(pos + w, end))[i] by {
                if i < w {
                    assert(b.subrange(pos, pos + w)[i] == b[pos + i]);
                } else {
                    assert(b.subrange(pos + w, end)[i - w] == b[pos + i]);
                }
            }
        }
        assert(esc_byte(c) + (esc(tail1) + seq![0x22u8]) =~= (esc_byte(c) + esc(tail1))
            + seq![0x22u8]);
        assert(b.subrange(pos, end) == esc(tail) + seq![0x22u8]);
    }
}

// ---------------------------------------------------------------------------
// Decimal numbers
// ---------------------------------------------------------------------------
pub open spec fn is_digit(b: u8) -> bool {
    0x30 <= b && b <= 0x39
}

pub open spec fn dval(b: u8) -> nat
    recommends
        is_digit(b),
{
    (b - 0x30) as nat
}

/// Canonical decimal encoding of an unsigned number.
pub open spec fn dec_nat(n: nat) -> Seq<u8>
    decreases n,
{
    if n < 10 {
        seq![(0x30 + n) as u8]
    } else {
        dec_nat(n / 10).push((0x30 + n % 10) as u8)
    }
}

/// Canonical decimal encoding of a signed number.
pub open spec fn dec_int(v: int) -> Seq<u8> {
    if v < 0 {
        seq![0x2du8] + dec_nat((-v) as nat)
    } else {
        dec_nat(v as nat)
    }
}

pub open spec fn pow10(k: nat) -> nat
    decreases k,
{
    if k == 0 {
        1
    } else {
        10 * pow10((k - 1) as nat)
    }
}

proof fn lemma_pow10_pos(k: nat)
    ensures
        pow10(k) >= 1,
    decreases k,
{
    if k > 0 {
        lemma_pow10_pos((k - 1) as nat);
    }
}

pub proof fn lemma_dec_nat_shape(n: nat)
    ensures
        dec_nat(n).len() >= 1,
        forall|i: int| 0 <= i < dec_nat(n).len() ==> is_digit(#[trigger] dec_nat(n)[i]),
        dec_nat(n)[0] == 0x30 <==> n == 0,
    decreases n,
{
    if n >= 10 {
        lemma_dec_nat_shape(n / 10);
        assert(n / 10 >= 1);
        assert(dec_nat(n)[0] == dec_nat(n / 10)[0]);
    }
}

/// Value of a digit string, most significant first.
pub open spec fn dval_seq(ds: Seq<u8>) -> nat
    decreases ds.len(),
{
    if ds.len() == 0 {
        0
    } else {
        dval_seq(ds.drop_last()) * 10 + dval(ds.last())
    }
}

proof fn lemma_dval_seq_first(ds: Seq<u8>)
    requires
        ds.len() >= 1,
    ensures
        dval_seq(ds) == dval(ds[0]) * pow10((ds.len() - 1) as nat) + dval_seq(ds.drop_first()),
    decreases ds.len(),
{
    if ds.len() == 1 {
        assert(ds.drop_last().len() == 0);
        assert(ds.drop_first().len() == 0);
        assert(dval_seq(ds.drop_last()) == 0);
        assert(dval_seq(ds.drop_first()) == 0);
        assert(ds.last() == ds[0]);
        assert(pow10(0) == 1);
        assert((ds.len() - 1) as nat == 0);
        assert(dval_seq(ds) == dval(ds[0]));
        assert(dval(ds[0]) * 1 == dval(ds[0])) by (nonlinear_arith);
        assert(dval_seq(ds) == dval(ds[0]) * pow10((ds.len() - 1) as nat) + dval_seq(
            ds.drop_first(),
        ));
    } else {
        let e = ds.drop_last();
        lemma_dval_seq_first(e);
        assert(e[0] == ds[0]);
        assert(e.drop_first() =~= ds.drop_first().drop_last());
        assert(ds.drop_first().last() == ds.last());
        let k = (e.len() - 1) as nat;
        assert(dval_seq(ds) == (dval(ds[0]) * pow10(k) + dval_seq(e.drop_first())) * 10 + dval(
            ds.last(),
        ));
        assert((dval(ds[0]) * pow10(k) + dval_seq(e.drop_first())) * 10 + dval(ds.last()) == dval(
            ds[0],
        ) * (pow10(k) * 10) + (dval_seq(e.drop_first()) * 10 + dval(ds.last()))) by (nonlinear_arith);
        assert(pow10(k) * 10 == pow10((ds.len() - 1) as nat)) by {
            assert((ds.len() - 1) as nat == k + 1);
            assert(pow10(k + 1) == 10 * pow10(k));
        }
        assert(dval_seq(ds.drop_first()) == dval_seq(ds.drop_first().drop_last()) * 10 + dval(
            ds.drop_first().last(),
        ));
        assert(dval_seq(ds.drop_first()) == dval_seq(e.drop_first()) * 10 + dval(ds.last()));
        assert(dval(ds[0]) * (pow10(k) * 10) == dval(ds[0]) * pow10((ds.len() - 1) as nat))
            by (nonlinear_arith)
            requires
                pow10(k) * 10 == pow10((ds.len() - 1) as nat),
        ;
    }
}

/// The canonical encoding is the unique leading-zero-free digit string with a
/// given value.
proof fn lemma_dec_of_digits(ds: Seq<u8>)
    requires
        ds.len() >= 1,
        forall|i: int| 0 <= i < ds.len() ==> is_digit(#[trigger] ds[i]),
        ds[0] != 0x30 || ds.len() == 1,
    ensures
        dec_nat(dval_seq(ds)) == ds,
    decreases ds.len(),
{
    if ds.len() == 1 {
        assert(ds.drop_last().len() == 0);
        assert(dval_seq(ds.drop_last()) == 0);
        assert(ds.last() == ds[0]);
        assert(dval_seq(ds) == dval(ds[0]));
        assert(dval_seq(ds) < 10);
        assert(dec_nat(dval_seq(ds)) =~= ds);
    } else {
        let e = ds.drop_last();
        let d = ds.last();
        let m = dval_seq(e);
        assert(e[0] == ds[0] && e[0] != 0x30);
        assert(m >= 1) by {
            lemma_dval_seq_first(e);
            lemma_pow10_pos((e.len() - 1) as nat);
            assert(dval(e[0]) >= 1);
            assert(dval(e[0]) * pow10((e.len() - 1) as nat) >= 1) by (nonlinear_arith)
                requires
                    dval(e[0]) >= 1,
                    pow10((e.len() - 1) as nat) >= 1,
            ;
        }
        let n = dval_seq(ds);
        assert(n == m * 10 + dval(d));
        assert(n >= 10) by (nonlinear_arith)
            requires
                m >= 1,
                n == m * 10 + dval(d),
                dval(d) >= 0,
        ;
        assert(n / 10 == m && n % 10 == dval(d)) by (nonlinear_arith)
            requires
                n == m * 10 + dval(d),
                dval(d) < 10,
                m >= 0,
        ;
        lemma_dec_of_digits(e);
        assert((0x30 + n % 10) as u8 == d);
        assert(dec_nat(n) =~= ds);
    }
}

/// Scanning walks over the digits of `n`, multiplying the accumulator up.
proof fn lemma_num_scan_passes(b: Seq<u8>, pos: int, acc: nat, n: nat)
    requires
        is_prefix_at(dec_nat(n), b, pos),
        acc * pow10(dec_nat(n).len() as nat) + n <= 0xffff_ffff_ffff_ffff,
    ensures
        num_scan(b, pos, acc) == num_scan(
            b,
            pos + dec_nat(n).len(),
            (acc * pow10(dec_nat(n).len() as nat) + n) as nat,
        ),
    decreases n,
{
    lemma_dec_nat_shape(n);
    let w = dec_nat(n).len() as int;
    if n < 10 {
        assert(b[pos] == dec_nat(n)[0]) by {
            assert(b.subrange(pos, pos + 1)[0] == dec_nat(n)[0]);
        }
        assert(b[pos] == (0x30 + n) as u8);
        assert(is_digit(b[pos]) && dval(b[pos]) == n);
        assert(pow10(0) == 1);
        assert(pow10(1) == 10);
        assert(acc * 10 + n <= 0xffff_ffff_ffff_ffff);
    } else {
        let hi = n / 10;
        let lo = n % 10;
        let dh = dec_nat(hi);
        let wh = dh.len() as int;
        assert(dec_nat(n) == dh.push((0x30 + lo) as u8));
        assert(is_prefix_at(dh, b, pos)) by {
            assert(b.subrange(pos, pos + wh) =~= dh) by {
                assert forall|i: int| 0 <= i < wh implies b[pos + i] == dh[i] by {
                    assert(b.subrange(pos, pos + w)[i] == dec_nat(n)[i]);
                }
            }
        }
        assert(b[pos + wh] == (0x30 + lo) as u8) by {
            assert(b.subrange(pos, pos + w)[wh] == dec_nat(n)[wh]);
        }
        assert(n == hi * 10 + lo) by {
            vstd::arithmetic::div_mod::lemma_fundamental_div_mod(n as int, 10);
        }
        assert(pow10(dec_nat(n).len() as nat) == pow10(dh.len() as nat) * 10) by {
            assert(dec_nat(n).len() as nat == dh.len() as nat + 1);
            assert(pow10(dh.len() as nat + 1) == 10 * pow10(dh.len() as nat));
        }
        lemma_pow10_pos(dh.len() as nat);
        assert(acc * pow10(dh.len() as nat) + hi <= 0xffff_ffff_ffff_ffff) by (nonlinear_arith)
            requires
                acc * (pow10(dh.len() as nat) * 10) + n <= 0xffff_ffff_ffff_ffff,
                n == hi * 10 + lo,
                0 <= lo,
                0 <= hi,
                0 <= acc,
                pow10(dh.len() as nat) >= 1,
        ;
        lemma_num_scan_passes(b, pos, acc, hi);
        let acc2 = (acc * pow10(dh.len() as nat) + hi) as nat;
        assert(is_digit(b[pos + wh]) && dval(b[pos + wh]) == lo);
        assert(acc2 * 10 + lo == acc * pow10(dec_nat(n).len() as nat) + n) by (nonlinear_arith)
            requires
                acc2 == acc * pow10(dh.len() as nat) + hi,
                pow10(dec_nat(n).len() as nat) == pow10(dh.len() as nat) * 10,
                n == hi * 10 + lo,
        ;
        assert(acc2 * 10 + dval(b[pos + wh]) <= 0xffff_ffff_ffff_ffff);
        assert(num_scan(b, pos + wh, acc2) == num_scan(b, pos + wh + 1, (acc2 * 10 + lo) as nat));
    }
}

/// Spec-level scanner for an unbroken run of digits, with 64-bit overflow
/// rejection; stops at the first non-digit or at the end of the buffer.
pub open spec fn num_scan(b: Seq<u8>, pos: int, acc: nat) -> Option<(nat, int)>
    decreases b.len() - pos,
    when 0 <= pos <= b.len()
{
    if pos >= b.len() {
        Some((acc, pos))
    } else if is_digit(b[pos]) {
        if acc * 10 + dval(b[pos]) > 0xffff_ffff_ffff_ffff {
            None
        } else {
            num_scan(b, pos + 1, (acc * 10 + dval(b[pos])) as nat)
        }
    } else {
        Some((acc, pos))
    }
}

/// Spec-level scanner for one canonical unsigned number: at least one digit,
/// no leading zero, value within 64 bits.
pub open spec fn u64_scan(b: Seq<u8>, pos: int) -> Option<(nat, int)> {
    if pos < 0 || pos >= b.len() || !is_digit(b[pos]) {
        None
    } else if b[pos] == 0x30 {
        if pos + 1 < b.len() && is_digit(b[pos + 1]) {
            None
        } else {
            Some((0, pos + 1))
        }
    } else {
        num_scan(b, pos, 0)
    }
}

/// Spec-level scanner for one canonical signed 64-bit number.
pub open spec fn i64_scan(b: Seq<u8>, pos: int) -> Option<(int, int)> {
    if 0 <= pos && pos < b.len() && b[pos] == 0x2d {
        match u64_scan(b, pos + 1) {
            Some((v, end)) => if 1 <= v <= 0x8000_0000_0000_0000 {
                Some((-(v as int), end))
            } else {
                None
            },
            None => None,
        }
    } else {
        match u64_scan(b, pos) {
            Some((v, end)) => if v <= 0x7fff_ffff_ffff_ffff {
                Some((v as int, end))
            } else {
                None
            },
            None => None,
        }
    }
}

/// The scanner accepts the canonical encoding of any 64-bit number whose
/// digits are followed by a non-digit (or by the end of the buffer).
pub proof fn lemma_u64_scan_complete(b: Seq<u8>, pos: int, n: nat)
    requires
        n <= 0xffff_ffff_ffff_ffff,
        is_prefix_at(dec_nat(n), b, pos),
        pos + dec_nat(n).len() == b.len() || !is_digit(b[pos + dec_nat(n).len()]),
    ensures
        u64_scan(b, pos) == Some((n, pos + dec_nat(n).len())),
{
    lemma_dec_nat_shape(n);
    let w = dec_nat(n).len() as int;
    assert(b[pos] == dec_nat(n)[0]) by {
        assert(b.subrange(pos, pos + w)[0] == dec_nat(n)[0]);
    }
    if n == 0 {
        assert(dec_nat(n) =~= seq![0x30u8]);
        assert(b[pos] == 0x30);
    } else {
        assert(b[pos] != 0x30);
        assert(is_digit(b[pos]));
        lemma_pow10_pos(dec_nat(n).len() as nat);
        lemma_num_scan_passes(b, pos, 0, n);
        assert(0 * pow10(dec_nat(n).len() as nat) + n == n) by (nonlinear_arith);
        assert(num_scan(b, pos + w, n) == Some((n, pos + w)));
    }
}

/// Whatever the unsigned scanner accepts is the canonical encoding of the
/// number it returns.
pub proof fn lemma_u64_scan_sound(b: Seq<u8>, pos: int)
    requires
        u64_scan(b, pos) is Some,
    ensures
        ({
            let (n, end) = u64_scan(b, pos)->Some_0;
            &&& n <= 0xffff_ffff_ffff_ffff
            &&& is_prefix_at(dec_nat(n), b, pos)
            &&& end == pos + dec_nat(n).len()
            &&& end == b.len() || !is_digit(b[end])
        }),
{
    let (n, end) = u64_scan(b, pos)->Some_0;
    if b[pos] == 0x30 {
        assert(n == 0 && end == pos + 1);
        assert(dec_nat(0) =~= seq![0x30u8]);
        assert(b.subrange(pos, pos + 1) =~= seq![0x30u8]);
    } else {
        lemma_num_scan_sound(b, pos, 0);
        let ds = b.subrange(pos, end);
        assert(ds[0] == b[pos]);
        assert(ds[0] != 0x30);
        assert(n == 0 * pow10((end - pos) as nat) + dval_seq(ds));
        assert(0 * pow10((end - pos) as nat) == 0) by (nonlinear_arith);
        lemma_dec_of_digits(ds);
    }
}

/// Soundness of the digit-run scanner: the consumed region is all digits, is
/// followed by a non-digit, and carries the returned value.
proof fn lemma_num_scan_sound(b: Seq<u8>, pos: int, acc: nat)
    requires
        0 <= pos <= b.len(),
        acc <= 0xffff_ffff_ffff_ffff,
        num_scan(b, pos, acc) is Some,
    ensures
        ({
            let (v, end) = num_scan(b, pos, acc)->Some_0;
            &&& pos <= end <= b.len()
            &&& (end == b.len() || !is_digit(b[end]))
            &&& (forall|i: int| pos <= i < end ==> is_digit(#[trigger] b[i]))
            &&& (pos < end ==> is_digit(b[pos]))
            &&& v == acc * pow10((end - pos) as nat) + dval_seq(b.subrange(pos, end))
            &&& v <= 0xffff_ffff_ffff_ffff
        }),
    decreases b.len() - pos,
{
    let (v, end) = num_scan(b, pos, acc)->Some_0;
    if pos >= b.len() || !is_digit(b[pos]) {
        assert(v == acc && end == pos);
        assert(b.subrange(pos, end).len() == 0);
        assert(dval_seq(b.subrange(pos, end)) == 0);
        assert(pow10(0) == 1);
        assert((end - pos) as nat == 0);
        assert(acc * 1 == acc) by (nonlinear_arith);
        assert(v == acc * pow10((end - pos) as nat) + dval_seq(b.subrange(pos, end)));
    } else {
        let d = dval(b[pos]);
        assert(acc * 10 + d <= 0xffff_ffff_ffff_ffff);
        let acc2 = (acc * 10 + d) as nat;
        assert(num_scan(b, pos, acc) == num_scan(b, pos + 1, acc2));
        lemma_num_scan_sound(b, pos + 1, acc2);
        assert(num_scan(b, pos + 1, acc2) == Some((v, end)));
        assert(pos + 1 <= end <= b.len());
        assert(v == acc2 * pow10((end - pos - 1) as nat) + dval_seq(b.subrange(pos + 1, end)));
        let k = (end - pos - 1) as nat;
        let rest = b.subrange(pos + 1, end);
        let whole = b.subrange(pos, end);
        assert(whole.len() >= 1);
        assert(whole[0] == b[pos]);
        assert(whole.drop_first() =~= rest);
        lemma_dval_seq_first(whole);
        assert(dval_seq(whole) == d * pow10(k) + dval_seq(rest));
        assert((acc * 10 + d) * pow10(k) == acc * (10 * pow10(k)) + d * pow10(k))
            by (nonlinear_arith);
        assert(pow10(k + 1) == 10 * pow10(k));
        assert((end - pos) as nat == k + 1);
        assert(acc * pow10(k + 1) == acc * (10 * pow10(k))) by (nonlinear_arith)
            requires
                pow10(k + 1) == 10 * pow10(k),
        ;
        assert(v == acc * pow10(k + 1) + dval_seq(whole));
        assert(forall|i: int| pos <= i < end ==> is_digit(#[trigger] b[i])) by {
            assert(is_digit(b[pos]));
            assert(forall|i: int| pos + 1 <= i < end ==> is_digit(#[trigger] b[i]));
        }
    }
}

/// The signed scanner accepts the canonical encoding of any 64-bit signed
/// number whose digits are followed by a non-digit (or the end of the buffer).
pub proof fn lemma_i64_scan_complete(b: Seq<u8>, pos: int, v: int)
    requires
        -0x8000_0000_0000_0000 <= v <= 0x7fff_ffff_ffff_ffff,
        is_prefix_at(dec_int(v), b, pos),
        pos + dec_int(v).len() == b.len() || !is_digit(b[pos + dec_int(v).len()]),
    ensures
        i64_scan(b, pos) == Some((v, pos + dec_int(v).len())),
{
    if v >= 0 {
        lemma_dec_nat_shape(v as nat);
        assert(b[pos] == dec_int(v)[0]) by {
            assert(b.subrange(pos, pos + dec_int(v).len())[0] == dec_int(v)[0]);
        }
        assert(is_digit(b[pos]));
        assert(b[pos] != 0x2d);
        lemma_u64_scan_complete(b, pos, v as nat);
    } else {
        let n = (-v) as nat;
        lemma_dec_nat_shape(n);
        lemma_prefix_concat(seq![0x2du8], dec_nat(n), b, pos);
        assert(b[pos] == 0x2d) by {
            assert(b.subrange(pos, pos + 1)[0] == 0x2d);
        }
        assert(pos + 1 + dec_nat(n).len() == b.len() || !is_digit(b[pos + 1 + dec_nat(n).len()]));
        lemma_u64_scan_complete(b, pos + 1, n);
        assert(1 <= n <= 0x8000_0000_0000_0000);
    }
}

/// Whatever the signed scanner accepts is the canonical encoding of the
/// number it returns.
pub proof fn lemma_i64_scan_sound(b: Seq<u8>, pos: int)
    requires
        i64_scan(b, pos) is Some,
    ensures
        ({
            let (v, end) = i64_scan(b, pos)->Some_0;
            &&& -0x8000_0000_0000_0000 <= v <= 0x7fff_ffff_ffff_ffff
            &&& is_prefix_at(dec_int(v), b, pos)
            &&& end == pos + dec_int(v).len()
            &&& end == b.len() || !is_digit(b[end])
        }),
{
    let (v, end) = i64_scan(b, pos)->Some_0;
    if 0 <= pos && pos < b.len() && b[pos] == 0x2d {
        lemma_u64_scan_sound(b, pos + 1);
        let (n, e2) = u64_scan(b, pos + 1)->Some_0;
        assert(v == -(n as int) && end == e2);
        assert(dec_int(v) == seq![0x2du8] + dec_nat(n));
        lemma_prefix_concat(seq![0x2du8], dec_nat(n), b, pos);
        assert(b.subrange(pos, pos + 1) =~= seq![0x2du8]);
    } else {
        lemma_u64_scan_sound(b, pos);
    }
}

/// Relies on `String::from_utf8`: it succeeds exactly on valid UTF-8 input
/// and returns the string whose UTF-8 encoding is that input.
#[verifier::external_body]
pub fn string_from_utf8(bytes: Vec<u8>) -> (r: Option<String>)
    ensures
        r matches Some(s) ==> vstd::utf8::encode_utf8(s@) == bytes@,
        vstd::utf8::valid_utf8(bytes@) ==> r is Some,
{
    match String::from_utf8(bytes) {
        Ok(s) => Some(s),
        Err(_) => None,
    }
}

/// String equality, decided through the UTF-8 encodings.
pub fn str_eq(a: &str, b: &str) -> (r: bool)
    ensures
        r == (a@ == b@),
{
    let ab = a.as_bytes();
    let bb = b.as_bytes();
    if ab.len() != bb.len() {
        proof {
            if a@ == b@ {
                assert(ab@ == bb@);
            }
        }
        return false;
    }
    let mut i: usize = 0;
    while i < ab.len()
        invariant
            ab@ == vstd::utf8::encode_utf8(a@),
            bb@ == vstd::utf8::encode_utf8(b@),
            ab@.len() == bb@.len(),
            i <= ab@.len(),
            forall|j: int| 0 <= j < i ==> ab@[j] == bb@[j],
        decreases ab@.len() - i,
    {
        if ab[i] != bb[i] {
            proof {
                if a@ == b@ {
                    assert(ab@ == bb@);
                }
            }
            return false;
        }
        i = i + 1;
    }
    proof {
        assert(ab@ =~= bb@);
        vstd::utf8::encode_utf8_decode_utf8(a@);
        vstd::utf8::encode_utf8_decode_utf8(b@);
    }
    true
}

// ---------------------------------------------------------------------------
// Big-endian 32-bit length prefix
// ---------------------------------------------------------------------------
/// The number held by the first four bytes of `b`, big endian.
pub open spec fn be32_at(b: Seq<u8>) -> int
    recommends
        b.len() >= 4,
{
    b[0] * 0x100_0000 + b[1] * 0x1_0000 + b[2] * 0x100 + b[3]
}

/// The four-byte big-endian encoding of `n`.
pub open spec fn be32_bytes(n: int) -> Seq<u8>
    recommends
        0 <= n < 0x1_0000_0000,
{
    seq![
        ((n / 0x100_0000) % 0x100) as u8,
        ((n / 0x1_0000) % 0x100) as u8,
        ((n / 0x100) % 0x100) as u8,
        (n % 0x100) as u8,
    ]
}

/// Two adjacent regions of `b` concatenate.
pub proof fn lemma_seg_glue(b: Seq<u8>, i: int, j: int, k: int, x: Seq<u8>, y: Seq<u8>)
    requires
        0 <= i <= j <= k <= b.len(),
        b.subrange(i, j) == x,
        b.subrange(j, k) == y,
    ensures
        b.subrange(i, k) == x + y,
{
    assert(b.subrange(i, k) =~= x + y) by {
        assert forall|q: int| 0 <= q < k - i implies b.subrange(i, k)[q] == (x + y)[q] by {
            if q < j - i {
                assert(b.subrange(i, j)[q] == b[i + q]);
            } else {
                assert(b.subrange(j, k)[q - (j - i)] == b[i + q]);
            }
        }
    }
}

/// The first four bytes of a buffer are the encoding of the number they hold.
pub proof fn lemma_be32_bytes_at(b: Seq<u8>)
    requires
        b.len() >= 4,
    ensures
        0 <= be32_at(b) < 0x1_0000_0000,
        be32_bytes(be32_at(b)) == b.subrange(0, 4),
{
    let x0 = b[0];
    let x1 = b[1];
    let x2 = b[2];
    let x3 = b[3];
    let vi = (x0 as int) * 0x100_0000 + (x1 as int) * 0x1_0000 + (x2 as int) * 0x100 + (
    x3 as int);
    let v = vi as u32;
    assert(0 <= vi < 0x1_0000_0000);
    assert(v == vi);
    assert((v / 0x100_0000) % 0x100 == x0 as u32 && (v / 0x1_0000) % 0x100 == x1 as u32 && (v
        / 0x100) % 0x100 == x2 as u32 && v % 0x100 == x3 as u32) by (bit_vector)
        requires
            v == (x0 as u32) * 0x100_0000 + (x1 as u32) * 0x1_0000 + (x2 as u32) * 0x100 + (
            x3 as u32),
    ;
    assert(be32_bytes(be32_at(b)) =~= b.subrange(0, 4));
}

pub proof fn lemma_be32_roundtrip(n: int)
    requires
        0 <= n < 0x1_0000_0000,
    ensures
        be32_bytes(n).len() == 4,
        be32_at(be32_bytes(n)) == n,
{
    let x = n as u32;
    assert(((x / 0x100_0000) % 0x100) * 0x100_0000 + ((x / 0x1_0000) % 0x100) * 0x1_0000 + ((x
        / 0x100) % 0x100) * 0x100 + (x % 0x100) == x) by (bit_vector);
}

// ---------------------------------------------------------------------------
// Exec writers
// ---------------------------------------------------------------------------
/// Append a byte slice.
pub fn push_slice(out: &mut Vec<u8>, s: &[u8])
    ensures
        final(out)@ == old(out)@ + s@,
{
    out.extend_from_slice(s);
}

fn hexd(v: u8) -> (r: u8)
    requires
        v < 16,
    ensures
        r == hex_digit(v),
{
    if v < 10 {
        0x30 + v
    } else {
        0x57 + v
    }
}

/// Append the canonical escaping of `data`.
pub fn push_escaped(out: &mut Vec<u8>, data: &[u8])
    ensures
        final(out)@ == old(out)@ + esc(data@),
{
    let ghost start = out@;
    let mut i: usize = 0;
    while i < data.len()
        invariant
            i <= data@.len(),
            out@ == start + esc(data@.subrange(0, i as int)),
        decreases data@.len() - i,
    {
        let c = data[i];
        if c == 0x22 {
            out.push(0x5c);
            out.push(0x22);
        } else if c == 0x5c {
            out.push(0x5c);
            out.push(0x5c);
        } else if c < 0x20 {
            out.push(0x5c);
            out.push(0x75);
            out.push(0x30);
            out.push(0x30);
            out.push(hexd(c / 16));
            out.push(hexd(c % 16));
        } else {
            out.push(c);
        }
        proof {
            let pre = data@.subrange(0, i as int);
            assert(data@.subrange(0, i + 1) =~= pre + seq![c]);
            lemma_esc_concat(pre, seq![c]);
            assert(esc(seq![c]) =~= esc_byte(c)) by {
                assert(seq![c].drop_first().len() == 0);
                assert(esc(seq![c].drop_first()) == Seq::<u8>::empty());
            }
            assert(start + esc(pre) + esc_byte(c) =~= start + (esc(pre) + esc_byte(c)));
        }
        i = i + 1;
    }
    assert(data@.subrange(0, data@.len() as int) =~= data@);
}

/// Append one quoted string token.
pub fn push_quoted(out: &mut Vec<u8>, s: &str)
    ensures
        final(out)@ == old(out)@ + quoted(s@),
{
    let ghost start = out@;
    out.push(0x22);
    push_escaped(out, s.as_bytes());
    out.push(0x22);
    proof {
        let e = esc(vstd::utf8::encode_utf8(s@));
        assert(out@ =~= start + quoted(s@)) by {
            assert(out@ == start + seq![0x22u8] + e + seq![0x22u8]);
            assert(quoted(s@) == seq![0x22u8] + e + seq![0x22u8]);
        }
    }
}

/// Append the canonical decimal form of an unsigned number.
pub fn push_u64(out: &mut Vec<u8>, n: u64)
    ensures
        final(out)@ == old(out)@ + dec_nat(n as nat),
    decreases n,
{
    if n < 10 {
        out.push(0x30 + (n as u8));
        assert(old(out)@ + seq![(0x30 + n as nat) as u8] =~= out@);
    } else {
        push_u64(out, n / 10);
        out.push(0x30 + ((n % 10) as u8));
        assert(old(out)@ + dec_nat(n as nat) =~= out@) by {
            assert(dec_nat(n as nat) == dec_nat((n as nat) / 10).push((0x30 + (n as nat) % 10) as u8));
        }
    }
}

/// Append the canonical decimal form of a signed number.
pub fn push_i64(out: &mut Vec<u8>, v: i64)
    ensures
        final(out)@ == old(out)@ + dec_int(v as int),
{
    if v < 0 {
        out.push(0x2d);
        let m: u64 = if v == -0x7fff_ffff_ffff_ffff - 1 {
            0x8000_0000_0000_0000
        } else {
            (-v) as u64
        };
        assert(m as nat == (-(v as int)) as nat);
        push_u64(out, m);
        assert(old(out)@ + dec_int(v as int) =~= out@);
    } else {
        push_u64(out, v as u64);
    }
}

/// Append the four-byte big-endian length.
pub fn push_be32(out: &mut Vec<u8>, n: u32)
    ensures
        final(out)@ == old(out)@ + be32_bytes(n as int),
{
    out.push(((n / 0x100_0000) % 0x100) as u8);
    out.push(((n / 0x1_0000) % 0x100) as u8);
    out.push(((n / 0x100) % 0x100) as u8);
    out.push((n % 0x100) as u8);
    assert(old(out)@ + be32_bytes(n as int) =~= out@);
}

// ---------------------------------------------------------------------------
// Exec readers
// ---------------------------------------------------------------------------
/// The number in the first four bytes of `b`, big endian.
pub fn read_be32(b: &[u8]) -> (r: u64)
    requires
        b@.len() >= 4,
    ensures
        r == be32_at(b@),
        r < 0x1_0000_0000,
{
    (b[0] as u64) * 0x100_0000 + (b[1] as u64) * 0x1_0000 + (b[2] as u64) * 0x100 + (b[3] as u64)
}

/// Does `lit` occur in `b` at `pos`?
pub fn match_at(b: &[u8], pos: usize, lit: &[u8]) -> (r: bool)
    requires
        pos <= b@.len(),
    ensures
        r == is_prefix_at(lit@, b@, pos as int),
{
    if b.len() - pos < lit.len() {
        return false;
    }
    let n = b.len();
    let mut i: usize = 0;
    while i < lit.len()
        invariant
            n == b@.len(),
            pos + lit@.len() <= b@.len(),
            i <= lit@.len(),
            forall|j: int| 0 <= j < i ==> b@[pos + j] == lit@[j],
        decreases lit@.len() - i,
    {
        assert(pos + i < n);
        if b[pos + i] != lit[i] {
            assert(!is_prefix_at(lit@, b@, pos as int)) by {
                if is_prefix_at(lit@, b@, pos as int) {
                    assert(b@.subrange(pos as int, pos + lit@.len())[i as int] == lit@[i as int]);
                }
            }
            return false;
        }
        i = i + 1;
    }
    assert(b@.subrange(pos as int, pos + lit@.len()) =~= lit@);
    true
}

fn is_hex_b(c: u8) -> (r: bool)
    ensures
        r == is_hex_lc(c),
{
    (0x30 <= c && c <= 0x39) || (0x61 <= c && c <= 0x66)
}

fn hexv(c: u8) -> (r: u8)
    requires
        is_hex_lc(c),
    ensures
        r == hex_val(c),
{
    if 0x30 <= c && c <= 0x39 {
        c - 0x30
    } else {
        c - 0x57
    }
}

/// Scan one quoted string's body, starting just after the opening quote;
/// mirrors `sq_scan` exactly.
pub fn scan_quoted(b: &[u8], pos: usize) -> (r: Option<(Vec<u8>, usize)>)
    requires
        pos <= b@.len(),
    ensures
        r matches Some((ub, end)) ==> sq_scan(b@, pos as int, Seq::empty()) == Some(
            (ub@, end as int),
        ) && pos < end <= b@.len(),
        r is None ==> sq_scan(b@, pos as int, Seq::empty()) is None,
{
    let mut i: usize = pos;
    let mut acc: Vec<u8> = Vec::new();
    loop
        invariant
            pos <= i <= b@.len(),
            sq_scan(b@, pos as int, Seq::empty()) == sq_scan(b@, i as int, acc@),
        decreases b@.len() - i,
    {
        if i >= b.len() {
            return None;
        }
        let c = b[i];
        if c == 0x22 {
            return Some((acc, i + 1));
        } else if c == 0x5c {
            if i + 1 < b.len() && b[i + 1] == 0x22 {
                acc.push(0x22);
                i = i + 2;
            } else if i + 1 < b.len() && b[i + 1] == 0x5c {
                acc.push(0x5c);
                i = i + 2;
            } else if b.len() - i > 5 && b[i + 1] == 0x75 && b[i + 2] == 0x30 && b[i + 3] == 0x30
                && is_hex_b(b[i + 4]) && is_hex_b(b[i + 5]) && hexv(b[i + 4]) * 16 + hexv(b[i + 5])
                < 0x20 {
                acc.push(hexv(b[i + 4]) * 16 + hexv(b[i + 5]));
                i = i + 6;
            } else {
                return None;
            }
        } else if c >= 0x20 {
            acc.push(c);
            i = i + 1;
        } else {
            return None;
        }
    }
}

/// Parse one canonical unsigned number; mirrors `u64_scan` exactly.
pub fn parse_u64(b: &[u8], pos: usize) -> (r: Option<(u64, usize)>)
    requires
        pos <= b@.len(),
    ensures
        r matches Some((v, end)) ==> u64_scan(b@, pos as int) == Some((v as nat, end as int))
            && pos < end <= b@.len(),
        r is None ==> u64_scan(b@, pos as int) is None,
{
    if pos >= b.len() {
        return None;
    }
    let c = b[pos];
    if !(0x30 <= c && c <= 0x39) {
        return None;
    }
    if c == 0x30 {
        if pos + 1 < b.len() && 0x30 <= b[pos + 1] && b[pos + 1] <= 0x39 {
            return None;
        }
        return Some((0, pos + 1));
    }
    let mut i: usize = pos;
    let mut acc: u64 = 0;
    loop
        invariant
            pos <= i <= b@.len(),
            pos < b@.len(),
            is_digit(b@[pos as int]),
            b@[pos as int] != 0x30,
            num_scan(b@, pos as int, 0) == num_scan(b@, i as int, acc as nat),
        decreases b@.len() - i,
    {
        if i >= b.len() || !(0x30 <= b[i] && b[i] <= 0x39) {
            assert(num_scan(b@, i as int, acc as nat) == Some((acc as nat, i as int)));
            assert(u64_scan(b@, pos as int) == Some((acc as nat, i as int)));
            proof {
                lemma_num_scan_sound(b@, pos as int, 0);
                if i == pos {
                    assert(is_digit(b@[i as int]));
                }
            }
            return Some((acc, i));
        }
        let d = b[i] - 0x30;
        let m = match acc.checked_mul(10) {
            Some(m) => m,
            None => {
                assert(acc * 10 > 0xffff_ffff_ffff_ffff);
                assert(acc as nat * 10 + dval(b@[i as int]) > 0xffff_ffff_ffff_ffff);
                assert(num_scan(b@, i as int, acc as nat) is None);
                assert(u64_scan(b@, pos as int) is None);
                return None;
            },
        };
        let s = match m.checked_add(d as u64) {
            Some(s) => s,
            None => {
                assert(m + d > 0xffff_ffff_ffff_ffff);
                assert(acc as nat * 10 + dval(b@[i as int]) > 0xffff_ffff_ffff_ffff);
                assert(num_scan(b@, i as int, acc as nat) is None);
                assert(u64_scan(b@, pos as int) is None);
                return None;
            },
        };
        proof {
            assert(s as nat == acc as nat * 10 + dval(b@[i as int]));
        }
        acc = s;
        i = i + 1;
    }
}

/// Parse one canonical signed number; mirrors `i64_scan` exactly.
pub fn parse_i64(b: &[u8], pos: usize) -> (r: Option<(i64, usize)>)
    requires
        pos <= b@.len(),
    ensures
        r matches Some((v, end)) ==> i64_scan(b@, pos as int) == Some((v as int, end as int))
            && pos < end <= b@.len(),
        r is None ==> i64_scan(b@, pos as int) is None,
{
    if pos < b.len() && b[pos] == 0x2d {
        match parse_u64(b, pos + 1) {
            Some((v, end)) => {
                if 1 <= v && v <= 0x8000_0000_0000_0000 {
                    let r: i64 = if v == 0x8000_0000_0000_0000 {
                        -0x7fff_ffff_ffff_ffff - 1
                    } else {
                        -(v as i64)
                    };
                    Some((r, end))
                } else {
                    None
                }
            },
            None => None,
        }
    } else {
        match parse_u64(b, pos) {
            Some((v, end)) => {
                if v <= 0x7fff_ffff_ffff_ffff {
                    Some((v as i64, end))
                } else {
                    None
                }
            },
            None => None,
        }
    }
}

} // verus!
