//! Key schemas of the store's trees: zero-padded decimal height keys,
//! hexadecimal composite keys for the per-block transaction index, and
//! the fixed chain-state key.
//!
//! The zero-padded decimal spelling is faithful below its width's
//! power of ten, so distinct heights always get distinct keys.

use vstd::prelude::*;
use vstd::slice::slice_to_vec;
use vstd::arithmetic::div_mod::{
    lemma_div_denominator, lemma_basic_div, lemma_fundamental_div_mod,
    lemma_fundamental_div_mod_converse, lemma_div_is_ordered, lemma_small_mod, lemma_mod_bound,
    lemma_hoist_over_denominator, lemma_mod_multiples_vanish,
};
use crate::storage::{has_prefix, lex_lt};

verus! {

/// Ten to the `k`.
pub open spec fn pow10(k: nat) -> int
    decreases k,
{
    if k == 0 {
        1
    } else {
        10 * pow10((k - 1) as nat)
    }
}

/// Powers of ten are positive.
pub proof fn lemma_pow10_pos(k: nat)
    ensures
        pow10(k) >= 1,
    decreases k,
{
    if k > 0 {
        lemma_pow10_pos((k - 1) as nat);
    }
}

/// The zero-padded decimal spelling of `n`, `width` digits wide, most
/// significant digit first.
pub open spec fn dec_digits(n: u64, width: nat) -> Seq<u8> {
    Seq::new(width, |i: int| (48 + ((n as int / pow10((width - 1 - i) as nat)) % 10)) as u8)
}

/// Append the zero-padded decimal spelling of `n`.
pub fn push_decimal(out: &mut Vec<u8>, n: u64, width: usize)
    ensures
        final(out)@ == old(out)@ + dec_digits(n, width as nat),
{
    let mut buf: Vec<u8> = Vec::new();
    let mut w: usize = 0;
    while w < width
        invariant
            0 <= w <= width,
            buf@.len() == w,
            forall|k: int| 0 <= k < w ==> buf@[k] == 48u8,
        decreases width - w,
    {
        buf.push(48u8);
        w = w + 1;
    }
    let mut cur: u64 = n;
    let mut j: usize = 0;
    proof {
        assert(cur as int == n as int / pow10(0));
    }
    while j < width
        invariant
            0 <= j <= width,
            buf@.len() == width,
            cur as int == n as int / pow10(j as nat),
            forall|k: int|
                0 <= k < j ==> buf@[width - 1 - k] == (48 + ((n as int / #[trigger] pow10(
                    k as nat,
                )) % 10)) as u8,
            forall|k: int| 0 <= k < width - j ==> buf@[k] == 48u8,
        decreases width - j,
    {
        let digit: u8 = (cur % 10) as u8;
        buf.set(width - 1 - j, 48 + digit);
        proof {
            lemma_pow10_pos(j as nat);
            lemma_div_denominator(n as int, pow10(j as nat), 10);
            assert(pow10(j as nat) * 10 == pow10((j + 1) as nat)) by {
                assert(pow10((j + 1) as nat) == 10 * pow10(j as nat));
                assert(10 * pow10(j as nat) == pow10(j as nat) * 10) by (nonlinear_arith);
            }
            assert((cur as int) / 10 == n as int / pow10((j + 1) as nat));
        }
        cur = cur / 10;
        j = j + 1;
    }
    let mut rest = buf;
    proof {
        assert(rest@ =~= dec_digits(n, width as nat));
    }
    out.append(&mut rest);
}

/// Equal spellings of in-range numbers mean equal numbers: the
/// spelling is faithful below `pow10(width)`.
pub proof fn lemma_dec_digits_injective(a: u64, b: u64, width: nat)
    requires
        a < pow10(width),
        b < pow10(width),
        dec_digits(a, width) == dec_digits(b, width),
    ensures
        a == b,
{
    lemma_dec_quotients_equal(a, b, width, 0);
    assert(a as int / pow10(0) == a as int);
    assert(b as int / pow10(0) == b as int);
}

/// Downward induction: equal digit tails give equal quotients.
proof fn lemma_dec_quotients_equal(a: u64, b: u64, width: nat, j: nat)
    requires
        a < pow10(width),
        b < pow10(width),
        dec_digits(a, width) == dec_digits(b, width),
        j <= width,
    ensures
        a as int / pow10(j) == b as int / pow10(j),
    decreases width - j,
{
    lemma_pow10_pos(j);
    if j == width {
        lemma_basic_div(a as int, pow10(width));
        lemma_basic_div(b as int, pow10(width));
    } else {
        lemma_dec_quotients_equal(a, b, width, j + 1);
        let qa = a as int / pow10(j);
        let qb = b as int / pow10(j);
        lemma_div_denominator(a as int, pow10(j), 10);
        lemma_div_denominator(b as int, pow10(j), 10);
        assert(pow10(j) * 10 == pow10(j + 1)) by {
            assert(pow10(j + 1) == 10 * pow10(j));
            assert(10 * pow10(j) == pow10(j) * 10) by (nonlinear_arith);
        }
        assert(qa / 10 == a as int / pow10(j + 1));
        assert(qb / 10 == b as int / pow10(j + 1));
        let i = width - 1 - j;
        assert(dec_digits(a, width)[i as int] == dec_digits(b, width)[i as int]);
        assert((width - 1 - i as int) as nat == j);
        assert(dec_digits(a, width)[i as int] == (48 + ((a as int / pow10(j)) % 10)) as u8);
        assert(dec_digits(b, width)[i as int] == (48 + ((b as int / pow10(j)) % 10)) as u8);
        assert((48 + qa % 10) as u8 == (48 + qb % 10) as u8);
        assert(qa >= 0 && qb >= 0) by {
            lemma_basic_div(0, pow10(j));
            assert(a as int >= 0);
            lemma_div_pos(a as int, pow10(j));
            lemma_div_pos(b as int, pow10(j));
        }
        assert(0 <= qa % 10 < 10);
        assert(0 <= qb % 10 < 10);
        assert(qa % 10 == qb % 10);
        lemma_fundamental_div_mod(qa, 10);
        lemma_fundamental_div_mod(qb, 10);
    }
}

/// Nonnegative dividends give nonnegative quotients.
proof fn lemma_div_pos(x: int, d: int)
    requires
        x >= 0,
        d >= 1,
    ensures
        x / d >= 0,
{
    if x < d {
        lemma_basic_div(x, d);
    } else {
        assert(x / d >= 0) by (nonlinear_arith)
            requires
                x >= d >= 1,
        ;
    }
}

/// A `u64` has at most twenty decimal digits.
pub proof fn lemma_u64_below_pow10_20(n: u64)
    ensures
        (n as int) < pow10(20),
{
    assert(pow10(20) == 100000000000000000000) by {
        reveal_with_fuel(pow10, 21);
    }
}

/// Powers of ten multiply under addition of exponents.
pub proof fn lemma_pow10_adds(m: nat, n: nat)
    ensures
        pow10(m + n) == pow10(m) * pow10(n),
    decreases m,
{
    if m == 0 {
        assert(pow10(n) == 1 * pow10(n)) by (nonlinear_arith);
    } else {
        lemma_pow10_adds((m - 1) as nat, n);
        assert((m - 1) as nat + n == (m + n - 1) as nat);
        assert(10 * (pow10((m - 1) as nat) * pow10(n)) == (10 * pow10((m - 1) as nat)) * pow10(
            n,
        )) by (nonlinear_arith);
    }
}

/// A digit below a power of ten is unchanged by reducing the number
/// modulo that power.
proof fn lemma_digit_mod(n: int, k: nat, w1: nat)
    requires
        0 <= n,
        k + 1 <= w1,
    ensures
        (n / pow10(k)) % 10 == ((n % pow10(w1)) / pow10(k)) % 10,
{
    let c = pow10(w1);
    let p = pow10(k);
    let m = pow10((w1 - k) as nat);
    lemma_pow10_pos(w1);
    lemma_pow10_pos(k);
    lemma_pow10_pos((w1 - k) as nat);
    lemma_pow10_adds(k, (w1 - k) as nat);
    assert(c == p * m);
    let q = n / c;
    let r = n % c;
    lemma_fundamental_div_mod(n, c);
    lemma_mod_bound(n, c);
    lemma_div_pos(n, c);
    assert(r >= 0);
    lemma_hoist_over_denominator(r, q * m, p as nat);
    assert(p as nat as int == p);
    assert((q * m) * p == q * (m * p)) by (nonlinear_arith);
    assert(m * p == p * m) by (nonlinear_arith);
    assert(c * q == q * c) by (nonlinear_arith);
    assert(r + (q * m) * p == n);
    assert(n / p == r / p + q * m);
    let m1 = pow10((w1 - k - 1) as nat);
    assert(m == 10 * m1);
    assert(q * m == 10 * (q * m1)) by (nonlinear_arith)
        requires
            m == 10 * m1,
    ;
    lemma_mod_multiples_vanish(q * m1, r / p, 10);
    assert((10 * (q * m1) + r / p) % 10 == (r / p) % 10);
    assert((n / p) % 10 == (r / p) % 10);
}

/// Dropping the leading digit of a spelling spells the remainder
/// modulo the leading power of ten.
proof fn lemma_dec_digits_tail(n: u64, width: nat)
    requires
        1 <= width <= 20,
        (n as int) < pow10(width),
    ensures
        dec_digits(n, width).drop_first() == dec_digits(
            ((n as int) % pow10((width - 1) as nat)) as u64,
            (width - 1) as nat,
        ),
{
    let w1 = (width - 1) as nat;
    let c = pow10(w1);
    lemma_pow10_pos(w1);
    lemma_mod_bound(n as int, c);
    lemma_u64_below_pow10_20(u64::MAX);
    assert(c <= pow10(20)) by {
        lemma_pow10_adds(w1, (20 - w1) as nat);
        lemma_pow10_pos((20 - w1) as nat);
        assert(pow10(20) == c * pow10((20 - w1) as nat));
        assert(c * 1 <= c * pow10((20 - w1) as nat)) by (nonlinear_arith)
            requires
                c >= 0,
                pow10((20 - w1) as nat) >= 1,
        ;
    }
    let r = ((n as int) % c) as u64;
    assert(r as int == (n as int) % c) by {
        assert((n as int) % c < c);
        assert((n as int) % c <= n as int) by {
            lemma_fundamental_div_mod(n as int, c);
            lemma_div_pos(n as int, c);
            assert(c * (n as int / c) >= 0) by (nonlinear_arith)
                requires
                    c > 0,
                    n as int / c >= 0,
            ;
        }
    }
    assert forall|i: int| 0 <= i < w1 implies dec_digits(n, width).drop_first()[i] == dec_digits(
        r,
        w1,
    )[i] by {
        lemma_digit_mod(n as int, (w1 - 1 - i) as nat, w1);
        assert(dec_digits(n, width)[i + 1] == (48 + ((n as int / pow10(
            (width - 1 - (i + 1)) as nat,
        )) % 10)) as u8);
        assert((width - 1 - (i + 1)) as nat == (w1 - 1 - i) as nat);
    }
    assert(dec_digits(n, width).drop_first() =~= dec_digits(r, w1));
}

/// The zero-padded decimal spelling orders as the numbers do.
proof fn lemma_dec_digits_lt(a: u64, b: u64, width: nat)
    requires
        a < b,
        width <= 20,
        (b as int) < pow10(width),
    ensures
        lex_lt(dec_digits(a, width), dec_digits(b, width)),
    decreases width,
{
    lemma_pow10_pos(width);
    if width == 0 {
        assert(false);
    } else {
        let w1 = (width - 1) as nat;
        let c = pow10(w1);
        lemma_pow10_pos(w1);
        let qa = a as int / c;
        let qb = b as int / c;
        lemma_div_pos(a as int, c);
        lemma_div_pos(b as int, c);
        assert(pow10(width) == 10 * c);
        lemma_fundamental_div_mod_converse(10 * c - 1, c, 9, c - 1);
        lemma_div_is_ordered(b as int, 10 * c - 1, c);
        assert(qb <= 9);
        lemma_div_is_ordered(a as int, b as int, c);
        assert(qa <= qb);
        lemma_small_mod(qa as nat, 10);
        lemma_small_mod(qb as nat, 10);
        assert(dec_digits(a, width)[0] == (48 + qa) as u8);
        assert(dec_digits(b, width)[0] == (48 + qb) as u8);
        if qa < qb {
            assert(dec_digits(a, width)[0] < dec_digits(b, width)[0]);
            assert(lex_lt(dec_digits(a, width), dec_digits(b, width)));
        } else {
            lemma_fundamental_div_mod(a as int, c);
            lemma_fundamental_div_mod(b as int, c);
            lemma_mod_bound(a as int, c);
            lemma_mod_bound(b as int, c);
            let ra = ((a as int) % c) as u64;
            let rb = ((b as int) % c) as u64;
            assert(ra as int == (a as int) % c && rb as int == (b as int) % c) by {
                assert((a as int) % c < c && (b as int) % c < c);
                assert(c <= pow10(19)) by {
                    lemma_pow10_adds(w1, (19 - w1) as nat);
                    lemma_pow10_pos((19 - w1) as nat);
                    assert(pow10(19) == c * pow10((19 - w1) as nat));
                    assert(c * 1 <= c * pow10((19 - w1) as nat)) by (nonlinear_arith)
                        requires
                            c >= 0,
                            pow10((19 - w1) as nat) >= 1,
                    ;
                }
                assert(pow10(19) <= u64::MAX as int) by {
                    reveal_with_fuel(pow10, 21);
                }
            }
            assert(ra < rb) by {
                assert(a as int == c * qa + (a as int) % c);
                assert(b as int == c * qb + (b as int) % c);
            }
            lemma_dec_digits_lt(ra, rb, w1);
            lemma_dec_digits_tail(a, width);
            lemma_dec_digits_tail(b, width);
            assert(dec_digits(a, width)[0] == dec_digits(b, width)[0]);
            assert(dec_digits(a, width).drop_first() == dec_digits(ra, w1));
            assert(dec_digits(b, width).drop_first() == dec_digits(rb, w1));
            assert(lex_lt(dec_digits(a, width), dec_digits(b, width)));
        }
    }
}

/// A shared prefix does not affect the lexicographic order.
proof fn lemma_lex_prepend(p: Seq<u8>, x: Seq<u8>, y: Seq<u8>)
    ensures
        lex_lt(p + x, p + y) == lex_lt(x, y),
    decreases p.len(),
{
    if p.len() == 0 {
        assert(p + x =~= x);
        assert(p + y =~= y);
    } else {
        assert((p + x)[0] == p[0]);
        assert((p + y)[0] == p[0]);
        assert((p + x).drop_first() =~= p.drop_first() + x);
        assert((p + y).drop_first() =~= p.drop_first() + y);
        lemma_lex_prepend(p.drop_first(), x, y);
    }
}

/// Height keys order as the heights do: the zero-padded decimal
/// digits make lexicographic order equal numeric order.
pub proof fn lemma_height_key_order(a: u64, b: u64)
    requires
        a < b,
    ensures
        lex_lt(height_key_spec(a), height_key_spec(b)),
{
    lemma_u64_below_pow10_20(b);
    lemma_dec_digits_lt(a, b, 20);
    lemma_lex_prepend(height_prefix(), dec_digits(a, 20), dec_digits(b, 20));
}

/// Every height key starts with the `height:` prefix.
pub proof fn lemma_height_key_prefixed(h: u64)
    ensures
        has_prefix(height_key_spec(h), height_prefix()),
{
    assert(height_key_spec(h).subrange(0, 7) =~= height_prefix());
}

/// Build the bare `height:` prefix, for scanning the height index.
pub fn height_prefix_bytes() -> (r: Vec<u8>)
    ensures
        r@ == height_prefix(),
{
    let mut out: Vec<u8> = Vec::new();
    out.push(104);
    out.push(101);
    out.push(105);
    out.push(103);
    out.push(104);
    out.push(116);
    out.push(58);
    assert(out@ =~= height_prefix());
    out
}

/// The ascii code of one hexadecimal digit, lowercase.
pub open spec fn hex_digit_byte(v: u8) -> u8
    recommends
        v < 16,
{
    if v < 10 {
        (48 + v) as u8
    } else {
        (87 + v) as u8
    }
}

/// The ascii hexadecimal spelling of a byte sequence, two digits per
/// byte, high nibble first.
pub open spec fn hex_bytes_of(b: Seq<u8>) -> Seq<u8> {
    Seq::new(
        b.len() * 2,
        |i: int| if i % 2 == 0 {
            hex_digit_byte(b[i / 2] / 16)
        } else {
            hex_digit_byte(b[i / 2] % 16)
        },
    )
}

/// Append the ascii hexadecimal spelling of 32 bytes.
pub fn push_hex32(out: &mut Vec<u8>, h: &[u8; 32])
    ensures
        final(out)@ == old(out)@ + hex_bytes_of(h@),
{
    let ghost base = out@;
    let mut i: usize = 0;
    while i < 32
        invariant
            0 <= i <= 32,
            out@ == base + hex_bytes_of(h@).take(2 * i),
        decreases 32 - i,
    {
        let v = h[i];
        let hi = v / 16;
        let lo = v % 16;
        let hb: u8 = if hi < 10 {
            48 + hi
        } else {
            87 + hi
        };
        let lb: u8 = if lo < 10 {
            48 + lo
        } else {
            87 + lo
        };
        out.push(hb);
        out.push(lb);
        proof {
            assert(hex_bytes_of(h@)[2 * i] == hb);
            assert(hex_bytes_of(h@)[2 * i + 1] == lb);
            assert(out@ =~= base + hex_bytes_of(h@).take(2 * (i + 1)));
        }
        i = i + 1;
    }
    proof {
        assert(hex_bytes_of(h@).take(64) =~= hex_bytes_of(h@));
    }
}

/// A 32-byte array as a key vector.
pub fn hash_key(h: &[u8; 32]) -> (r: Vec<u8>)
    ensures
        r@ == h@,
{
    slice_to_vec(h.as_slice())
}

/// A 64-byte array as a value vector.
pub fn hash64_key(h: &[u8; 64]) -> (r: Vec<u8>)
    ensures
        r@ == h@,
{
    slice_to_vec(h.as_slice())
}

/// The `height:` prefix, in ascii.
pub open spec fn height_prefix() -> Seq<u8> {
    seq![104u8, 101u8, 105u8, 103u8, 104u8, 116u8, 58u8]
}

/// The secondary block key for a height: `height:` followed by twenty
/// decimal digits, so that key order matches numeric order.
pub open spec fn height_key_spec(h: u64) -> Seq<u8> {
    height_prefix() + dec_digits(h, 20)
}

/// Build the height key for a block index.
pub fn height_key(h: u64) -> (r: Vec<u8>)
    ensures
        r@ == height_key_spec(h),
{
    let mut out: Vec<u8> = Vec::new();
    out.push(104);
    out.push(101);
    out.push(105);
    out.push(103);
    out.push(104);
    out.push(116);
    out.push(58);
    assert(out@ =~= height_prefix());
    push_decimal(&mut out, h, 20);
    out
}

/// Distinct heights get distinct keys.
pub proof fn lemma_height_key_injective(a: u64, b: u64)
    requires
        height_key_spec(a) == height_key_spec(b),
    ensures
        a == b,
{
    assert(dec_digits(a, 20) =~= dec_digits(b, 20)) by {
        assert(forall|i: int|
            0 <= i < 20 ==> height_key_spec(a)[7 + i] == #[trigger] dec_digits(a, 20)[i]);
        assert(forall|i: int|
            0 <= i < 20 ==> height_key_spec(b)[7 + i] == #[trigger] dec_digits(b, 20)[i]);
    }
    lemma_u64_below_pow10_20(a);
    lemma_u64_below_pow10_20(b);
    lemma_dec_digits_injective(a, b, 20);
}

/// The singleton chain-state key, `global:current` in ascii.
pub open spec fn chain_state_key_spec() -> Seq<u8> {
    seq![103u8, 108u8, 111u8, 98u8, 97u8, 108u8, 58u8, 99u8, 117u8, 114u8, 114u8, 101u8, 110u8,
        116u8]
}

/// Build the chain-state key.
pub fn chain_state_key() -> (r: Vec<u8>)
    ensures
        r@ == chain_state_key_spec(),
{
    let mut out: Vec<u8> = Vec::new();
    out.push(103);
    out.push(108);
    out.push(111);
    out.push(98);
    out.push(97);
    out.push(108);
    out.push(58);
    out.push(99);
    out.push(117);
    out.push(114);
    out.push(114);
    out.push(101);
    out.push(110);
    out.push(116);
    assert(out@ =~= chain_state_key_spec());
    out
}

/// The `block_tx:` prefix, in ascii.
pub open spec fn block_tx_prefix() -> Seq<u8> {
    seq![98u8, 108u8, 111u8, 99u8, 107u8, 95u8, 116u8, 120u8, 58u8]
}

/// The per-block transaction index key: `block_tx:`, the block hash in
/// hexadecimal, `:`, the transaction hash in hexadecimal, `:`, and the
/// position in the block as ten decimal digits. Keys of one block share
/// a prefix and order by position.
pub open spec fn block_tx_key_spec(block_hash: Seq<u8>, tx_hash: Seq<u8>, i: u64) -> Seq<u8> {
    block_tx_prefix() + hex_bytes_of(block_hash) + seq![58u8] + hex_bytes_of(tx_hash) + seq![58u8]
        + dec_digits(i, 10)
}

/// The scan prefix selecting every index key of one block.
pub open spec fn block_tx_scan_prefix_spec(block_hash: Seq<u8>) -> Seq<u8> {
    block_tx_prefix() + hex_bytes_of(block_hash) + seq![58u8]
}

/// Build the index key for one transaction of one block.
pub fn block_tx_key(block_hash: &[u8; 32], tx_hash: &[u8; 32], i: u64) -> (r: Vec<u8>)
    ensures
        r@ == block_tx_key_spec(block_hash@, tx_hash@, i),
{
    let mut out = block_tx_scan_prefix(block_hash);
    push_hex32(&mut out, tx_hash);
    out.push(58);
    push_decimal(&mut out, i, 10);
    assert(out@ =~= block_tx_key_spec(block_hash@, tx_hash@, i));
    out
}

/// Build the scan prefix for one block's index keys.
pub fn block_tx_scan_prefix(block_hash: &[u8; 32]) -> (r: Vec<u8>)
    ensures
        r@ == block_tx_scan_prefix_spec(block_hash@),
{
    let mut out: Vec<u8> = Vec::new();
    out.push(98);
    out.push(108);
    out.push(111);
    out.push(99);
    out.push(107);
    out.push(95);
    out.push(116);
    out.push(120);
    out.push(58);
    assert(out@ =~= block_tx_prefix());
    push_hex32(&mut out, block_hash);
    out.push(58);
    assert(out@ =~= block_tx_scan_prefix_spec(block_hash@));
    out
}

/// The `state:` prefix for contract storage, in ascii.
pub open spec fn state_prefix() -> Seq<u8> {
    seq![115u8, 116u8, 97u8, 116u8, 101u8, 58u8]
}

/// The contract-storage key: `state:`, the contract id in hexadecimal,
/// `:`, and the user key in hexadecimal.
pub open spec fn contract_state_key_spec(cid: Seq<u8>, user_key: Seq<u8>) -> Seq<u8> {
    state_prefix() + hex_bytes_of(cid) + seq![58u8] + hex_bytes_of(user_key)
}

/// Append the ascii hexadecimal spelling of a byte vector.
pub fn push_hex_vec(out: &mut Vec<u8>, b: &Vec<u8>)
    ensures
        final(out)@ == old(out)@ + hex_bytes_of(b@),
{
    let ghost base = out@;
    let mut i: usize = 0;
    while i < b.len()
        invariant
            0 <= i <= b@.len(),
            out@ == base + hex_bytes_of(b@).take(2 * i),
        decreases b@.len() - i,
    {
        let v = b[i];
        let hi = v / 16;
        let lo = v % 16;
        let hb: u8 = if hi < 10 {
            48 + hi
        } else {
            87 + hi
        };
        let lb: u8 = if lo < 10 {
            48 + lo
        } else {
            87 + lo
        };
        out.push(hb);
        out.push(lb);
        proof {
            assert(hex_bytes_of(b@)[2 * i] == hb);
            assert(hex_bytes_of(b@)[2 * i + 1] == lb);
            assert(out@ =~= base + hex_bytes_of(b@).take(2 * (i + 1)));
        }
        i = i + 1;
    }
    proof {
        assert(hex_bytes_of(b@).take(2 * b@.len() as int) =~= hex_bytes_of(b@));
    }
}

/// Build the contract-storage key for one contract and user key.
pub fn contract_state_key(cid: &[u8; 32], user_key: &Vec<u8>) -> (r: Vec<u8>)
    ensures
        r@ == contract_state_key_spec(cid@, user_key@),
{
    let mut out: Vec<u8> = Vec::new();
    out.push(115);
    out.push(116);
    out.push(97);
    out.push(116);
    out.push(101);
    out.push(58);
    assert(out@ =~= state_prefix());
    push_hex32(&mut out, cid);
    out.push(58);
    push_hex_vec(&mut out, user_key);
    assert(out@ =~= contract_state_key_spec(cid@, user_key@));
    out
}

} // verus!
