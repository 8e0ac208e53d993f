//! Prefix-varint encoding and decoding.
//!
//! A 64-bit unsigned integer is stored in 1 to 9 bytes. The number of
//! trailing zero bits of the first byte determines the frame length, so a
//! decoder learns the length from the first byte alone. A value needing
//! `bits` significant bits takes `ceil(bits / 7)` bytes when `bits <= 56`;
//! larger values take a zero marker byte followed by 8 little-endian bytes.

use vstd::arithmetic::div_mod::{
    lemma_fundamental_div_mod, lemma_fundamental_div_mod_converse, lemma_mod_mod,
    lemma_mod_multiples_vanish, lemma_small_mod,
};
use vstd::arithmetic::power2::{lemma2_to64, lemma_pow2_adds, lemma_pow2_pos, pow2};
use vstd::prelude::*;

verus! {

/// Number of significant bits of `x`: the least `n >= 1` with `x < 2^n`.
pub open spec fn sig_bits(x: u64) -> nat
    decreases x,
{
    if x < 2 {
        1
    } else {
        (1 + sig_bits(x / 2)) as nat
    }
}

/// Frame length dictated by the length rule: `ceil(sig_bits(x) / 7)` bytes
/// while `sig_bits(x) <= 56`, and 9 bytes otherwise.
pub open spec fn encoded_len(x: u64) -> nat {
    if sig_bits(x) <= 56 {
        ((sig_bits(x) + 6) / 7) as nat
    } else {
        9
    }
}

/// Frame length read back from the first byte of a frame: one more than the
/// number of trailing zero bits, with a zero byte meaning 9.
pub open spec fn frame_len(b: u8) -> nat {
    if b % 2 == 1 {
        1
    } else if b % 4 == 2 {
        2
    } else if b % 8 == 4 {
        3
    } else if b % 16 == 8 {
        4
    } else if b % 32 == 16 {
        5
    } else if b % 64 == 32 {
        6
    } else if b % 128 == 64 {
        7
    } else if b == 128 {
        8
    } else {
        9
    }
}

/// The `n` little-endian bytes of the non-negative integer `v`.
pub open spec fn le_bytes(v: int, n: nat) -> Seq<u8>
    decreases n,
{
    if n == 0 {
        Seq::empty()
    } else {
        seq![(v % 256) as u8] + le_bytes(v / 256, (n - 1) as nat)
    }
}

/// The integer whose little-endian bytes are `s`.
pub open spec fn le_val(s: Seq<u8>) -> int
    decreases s.len(),
{
    if s.len() == 0 {
        0
    } else {
        s[0] + 256 * le_val(s.drop_first())
    }
}

/// The marked value stored in a short frame: `x` shifted up by `len` bits
/// with a single marker bit below it.
pub open spec fn tagged(x: u64, len: nat) -> int {
    x * pow2(len) + pow2((len - 1) as nat)
}

/// The canonical frame for `x`.
pub open spec fn encoding(x: u64) -> Seq<u8> {
    let len = encoded_len(x);
    if len < 9 {
        le_bytes(tagged(x, len), len)
    } else {
        seq![0u8] + le_bytes(x as int, 8)
    }
}

/// The value a frame starting at the front of `s` denotes. Only the first
/// `frame_len(s[0])` bytes are read; anything after them is ignored.
pub open spec fn spec_decode(s: Seq<u8>) -> u64 {
    let len = frame_len(s[0]);
    if len < 9 {
        (le_val(s.take(len as int)) / pow2(len) as int) as u64
    } else {
        le_val(s.subrange(1, 9)) as u64
    }
}

proof fn lemma_sig_bits_bounds(x: u64)
    ensures
        1 <= sig_bits(x) <= 64,
        x < pow2(sig_bits(x)),
        x >= 1 ==> x >= pow2((sig_bits(x) - 1) as nat),
    decreases x,
{
    lemma2_to64();
    if x < 2 {
    } else {
        lemma_sig_bits_bounds(x / 2);
        let s = sig_bits(x / 2);
        assert(pow2(s + 1) == 2 * pow2(s)) by {
            lemma_pow2_adds(s, 1);
            lemma2_to64();
        }
        assert(pow2((s - 1) as nat + 1) == 2 * pow2((s - 1) as nat)) by {
            lemma_pow2_adds((s - 1) as nat, 1);
            lemma2_to64();
        }
        if s >= 64 {
            assert(x / 2 >= pow2(63)) by {
                vstd::arithmetic::power2::lemma_pow2_strictly_increases(63, s);
            }
        }
    }
}

/// Monotonicity: a value below `2^n` has at most `n` significant bits.
proof fn lemma_sig_bits_le(x: u64, n: nat)
    requires
        n >= 1,
        x < pow2(n),
    ensures
        sig_bits(x) <= n,
    decreases x,
{
    if x < 2 {
    } else {
        lemma2_to64();
        assert(n >= 2);
        let m = pow2((n - 1) as nat);
        assert(pow2(n) == 2 * m) by {
            lemma_pow2_adds((n - 1) as nat, 1);
            lemma2_to64();
        }
        assert(x / 2 < m) by (nonlinear_arith)
            requires
                x < 2 * m,
                m >= 1,
        ;
        lemma_sig_bits_le(x / 2, (n - 1) as nat);
    }
}

/// Exact length of `le_bytes`.
proof fn lemma_le_bytes_len(v: int, n: nat)
    ensures
        le_bytes(v, n).len() == n,
    decreases n,
{
    if n > 0 {
        lemma_le_bytes_len(v / 256, (n - 1) as nat);
    }
}

/// Monotonicity of `pow2` in a form usable at equal exponents.
proof fn lemma_pow2_le(a: nat, b: nat)
    requires
        a <= b,
    ensures
        pow2(a) <= pow2(b),
{
    if a < b {
        vstd::arithmetic::power2::lemma_pow2_strictly_increases(a, b);
    }
}

/// A byte string denotes a value below `2^(8 * len)`.
proof fn lemma_le_val_bound(s: Seq<u8>)
    ensures
        0 <= le_val(s) < pow2(8 * s.len()),
    decreases s.len(),
{
    lemma2_to64();
    if s.len() == 0 {
    } else {
        let t = s.drop_first();
        lemma_le_val_bound(t);
        lemma_pow2_pos(8 * t.len());
        assert(pow2(8 * s.len()) == 256 * pow2(8 * t.len())) by {
            lemma_pow2_adds(8, 8 * t.len());
            lemma2_to64();
        }
    }
}

/// Writing a value below `2^(8n)` as `n` bytes and reading it back is exact.
proof fn lemma_le_val_le_bytes(v: int, n: nat)
    requires
        0 <= v < pow2(8 * n),
    ensures
        le_val(le_bytes(v, n)) == v,
    decreases n,
{
    lemma2_to64();
    if n == 0 {
    } else {
        let m = (n - 1) as nat;
        assert(pow2(8 * n) == 256 * pow2(8 * m)) by {
            lemma_pow2_adds(8, 8 * m);
            lemma2_to64();
        }
        lemma_pow2_pos(8 * m);
        assert(v / 256 < pow2(8 * m)) by (nonlinear_arith)
            requires
                0 <= v < 256 * pow2(8 * m),
                pow2(8 * m) >= 1,
        ;
        lemma_le_val_le_bytes(v / 256, m);
        let s = le_bytes(v, n);
        assert(s.drop_first() =~= le_bytes(v / 256, m));
        lemma_fundamental_div_mod(v, 256);
    }
}

/// Appending a byte raises the denoted value by that byte at the next weight.
proof fn lemma_le_val_push(s: Seq<u8>, b: u8)
    ensures
        le_val(s.push(b)) == le_val(s) + b * pow2(8 * s.len()),
    decreases s.len(),
{
    lemma2_to64();
    if s.len() == 0 {
        assert(s.push(b) =~= seq![b]);
        assert(seq![b].drop_first() =~= Seq::<u8>::empty());
        assert(le_val(Seq::<u8>::empty()) == 0);
        assert(le_val(s.push(b)) == b + 256 * le_val(seq![b].drop_first()));
        assert(le_val(s) == 0);
        assert(pow2(8 * s.len()) == 1);
        assert(le_val(s.push(b)) == le_val(s) + b * pow2(8 * s.len()));
    } else {
        let t = s.drop_first();
        lemma_le_val_push(t, b);
        assert(s.push(b).drop_first() =~= t.push(b));
        assert(pow2(8 * s.len()) == 256 * pow2(8 * t.len())) by {
            lemma_pow2_adds(8, 8 * t.len());
            lemma2_to64();
        }
        assert(le_val(s.push(b)) == s[0] + 256 * (le_val(t) + b * pow2(8 * t.len())));
        assert(256 * (le_val(t) + b * pow2(8 * t.len())) == 256 * le_val(t) + b * (256 * pow2(8
            * t.len()))) by (nonlinear_arith);
        assert(le_val(s) == s[0] + 256 * le_val(t));
        assert(b * pow2(8 * s.len()) == b * (256 * pow2(8 * t.len())));
        assert(le_val(s.push(b)) == le_val(s) + b * pow2(8 * s.len()));
    }
}

/// Truncating a byte string truncates the denoted value.
proof fn lemma_le_val_take(s: Seq<u8>, k: nat)
    requires
        k <= s.len(),
    ensures
        le_val(s) % pow2(8 * k) as int == le_val(s.take(k as int)),
    decreases k,
{
    lemma2_to64();
    if k == 0 {
        assert(le_val(s.take(0)) == 0);
        lemma_small_mod(0, 1);
    } else {
        let t = s.drop_first();
        let m = (k - 1) as nat;
        lemma_le_val_take(t, m);
        assert(s.take(k as int).drop_first() =~= t.take(m as int));
        lemma_pow2_pos(8 * m);
        assert(pow2(8 * k) == 256 * pow2(8 * m)) by {
            lemma_pow2_adds(8, 8 * m);
            lemma2_to64();
        }
        let v = le_val(s);
        let z = pow2(8 * m) as int;
        lemma_le_val_bound(t);
        assert(v % (256 * z) == 256 * ((v / 256) % z) + v % 256) by {
            vstd::arithmetic::div_mod::lemma_breakdown(v, 256, z);
            lemma_le_val_bound(s);
        }
        assert(v / 256 == le_val(t) && v % 256 == s[0]) by {
            lemma_fundamental_div_mod_converse(v, 256, le_val(t), s[0] as int);
        }
    }
}

/// The view of a frame's worth of little-endian bytes, at most eight of them.
pub open spec fn first8(s: Seq<u8>) -> Seq<u8> {
    if s.len() <= 8 {
        s
    } else {
        s.take(8)
    }
}

/// Loads up to eight bytes from the front of `p` as a little-endian word;
/// missing high bytes read as zero.
pub fn unaligned_load_u64(p: &[u8]) -> (r: u64)
    ensures
        r == le_val(first8(p@)),
{
    let n: usize = if p.len() < 8 {
        p.len()
    } else {
        8
    };
    proof {
        lemma2_to64();
        vstd::arithmetic::power2::lemma2_to64_rest();
        assert(p@.take(0) =~= Seq::<u8>::empty());
    }
    let mut r: u64 = 0;
    let mut mult: u64 = 1;
    let mut i: usize = 0;
    while i < n
        invariant
            i <= n,
            n <= 8,
            n <= p@.len(),
            n == first8(p@).len(),
            r == le_val(p@.take(i as int)),
            r < pow2(8 * i as nat),
            i < n ==> mult == pow2(8 * i as nat),
        decreases n - i,
    {
        let b = p[i];
        proof {
            lemma2_to64();
            vstd::arithmetic::power2::lemma2_to64_rest();
            lemma_le_val_push(p@.take(i as int), p@[i as int]);
            assert(p@.take(i as int).push(p@[i as int]) =~= p@.take(i + 1));
            lemma_pow2_pos(8 * i as nat);
            assert(pow2(8 * (i + 1) as nat) == 256 * pow2(8 * i as nat)) by {
                lemma_pow2_adds(8, 8 * i as nat);
            }
            assert(r + b * mult < 256 * pow2(8 * i as nat)) by (nonlinear_arith)
                requires
                    r < pow2(8 * i as nat),
                    b <= 255,
                    mult == pow2(8 * i as nat),
            ;
            assert(256 * pow2(8 * i as nat) <= pow2(64)) by {
                lemma_pow2_le(8 * (i + 1) as nat, 64);
                vstd::arithmetic::power2::lemma2_to64_rest();
            }
        }
        r = r + (b as u64) * mult;
        if i + 1 < n {
            proof {
                assert(pow2(8 * (i + 1) as nat) == 256 * pow2(8 * i as nat)) by {
                    lemma_pow2_adds(8, 8 * i as nat);
                }
                assert(256 * pow2(8 * i as nat) < pow2(64)) by {
                    vstd::arithmetic::power2::lemma_pow2_strictly_increases(
                        8 * (i + 1) as nat,
                        64,
                    );
                    vstd::arithmetic::power2::lemma2_to64_rest();
                }
            }
            mult = mult * 256;
        }
        i = i + 1;
    }
    proof {
        assert(p@.take(n as int) =~= first8(p@));
    }
    r
}

/// Reads the frame length off a frame's first byte: one more than its count
/// of trailing zero bits, nine for a zero byte.
pub fn length(initial: u8) -> (r: u32)
    ensures
        r == frame_len(initial),
        1 <= r <= 9,
{
    if initial % 2 == 1 {
        1
    } else if initial % 4 == 2 {
        2
    } else if initial % 8 == 4 {
        3
    } else if initial % 16 == 8 {
        4
    } else if initial % 32 == 16 {
        5
    } else if initial % 64 == 32 {
        6
    } else if initial % 128 == 64 {
        7
    } else if initial == 128 {
        8
    } else {
        9
    }
}

/// The length rule, pinned down from the significant-bit count.
proof fn lemma_len_between(x: u64, l: nat)
    requires
        1 <= l <= 8,
        x < pow2(7 * l),
        l >= 2 ==> x >= pow2(7 * (l - 1) as nat),
    ensures
        encoded_len(x) == l,
{
    lemma_sig_bits_bounds(x);
    let s = sig_bits(x);
    lemma_sig_bits_le(x, 7 * l);
    if l >= 2 && s <= 7 * (l - 1) {
        lemma_pow2_le(s, 7 * (l - 1) as nat);
        assert(false);
    }
    assert(7 * l - 6 <= s <= 7 * l);
    lemma_fundamental_div_mod_converse((s + 6) as int, 7, l as int, (s + 6 - 7 * l) as int);
}

proof fn lemma_len_nine(x: u64)
    requires
        x >= pow2(56),
    ensures
        encoded_len(x) == 9,
{
    lemma_sig_bits_bounds(x);
    if sig_bits(x) <= 56 {
        lemma_pow2_le(sig_bits(x), 56);
        assert(false);
    }
}

/// Number of bytes the frame for `x` takes, by the length rule.
pub(crate) fn frame_bytes(x: u64) -> (r: usize)
    ensures
        r == encoded_len(x),
        1 <= r <= 9,
{
    proof {
        lemma2_to64();
        vstd::arithmetic::power2::lemma2_to64_rest();
    }
    if x < 0x80 {
        proof {
            lemma_len_between(x, 1);
        }
        1
    } else if x < 0x4000 {
        proof {
            lemma_len_between(x, 2);
        }
        2
    } else if x < 0x20_0000 {
        proof {
            lemma_len_between(x, 3);
        }
        3
    } else if x < 0x1000_0000 {
        proof {
            lemma_len_between(x, 4);
        }
        4
    } else if x < 0x8_0000_0000 {
        proof {
            lemma_len_between(x, 5);
        }
        5
    } else if x < 0x400_0000_0000 {
        proof {
            lemma_len_between(x, 6);
        }
        6
    } else if x < 0x2_0000_0000_0000 {
        proof {
            lemma_len_between(x, 7);
        }
        7
    } else if x < 0x100_0000_0000_0000 {
        proof {
            lemma_len_between(x, 8);
        }
        8
    } else {
        proof {
            lemma_len_nine(x);
        }
        9
    }
}

/// `2^e` as a machine word.
fn pow2_u64(e: u64) -> (r: u64)
    requires
        e < 64,
    ensures
        r == pow2(e as nat),
{
    proof {
        lemma2_to64();
    }
    let mut r: u64 = 1;
    let mut i: u64 = 0;
    while i < e
        invariant
            i <= e < 64,
            r == pow2(i as nat),
        decreases e - i,
    {
        proof {
            lemma_pow2_adds(i as nat, 1);
            lemma2_to64();
            lemma_pow2_le((i + 1) as nat, 63);
            vstd::arithmetic::power2::lemma2_to64_rest();
        }
        r = r * 2;
        i = i + 1;
    }
    r
}

/// Appends the `n` little-endian bytes of `v` to `output`.
pub(crate) fn push_le_bytes(output: &mut Vec<u8>, v: u64, n: usize)
    ensures
        final(output)@ == old(output)@ + le_bytes(v as int, n as nat),
{
    let ghost base = output@;
    let ghost v0 = v as int;
    let mut v = v;
    let mut i: usize = 0;
    let ghost mut pushed: Seq<u8> = Seq::empty();
    proof {
        assert(base + pushed =~= base);
    }
    while i < n
        invariant
            i <= n,
            output@ == base + pushed,
            le_bytes(v0, n as nat) == pushed + le_bytes(v as int, (n - i) as nat),
        decreases n - i,
    {
        let b = (v % 256) as u8;
        output.push(b);
        proof {
            let rest = le_bytes(v as int, (n - i) as nat);
            assert(rest == seq![(v as int % 256) as u8] + le_bytes(v as int / 256, (n - i
                - 1) as nat));
            assert(pushed + rest =~= pushed.push(b) + le_bytes(v as int / 256, (n - i
                - 1) as nat));
            assert(base + pushed.push(b) =~= (base + pushed).push(b));
            pushed = pushed.push(b);
        }
        v = v / 256;
        i = i + 1;
    }
    proof {
        assert(le_bytes(v as int, 0) =~= Seq::<u8>::empty());
        assert(pushed + le_bytes(v as int, 0) =~= pushed);
        assert(output@ == base + le_bytes(v0, n as nat));
    }
}

/// Encodes `x` in prefix-varint form, appending the frame to `output`.
pub fn encode(x: u64, output: &mut Vec<u8>)
    ensures
        final(output)@ == old(output)@ + encoding(x),
{
    let len = frame_bytes(x);
    if len == 9 {
        output.push(0u8);
        push_le_bytes(output, x, 8);
        proof {
            assert(old(output)@.push(0u8) + le_bytes(x as int, 8) =~= old(output)@ + encoding(
                x,
            ));
        }
    } else {
        proof {
            lemma_sig_bits_bounds(x);
            let s = sig_bits(x);
            let l = encoded_len(x);
            lemma_fundamental_div_mod((s + 6) as int, 7);
            assert(s <= 7 * l);
            lemma_pow2_le(s, 7 * l);
            let q7 = pow2(7 * l);
            let q8 = pow2(8 * l);
            lemma_pow2_pos(l);
            lemma_pow2_pos((l - 1) as nat);
            lemma_pow2_pos(7 * l);
            vstd::arithmetic::power2::lemma_pow2_strictly_increases((l - 1) as nat, l);
            lemma_pow2_adds(7 * l, l);
            lemma_pow2_le(8 * l, 64);
            vstd::arithmetic::power2::lemma2_to64_rest();
            assert(x * pow2(l) + pow2((l - 1) as nat) < q8) by (nonlinear_arith)
                requires
                    x < q7,
                    q7 >= 1,
                    pow2(l) >= 1,
                    pow2((l - 1) as nat) < pow2(l),
                    q7 * pow2(l) == q8,
            ;
        }
        let p = pow2_u64(len as u64);
        let h = pow2_u64((len - 1) as u64);
        let t = x * p + h;
        push_le_bytes(output, t, len);
    }
}

/// A byte whose low `l` bits are exactly the marker `2^(l-1)` announces an
/// `l`-byte frame.
proof fn lemma_frame_of_mod(b: u8, l: nat)
    requires
        1 <= l <= 8,
        b as int % pow2(l) as int == pow2((l - 1) as nat),
    ensures
        frame_len(b) == l,
{
    lemma2_to64();
    let bi = b as int;
    if l == 1 {
    } else if l == 2 {
        assert(bi % 2 == 0) by {
            lemma_mod_mod(bi, 2, 2);
        }
    } else if l == 3 {
        assert(bi % 2 == 0) by {
            lemma_mod_mod(bi, 2, 4);
        }
        assert(bi % 4 == 0) by {
            lemma_mod_mod(bi, 4, 2);
        }
    } else if l == 4 {
        assert(bi % 2 == 0) by {
            lemma_mod_mod(bi, 2, 8);
        }
        assert(bi % 4 == 0) by {
            lemma_mod_mod(bi, 4, 4);
        }
        assert(bi % 8 == 0) by {
            lemma_mod_mod(bi, 8, 2);
        }
    } else if l == 5 {
        assert(bi % 2 == 0) by {
            lemma_mod_mod(bi, 2, 16);
        }
        assert(bi % 4 == 0) by {
            lemma_mod_mod(bi, 4, 8);
        }
        assert(bi % 8 == 0) by {
            lemma_mod_mod(bi, 8, 4);
        }
        assert(bi % 16 == 0) by {
            lemma_mod_mod(bi, 16, 2);
        }
    } else if l == 6 {
        assert(bi % 2 == 0) by {
            lemma_mod_mod(bi, 2, 32);
        }
        assert(bi % 4 == 0) by {
            lemma_mod_mod(bi, 4, 16);
        }
        assert(bi % 8 == 0) by {
            lemma_mod_mod(bi, 8, 8);
        }
        assert(bi % 16 == 0) by {
            lemma_mod_mod(bi, 16, 4);
        }
        assert(bi % 32 == 0) by {
            lemma_mod_mod(bi, 32, 2);
        }
    } else if l == 7 {
        assert(bi % 2 == 0) by {
            lemma_mod_mod(bi, 2, 64);
        }
        assert(bi % 4 == 0) by {
            lemma_mod_mod(bi, 4, 32);
        }
        assert(bi % 8 == 0) by {
            lemma_mod_mod(bi, 8, 16);
        }
        assert(bi % 16 == 0) by {
            lemma_mod_mod(bi, 16, 8);
        }
        assert(bi % 32 == 0) by {
            lemma_mod_mod(bi, 32, 4);
        }
        assert(bi % 64 == 0) by {
            lemma_mod_mod(bi, 64, 2);
        }
    } else {
        lemma_small_mod(b as nat, 256);
        assert(b == 128);
    }
}

/// Writing a frame and reading it back is the identity, and the first byte of
/// a frame announces the frame's exact length.
pub proof fn lemma_round_trip(x: u64)
    ensures
        encoding(x).len() == encoded_len(x),
        frame_len(encoding(x)[0]) == encoded_len(x),
        spec_decode(encoding(x)) == x,
{
    lemma2_to64();
    vstd::arithmetic::power2::lemma2_to64_rest();
    lemma_sig_bits_bounds(x);
    let l = encoded_len(x);
    let s = sig_bits(x);
    if l == 9 {
        let e = encoding(x);
        lemma_le_bytes_len(x as int, 8);
        assert(e[0] == 0);
        assert(e.subrange(1, 9) =~= le_bytes(x as int, 8));
        lemma_le_val_le_bytes(x as int, 8);
    } else {
        lemma_fundamental_div_mod((s + 6) as int, 7);
        assert(s <= 7 * l);
        lemma_pow2_le(s, 7 * l);
        lemma_pow2_pos(l);
        lemma_pow2_pos((l - 1) as nat);
        lemma_pow2_pos(7 * l);
        lemma_pow2_pos((8 - l) as nat);
        vstd::arithmetic::power2::lemma_pow2_strictly_increases((l - 1) as nat, l);
        lemma_pow2_adds(7 * l, l);
        lemma_pow2_adds(l, (8 - l) as nat);
        let t = tagged(x, l);
        let q7 = pow2(7 * l) as int;
        let q8 = pow2(8 * l) as int;
        let pl = pow2(l) as int;
        let hl = pow2((l - 1) as nat) as int;
        assert(x * pl + hl < q8) by (nonlinear_arith)
            requires
                x < q7,
                q7 >= 1,
                pl >= 1,
                hl < pl,
                q7 * pl == q8,
        ;
        let e = encoding(x);
        lemma_le_bytes_len(t, l);
        assert(e == le_bytes(t, l));
        assert(e[0] == (t % 256) as u8);
        assert(t % pl == hl) by {
            assert(t == pl * x + hl) by (nonlinear_arith)
                requires
                    t == x * pl + hl,
            ;
            lemma_mod_multiples_vanish(x as int, hl, pl);
            lemma_small_mod(hl as nat, pl as nat);
        }
        assert(t % 256 % pl == t % pl) by {
            lemma_mod_mod(t, pl, pow2((8 - l) as nat) as int);
        }
        assert(0 <= t % 256 < 256) by {
            vstd::arithmetic::div_mod::lemma_mod_bound(t, 256);
        }
        lemma_frame_of_mod(e[0], l);
        assert(e.take(l as int) =~= e);
        lemma_le_val_le_bytes(t, l);
        assert(t / pl == x) by {
            lemma_fundamental_div_mod_converse(t, pl, x as int, hl);
        }
    }
}

/// Reading a byte string back from its denoted value is exact.
proof fn lemma_le_bytes_le_val(s: Seq<u8>)
    ensures
        le_bytes(le_val(s), s.len()) == s,
    decreases s.len(),
{
    if s.len() > 0 {
        let t = s.drop_first();
        lemma_le_bytes_le_val(t);
        lemma_le_val_bound(t);
        let v = le_val(s);
        assert(v % 256 == s[0] && v / 256 == le_val(t)) by {
            lemma_fundamental_div_mod_converse(v, 256, le_val(t), s[0] as int);
        }
        assert(le_bytes(v, s.len()) =~= s);
    } else {
        assert(le_bytes(0, 0) =~= s);
    }
}

/// A frame of canonical length is the canonical frame: if the first byte
/// announces exactly `encoded_len` bytes for the value the frame denotes,
/// those bytes are `encoding` of that value. A decoder that checks the
/// frame length against the length rule therefore accepts one byte string
/// per value.
#[verifier::rlimit(80)]
pub proof fn lemma_canonical_frame(s: Seq<u8>)
    requires
        s.len() >= 1,
        frame_len(s[0]) <= s.len(),
        encoded_len(spec_decode(s)) == frame_len(s[0]),
    ensures
        s.take(frame_len(s[0]) as int) == encoding(spec_decode(s)),
{
    lemma2_to64();
    vstd::arithmetic::power2::lemma2_to64_rest();
    let l = frame_len(s[0]);
    let x = spec_decode(s);
    if l < 9 {
        let f = s.take(l as int);
        let t = le_val(f);
        lemma_le_val_bound(f);
        let pl = pow2(l) as int;
        let hl = pow2((l - 1) as nat) as int;
        lemma_pow2_pos(l);
        lemma_pow2_pos((l - 1) as nat);
        lemma_pow2_pos((8 - l) as nat);
        lemma_pow2_adds(l, (8 - l) as nat);
        assert(x == t / pl) by {
            assert(0 <= t / pl < pow2(64)) by {
                vstd::arithmetic::div_mod::lemma_div_pos_is_pos(t, pl);
                vstd::arithmetic::div_mod::lemma_div_nonincreasing(t, pl);
                lemma_le_val_bound(f);
                lemma_pow2_le(8 * f.len(), 64);
            }
        }
        assert(f[0] == s[0]);
        assert(t % 256 == s[0] as int) by {
            lemma_le_val_bound(f.drop_first());
            lemma_fundamental_div_mod_converse(t, 256, le_val(f.drop_first()), f[0] as int);
        }
        assert(s[0] as int % pl == hl) by {
            lemma2_to64();
            let b = s[0] as int;
            if l == 1 {
                assert(b % 2 == 1);
            } else if l == 2 {
                assert(b % 4 == 2);
            } else if l == 3 {
                assert(b % 8 == 4);
            } else if l == 4 {
                assert(b % 16 == 8);
            } else if l == 5 {
                assert(b % 32 == 16);
            } else if l == 6 {
                assert(b % 64 == 32);
            } else if l == 7 {
                assert(b % 128 == 64);
            } else {
                assert(s[0] == 128);
                lemma_small_mod(128, 256);
            }
        }
        assert(t % pl == t % 256 % pl) by {
            lemma_mod_mod(t, pl, pow2((8 - l) as nat) as int);
        }
        assert(t == pl * (t / pl) + t % pl) by {
            lemma_fundamental_div_mod(t, pl);
        }
        assert(t == x * pl + hl) by (nonlinear_arith)
            requires
                t == pl * (t / pl) + t % pl,
                x == t / pl,
                t % pl == hl,
        ;
        lemma_le_bytes_le_val(f);
        assert(encoding(x) == le_bytes(tagged(x, l), l));
        assert(tagged(x, l) == t);
    } else {
        let rest = s.subrange(1, 9);
        lemma_le_val_bound(rest);
        assert(x == le_val(rest));
        assert(s[0] == 0);
        lemma_le_bytes_le_val(rest);
        assert(s.take(9) =~= seq![s[0]] + rest);
        assert(encoding(x) == seq![0u8] + le_bytes(x as int, 8));
    }
}

/// The frame for `x` is exactly `encoded_len(x)` bytes long: `ceil(bits / 7)`
/// for a value of at most 56 significant bits, 9 otherwise.
pub proof fn lemma_encoding_length(x: u64)
    ensures
        encoding(x).len() == encoded_len(x),
        1 <= encoded_len(x) <= 9,
{
    lemma_round_trip(x);
    lemma_sig_bits_bounds(x);
    if sig_bits(x) <= 56 {
        lemma_fundamental_div_mod((sig_bits(x) + 6) as int, 7);
    }
}

/// Decoding reads only the frame itself: trailing bytes do not change the
/// result.
pub proof fn lemma_decode_ignores_trailing(s: Seq<u8>, t: Seq<u8>)
    requires
        s.len() >= 1,
        s.len() >= frame_len(s[0]),
    ensures
        spec_decode(s + t) == spec_decode(s),
{
    let u = s + t;
    assert(u[0] == s[0]);
    let l = frame_len(s[0]);
    if l < 9 {
        assert(u.take(l as int) =~= s.take(l as int));
    } else {
        assert(u.subrange(1, 9) =~= s.subrange(1, 9));
    }
}

/// Decodes the prefix-varint frame at the front of `p`; bytes past the frame
/// are ignored. `p` must hold at least one byte, and at least the whole frame
/// for the result to be meaningful.
pub fn decode(p: &[u8]) -> (r: u64)
    requires
        p@.len() >= 1,
    ensures
        p@.len() >= frame_len(p@[0]) ==> r == spec_decode(p@),
{
    let b = p[0];
    let l = length(b);
    if l < 9 {
        let w = unaligned_load_u64(p);
        let lo = if l == 8 {
            w
        } else {
            proof {
                lemma_pow2_pos(8 * l as nat);
                lemma_pow2_le(8 * l as nat, 63);
                vstd::arithmetic::power2::lemma2_to64_rest();
            }
            let m = pow2_u64(8 * (l as u64));
            w % m
        };
        proof {
            lemma_pow2_pos(l as nat);
        }
        let d = pow2_u64(l as u64);
        let r = lo / d;
        proof {
            if p@.len() >= frame_len(p@[0]) {
                let fl = l as nat;
                let f8 = first8(p@);
                lemma_le_val_bound(f8);
                lemma_le_val_take(f8, fl);
                assert(f8.take(fl as int) =~= p@.take(fl as int));
                if l == 8 {
                    assert(f8 =~= p@.take(8));
                    lemma_le_val_bound(p@.take(8));
                    lemma_le_val_take(p@.take(8), 8);
                    assert(p@.take(8).take(8) =~= p@.take(8));
                    vstd::arithmetic::power2::lemma2_to64_rest();
                    vstd::arithmetic::div_mod::lemma_small_mod(
                        le_val(p@.take(8)) as nat,
                        pow2(64),
                    );
                }
                lemma_le_val_bound(p@.take(fl as int));
            }
        }
        r
    } else {
        let tail = &p[1..p.len()];
        let w = unaligned_load_u64(tail);
        proof {
            if p@.len() >= 9 {
                assert(first8(p@.subrange(1, p@.len() as int)) =~= p@.subrange(1, 9));
                lemma_le_val_bound(p@.subrange(1, 9));
            }
        }
        w
    }
}

} // verus!
