//! Byte-level helpers shared by the value model and the machine: little-endian
//! decoding, wrapping 64-bit integer arithmetic, decimal rendering, and
//! comparisons of raw byte strings.

use vstd::prelude::*;

verus! {

use vstd::arithmetic::power2::{pow2, lemma_pow2_adds, lemma_pow2_pos, lemma2_to64};
use vstd::bits::{lemma_u64_shl_is_mul, lemma_u64_pow2_no_overflow};
use vstd::arithmetic::div_mod::lemma_mod_multiples_vanish;

/// The value of a little-endian byte string: the first byte is least
/// significant.
pub open spec fn le_bytes_val(b: Seq<u8>) -> nat
    decreases b.len(),
{
    if b.len() == 0 {
        0
    } else {
        (b[0] + 256 * le_bytes_val(b.drop_first())) as nat
    }
}

/// A little-endian byte string of `len` bytes is worth less than `2^(8*len)`.
pub proof fn lemma_le_bytes_val_bound(b: Seq<u8>)
    ensures
        le_bytes_val(b) < pow2(8 * b.len()),
    decreases b.len(),
{
    if b.len() == 0 {
        lemma_pow2_pos(0);
    } else {
        lemma_le_bytes_val_bound(b.drop_first());
        lemma_pow2_adds(8, 8 * (b.len() - 1) as nat);
        lemma2_to64();
        assert(8 * b.len() == 8 + 8 * (b.len() - 1));
        assert(le_bytes_val(b) < 256 * pow2(8 * (b.len() - 1) as nat)) by {
            assert(b[0] < 256);
            assert(le_bytes_val(b.drop_first()) <= pow2(8 * (b.len() - 1) as nat) - 1);
        }
    }
}

/// Reduces an unbounded integer into the range of `i64` by wrapping, the way
/// two's-complement arithmetic does.
pub open spec fn wrap_to_i64(x: int) -> i64 {
    let m = x % 0x1_0000_0000_0000_0000;
    if m > i64::MAX as int {
        (m - 0x1_0000_0000_0000_0000) as i64
    } else {
        m as i64
    }
}

/// Wrapping is the identity on values already in range.
pub proof fn lemma_wrap_to_i64_id(x: int)
    requires
        i64::MIN <= x <= i64::MAX,
    ensures
        wrap_to_i64(x) == x,
{
    if x >= 0 {
        assert(x % 0x1_0000_0000_0000_0000 == x);
    } else {
        assert(x % 0x1_0000_0000_0000_0000 == x + 0x1_0000_0000_0000_0000);
    }
}

/// The value of a little-endian byte string, computed exactly.
pub fn le_value(b: &Vec<u8>) -> (r: u64)
    requires
        b@.len() <= 8,
    ensures
        r == le_bytes_val(b@),
{
    let mut acc: u64 = 0;
    let mut i: usize = b.len();
    proof {
        assert(b@.skip(b@.len() as int) =~= Seq::<u8>::empty());
        lemma2_to64();
    }
    while i > 0
        invariant
            i <= b@.len() <= 8,
            acc == le_bytes_val(b@.skip(i as int)),
            acc < pow2(8 * (b@.len() - i) as nat),
        decreases i,
    {
        i = i - 1;
        proof {
            lemma2_to64();
            lemma_pow2_adds(8, 8 * (b@.len() - i - 1) as nat);
            assert(pow2(8 * (b@.len() - i) as nat) <= pow2(64)) by {
                if 8 * (b@.len() - i) < 64 {
                    vstd::arithmetic::power2::lemma_pow2_strictly_increases(
                        (8 * (b@.len() - i)) as nat,
                        64,
                    );
                }
            }
            assert(b@.skip(i as int).drop_first() =~= b@.skip(i + 1));
        }
        acc = acc * 256 + (b[i] as u64);
    }
    proof {
        assert(b@.skip(0) =~= b@);
    }
    acc
}

/// Reinterprets a 64-bit word as a signed value, as a two's-complement load
/// does.
pub fn u64_as_i64(x: u64) -> (r: i64)
    ensures
        r == wrap_to_i64(x as int),
{
    if x >= 0x8000_0000_0000_0000u64 {
        let y = x - 0x8000_0000_0000_0000u64;
        proof {
            assert((x as int) % 0x1_0000_0000_0000_0000 == x as int);
        }
        i64::MIN + (y as i64)
    } else {
        proof {
            assert((x as int) % 0x1_0000_0000_0000_0000 == x as int);
        }
        x as i64
    }
}

/// `2^n` as a wrapped 64-bit signed integer.
pub fn pow2_wrapped(n: u8) -> (r: i64)
    ensures
        r == wrap_to_i64(pow2(n as nat) as int),
{
    if n >= 64 {
        proof {
            lemma_pow2_adds(64, (n - 64) as nat);
            lemma2_to64();
            lemma_pow2_pos((n - 64) as nat);
            assert(pow2(n as nat) as int % 0x1_0000_0000_0000_0000 == 0) by {
                assert(pow2(n as nat) == pow2(64) * pow2((n - 64) as nat));
                assert(pow2(n as nat) as int == 0x1_0000_0000_0000_0000 * pow2((n - 64) as nat));
                lemma_mod_multiples_vanish(pow2((n - 64) as nat) as int, 0, 0x1_0000_0000_0000_0000);
            }
        }
        0i64
    } else {
        proof {
            lemma_u64_pow2_no_overflow(n as nat);
            lemma_u64_shl_is_mul(1u64, n as u64);
        }
        let b: u64 = 1u64 << n;
        u64_as_i64(b)
    }
}

/// `2^n - 1` as a wrapped 64-bit signed integer.
pub fn pow2_sub1_wrapped(n: u8) -> (r: i64)
    ensures
        r == wrap_to_i64(pow2(n as nat) as int - 1),
{
    if n >= 64 {
        proof {
            lemma_pow2_adds(64, (n - 64) as nat);
            lemma2_to64();
            lemma_pow2_pos((n - 64) as nat);
            assert((pow2(n as nat) as int - 1) % 0x1_0000_0000_0000_0000 == 0x1_0000_0000_0000_0000 - 1) by {
                let k = pow2((n - 64) as nat) as int;
                assert(pow2(n as nat) as int == 0x1_0000_0000_0000_0000 * k);
                assert(pow2(n as nat) as int - 1 == 0x1_0000_0000_0000_0000 * (k - 1) + (0x1_0000_0000_0000_0000 - 1));
                lemma_mod_multiples_vanish(k - 1, 0x1_0000_0000_0000_0000 - 1, 0x1_0000_0000_0000_0000);
                assert((0x1_0000_0000_0000_0000 - 1) % 0x1_0000_0000_0000_0000 == 0x1_0000_0000_0000_0000 - 1);
            }
        }
        -1i64
    } else {
        proof {
            lemma_u64_pow2_no_overflow(n as nat);
            lemma_u64_shl_is_mul(1u64, n as u64);
            lemma_pow2_pos(n as nat);
        }
        let b: u64 = 1u64 << n;
        u64_as_i64(b - 1)
    }
}

/// The decimal digits of `n`, most significant first.
pub open spec fn dec_rep(n: nat) -> Seq<u8>
    decreases n,
{
    if n < 10 {
        seq![(48 + n) as u8]
    } else {
        dec_rep(n / 10).push((48 + n % 10) as u8)
    }
}

/// The decimal rendering of a 64-bit signed integer, with a leading minus
/// sign when negative.
pub open spec fn spec_render_integer(v: i64) -> Seq<u8> {
    if v >= 0 {
        dec_rep(v as nat)
    } else {
        seq![45u8] + dec_rep((-(v as int)) as nat)
    }
}

/// Renders a 64-bit signed integer in decimal.
pub fn render_integer(v: i64) -> (r: Vec<u8>)
    ensures
        r@ == spec_render_integer(v),
{
    let neg = v < 0;
    let mag: u64 = if v >= 0 {
        v as u64
    } else {
        ((-(v + 1)) as u64) + 1
    };
    let mut rev: Vec<u8> = Vec::new();
    let mut m: u64 = mag;
    proof {
        assert(dec_rep(mag as nat) =~= dec_rep(m as nat) + rev@.reverse());
    }
    loop
        invariant_except_break
            dec_rep(mag as nat) == dec_rep(m as nat) + rev@.reverse(),
        ensures
            dec_rep(mag as nat) == rev@.reverse(),
            rev@.len() > 0,
        decreases m,
    {
        let d: u8 = (m % 10) as u8 + 48;
        let m2 = m / 10;
        proof {
            if m >= 10 {
                assert(dec_rep(m as nat) == dec_rep(m as nat / 10).push((48 + m as nat % 10) as u8));
            }
            assert(m as nat / 10 == m2 as nat);
            assert((48 + m as nat % 10) as u8 == d);
            assert(rev@.push(d).reverse() =~= seq![d] + rev@.reverse());
            assert(dec_rep(m2 as nat) + (seq![d] + rev@.reverse()) =~= (dec_rep(m2 as nat).push(d))
                + rev@.reverse());
        }
        rev.push(d);
        m = m2;
        if m == 0 {
            proof {
                assert(dec_rep(mag as nat) =~= rev@.reverse());
            }
            break;
        }
    }
    let mut out: Vec<u8> = Vec::new();
    if neg {
        out.push(45);
    }
    let base: usize = out.len();
    let mut j: usize = rev.len();
    while j > 0
        invariant
            j <= rev@.len(),
            base == if neg { 1int } else { 0int },
            out@.len() == base + (rev@.len() - j),
            neg ==> out@[0] == 45,
            forall|k: int|
                base <= k < out@.len() ==> #[trigger] out@[k] == rev@[rev@.len() - 1 - (k
                    - base)],
        decreases j,
    {
        j = j - 1;
        out.push(rev[j]);
    }
    proof {
        assert(out@ =~= spec_render_integer(v)) by {
            if neg {
                assert(mag as nat == (-(v as int)) as nat);
            } else {
                assert(mag as nat == v as nat);
            }
            assert(forall|k: int| 0 <= k < rev@.len() ==> rev@.reverse()[k] == rev@[rev@.len() - 1
                - k]);
        }
    }
    out
}

/// Drops trailing line terminators (line feed and carriage return).
pub open spec fn trim_line_ends(s: Seq<u8>) -> Seq<u8>
    decreases s.len(),
{
    if s.len() > 0 && (s.last() == 10 || s.last() == 13) {
        trim_line_ends(s.drop_last())
    } else {
        s
    }
}

/// Removes trailing line terminators from a byte string.
pub fn trim_line_ends_vec(line: Vec<u8>) -> (r: Vec<u8>)
    ensures
        r@ == trim_line_ends(line@),
{
    let mut v = line;
    loop
        invariant_except_break
            trim_line_ends(v@) == trim_line_ends(line@),
        ensures
            v@ == trim_line_ends(line@),
        decreases v@.len(),
    {
        if v.len() > 0 {
            let last = v[v.len() - 1];
            if last == 10 || last == 13 {
                proof {
                    assert(v@.drop_last() =~= v@.subrange(0, v@.len() - 1));
                }
                v.pop();
                continue;
            }
        }
        break;
    }
    v
}

/// Byte-string equality.
pub fn bytes_eq(a: &Vec<u8>, b: &Vec<u8>) -> (r: bool)
    ensures
        r == (a@ == b@),
{
    if a.len() != b.len() {
        return false;
    }
    let mut i: usize = 0;
    while i < a.len()
        invariant
            i <= a@.len(),
            a@.len() == b@.len(),
            forall|k: int| 0 <= k < i ==> a@[k] == b@[k],
        decreases a@.len() - i,
    {
        if a[i] != b[i] {
            return false;
        }
        i = i + 1;
    }
    proof {
        assert(a@ =~= b@);
    }
    true
}

/// Lexicographic (byte-wise) strict order on byte strings, the order Rust
/// gives owned text.
pub open spec fn bytes_lt(a: Seq<u8>, b: Seq<u8>) -> bool
    decreases a.len(),
{
    if b.len() == 0 {
        false
    } else if a.len() == 0 {
        true
    } else if a[0] < b[0] {
        true
    } else if a[0] > b[0] {
        false
    } else {
        bytes_lt(a.drop_first(), b.drop_first())
    }
}

/// Decides the lexicographic strict order on byte strings.
pub fn bytes_lt_exec(a: &Vec<u8>, b: &Vec<u8>) -> (r: bool)
    ensures
        r == bytes_lt(a@, b@),
{
    let mut i: usize = 0;
    proof {
        assert(a@.skip(0) =~= a@);
        assert(b@.skip(0) =~= b@);
    }
    while i < a.len() && i < b.len()
        invariant
            i <= a@.len(),
            i <= b@.len(),
            bytes_lt(a@, b@) == bytes_lt(a@.skip(i as int), b@.skip(i as int)),
        decreases a@.len() - i,
    {
        let ca = a[i];
        let cb = b[i];
        proof {
            assert(a@.skip(i as int)[0] == a@[i as int]);
            assert(b@.skip(i as int)[0] == b@[i as int]);
        }
        if ca < cb {
            return true;
        }
        if ca > cb {
            return false;
        }
        proof {
            assert(a@.skip(i as int).drop_first() =~= a@.skip(i + 1));
            assert(b@.skip(i as int).drop_first() =~= b@.skip(i + 1));
        }
        i = i + 1;
    }
    if i >= b.len() {
        proof {
            assert(b@.skip(i as int).len() == 0);
        }
        false
    } else {
        proof {
            assert(a@.skip(i as int).len() == 0);
            assert(b@.skip(i as int).len() > 0);
        }
        true
    }
}

/// Copies the byte range `[start, end)` of `v` into a fresh vector.
pub fn copy_range(v: &Vec<u8>, start: usize, end: usize) -> (r: Vec<u8>)
    requires
        start <= end <= v@.len(),
    ensures
        r@ == v@.subrange(start as int, end as int),
{
    let mut out: Vec<u8> = Vec::new();
    let mut i: usize = start;
    while i < end
        invariant
            start <= i <= end <= v@.len(),
            out@ == v@.subrange(start as int, i as int),
        decreases end - i,
    {
        proof {
            assert(v@.subrange(start as int, i + 1) =~= v@.subrange(start as int, i as int).push(
                v@[i as int],
            ));
        }
        out.push(v[i]);
        i = i + 1;
    }
    out
}

/// Copies a whole byte string.
pub fn clone_bytes(v: &Vec<u8>) -> (r: Vec<u8>)
    ensures
        r@ == v@,
{
    let r = copy_range(v, 0, v.len());
    proof {
        assert(v@.subrange(0, v@.len() as int) =~= v@);
    }
    r
}

/// Appends `src` to `dst`.
pub fn append_bytes(dst: &mut Vec<u8>, src: &Vec<u8>)
    ensures
        final(dst)@ == old(dst)@ + src@,
{
    let mut i: usize = 0;
    while i < src.len()
        invariant
            i <= src@.len(),
            dst@ == old(dst)@ + src@.subrange(0, i as int),
        decreases src@.len() - i,
    {
        proof {
            assert(old(dst)@ + src@.subrange(0, i + 1) =~= (old(dst)@ + src@.subrange(
                0,
                i as int,
            )).push(src@[i as int]));
        }
        dst.push(src[i]);
        i = i + 1;
    }
    proof {
        assert(old(dst)@ + src@.subrange(0, src@.len() as int) =~= old(dst)@ + src@);
    }
}

/// The concatenation of two byte strings.
pub fn concat_bytes(a: &Vec<u8>, b: &Vec<u8>) -> (r: Vec<u8>)
    ensures
        r@ == a@ + b@,
{
    let mut out = clone_bytes(a);
    append_bytes(&mut out, b);
    out
}

/// `s` repeated `n` times.
pub open spec fn repeat_bytes(s: Seq<u8>, n: nat) -> Seq<u8>
    decreases n,
{
    if n == 0 {
        Seq::empty()
    } else {
        repeat_bytes(s, (n - 1) as nat) + s
    }
}

/// Repeats a byte string a given number of times.
pub fn repeat_bytes_exec(s: &Vec<u8>, n: u64) -> (r: Vec<u8>)
    ensures
        r@ == repeat_bytes(s@, n as nat),
{
    let mut out: Vec<u8> = Vec::new();
    let mut k: u64 = 0;
    proof {
        assert(out@ =~= repeat_bytes(s@, 0));
    }
    while k < n
        invariant
            k <= n,
            out@ == repeat_bytes(s@, k as nat),
        decreases n - k,
    {
        append_bytes(&mut out, s);
        k = k + 1;
    }
    out
}

} // verus!
