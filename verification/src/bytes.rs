//! Little endian integers and byte strings.
use vstd::arithmetic::power2::{lemma_pow2_adds, lemma_pow2_pos, lemma_pow2_unfold, pow2};
use vstd::prelude::*;

verus! {

/// The integer whose little endian bytes are `s`.
pub open spec fn le_nat(s: Seq<u8>) -> nat
    decreases s.len(),
{
    if s.len() == 0 {
        0
    } else {
        s[0] as nat + 256 * le_nat(s.drop_first())
    }
}

/// The `len` low bytes of `n`, least significant first.
pub open spec fn le_bytes(n: nat, len: nat) -> Seq<u8>
    decreases len,
{
    if len == 0 {
        Seq::empty()
    } else {
        seq![(n % 256) as u8] + le_bytes(n / 256, (len - 1) as nat)
    }
}

/// `256^len`.
pub open spec fn pow256(len: nat) -> nat
    decreases len,
{
    if len == 0 {
        1
    } else {
        256 * pow256((len - 1) as nat)
    }
}

/// The bytes of an ASCII string.
pub open spec fn ascii(s: Seq<char>) -> Seq<u8> {
    s.map_values(|c: char| c as u8)
}

/// `n` zero bytes.
pub open spec fn zeros(n: nat) -> Seq<u8> {
    Seq::new(n, |i: int| 0u8)
}

pub proof fn lemma_pow256_values()
    ensures
        pow256(1) == 0x100,
        pow256(4) == 0x1_0000_0000,
        pow256(8) == 0x1_0000_0000_0000_0000,
        pow256(16) == 0x1_0000_0000_0000_0000_0000_0000_0000_0000,
        pow256(32) == 0x1_0000_0000_0000_0000_0000_0000_0000_0000_0000_0000_0000_0000_0000_0000_0000_0000nat,
{
    reveal_with_fuel(pow256, 33);
}

pub proof fn lemma_le_bytes_len(n: nat, len: nat)
    ensures
        le_bytes(n, len).len() == len,
    decreases len,
{
    if len > 0 {
        lemma_le_bytes_len(n / 256, (len - 1) as nat);
    }
}

pub proof fn lemma_le_nat_bound(s: Seq<u8>)
    ensures
        le_nat(s) < pow256(s.len()),
    decreases s.len(),
{
    if s.len() > 0 {
        lemma_le_nat_bound(s.drop_first());
    }
}

/// Reading back what was written gives the integer, if it fits.
pub proof fn lemma_le_nat_of_le_bytes(n: nat, len: nat)
    requires
        n < pow256(len),
    ensures
        le_nat(le_bytes(n, len)) == n,
        le_bytes(n, len).len() == len,
    decreases len,
{
    lemma_le_bytes_len(n, len);
    if len > 0 {
        lemma_le_nat_of_le_bytes(n / 256, (len - 1) as nat);
        let b = le_bytes(n, len);
        assert(b.drop_first() =~= le_bytes(n / 256, (len - 1) as nat));
        assert(b[0] == (n % 256) as u8);
    }
}

/// Integers that fit are told apart by their bytes.
pub proof fn lemma_le_bytes_injective(a: nat, b: nat, len: nat)
    requires
        a < pow256(len),
        b < pow256(len),
        le_bytes(a, len) == le_bytes(b, len),
    ensures
        a == b,
{
    lemma_le_nat_of_le_bytes(a, len);
    lemma_le_nat_of_le_bytes(b, len);
}

/// Two parts of known length are told apart in their concatenation.
pub proof fn lemma_parts_injective(a: Seq<u8>, b: Seq<u8>, c: Seq<u8>, d: Seq<u8>)
    requires
        a.len() == c.len(),
        a + b == c + d,
    ensures
        a == c,
        b == d,
{
    let n = a.len() as int;
    assert(a =~= (a + b).take(n));
    assert(c =~= (c + d).take(n));
    assert(b =~= (a + b).skip(n));
    assert(d =~= (c + d).skip(n));
}

/// Writing what was read gives the bytes back.
pub proof fn lemma_le_bytes_of_le_nat(s: Seq<u8>)
    ensures
        le_bytes(le_nat(s), s.len()) == s,
    decreases s.len(),
{
    if s.len() > 0 {
        lemma_le_bytes_of_le_nat(s.drop_first());
        let n = le_nat(s);
        assert(n % 256 == s[0] as nat);
        assert(n / 256 == le_nat(s.drop_first()));
        assert(le_bytes(n, s.len()) =~= s) by {
            assert(s =~= seq![s[0]] + s.drop_first());
        }
    } else {
        assert(s =~= Seq::empty());
    }
}

pub proof fn lemma_le_nat_append(a: Seq<u8>, b: Seq<u8>)
    ensures
        le_nat(a + b) == le_nat(a) + pow256(a.len()) * le_nat(b),
    decreases a.len(),
{
    if a.len() == 0 {
        assert(a + b =~= b);
        assert(pow256(0) * le_nat(b) == le_nat(b)) by (nonlinear_arith)
            requires
                pow256(0) == 1,
        ;
    } else {
        assert((a + b).drop_first() =~= a.drop_first() + b);
        lemma_le_nat_append(a.drop_first(), b);
        let p = pow256((a.len() - 1) as nat);
        let x = le_nat(b);
        assert(256 * (p * x) == (256 * p) * x) by (nonlinear_arith);
    }
}

/// The integer read so far, one byte further.
pub proof fn lemma_le_nat_push(s: Seq<u8>, b: u8)
    ensures
        le_nat(s.push(b)) == le_nat(s) + pow256(s.len()) * b,
{
    assert(s.push(b) =~= s + seq![b]);
    lemma_le_nat_append(s, seq![b]);
    reveal_with_fuel(le_nat, 2);
    assert(seq![b].drop_first() =~= Seq::empty());
}

/// The first `k` bytes do not change when more bytes of the same integer are written.
pub proof fn lemma_le_bytes_push(n: nat, len: nat)
    ensures
        le_bytes(n, len + 1) == le_bytes(n, len).push(((n / pow256(len)) % 256) as u8),
    decreases len,
{
    if len == 0 {
        reveal_with_fuel(le_bytes, 2);
        assert(n / pow256(0) == n) by (nonlinear_arith)
            requires
                pow256(0) == 1,
        ;
        assert(le_bytes(n, 1) =~= le_bytes(n, 0).push((n % 256) as u8));
    } else {
        lemma_le_bytes_push(n / 256, (len - 1) as nat);
        let p = pow256((len - 1) as nat);
        lemma_pow256_positive((len - 1) as nat);
        vstd::arithmetic::div_mod::lemma_div_denominator(n as int, 256, p as int);
        assert((n / 256) / p == n / pow256(len));
        assert(le_bytes(n, len + 1) =~= le_bytes(n, len).push(((n / pow256(len)) % 256) as u8));
    }
}

pub proof fn lemma_pow256_positive(len: nat)
    ensures
        pow256(len) > 0,
    decreases len,
{
    if len > 0 {
        lemma_pow256_positive((len - 1) as nat);
    }
}

pub proof fn lemma_pow256_monotone(a: nat, b: nat)
    requires
        a <= b,
    ensures
        pow256(a) <= pow256(b),
    decreases b,
{
    if a < b {
        lemma_pow256_monotone(a, (b - 1) as nat);
    }
}

/// The first bytes of an integer.
pub proof fn lemma_le_bytes_take(v: nat, len: nat, n: nat)
    requires
        n <= len,
    ensures
        le_bytes(v, len).take(n as int) == le_bytes(v, n),
    decreases n,
{
    lemma_le_bytes_len(v, len);
    lemma_le_bytes_len(v, n);
    if n > 0 {
        lemma_le_bytes_take(v / 256, (len - 1) as nat, (n - 1) as nat);
        let rest = le_bytes(v / 256, (len - 1) as nat);
        lemma_le_bytes_len(v / 256, (len - 1) as nat);
        assert(le_bytes(v, len).take(n as int) =~= seq![(v % 256) as u8] + rest.take(n - 1));
    }
}

/// The last bytes of an integer.
pub proof fn lemma_le_bytes_skip(v: nat, len: nat, n: nat)
    requires
        n <= len,
    ensures
        le_bytes(v, len).skip(n as int) == le_bytes(v / pow256(n), (len - n) as nat),
    decreases n,
{
    lemma_le_bytes_len(v, len);
    lemma_pow256_positive(n);
    if n == 0 {
        assert(v / pow256(0) == v) by (nonlinear_arith)
            requires
                pow256(0) == 1,
        ;
        assert(le_bytes(v, len).skip(0) =~= le_bytes(v, len));
    } else {
        let m = (n - 1) as nat;
        lemma_le_bytes_skip(v / 256, (len - 1) as nat, m);
        let rest = le_bytes(v / 256, (len - 1) as nat);
        assert(le_bytes(v, len).skip(n as int) =~= rest.skip(m as int));
        lemma_pow256_positive(m);
        vstd::arithmetic::div_mod::lemma_div_denominator(v as int, 256, pow256(m) as int);
    }
}

/// The low bytes of an integer are the integer without its upper part.
pub proof fn lemma_le_nat_of_low_bytes(v: nat, n: nat)
    ensures
        le_nat(le_bytes(v, n)) == v % pow256(n),
    decreases n,
{
    lemma_pow256_positive(n);
    if n == 0 {
        assert(v % 1 == 0);
    } else {
        let m = (n - 1) as nat;
        let p = pow256(m);
        lemma_pow256_positive(m);
        lemma_le_nat_of_low_bytes(v / 256, m);
        let b = le_bytes(v, n);
        assert(b.drop_first() =~= le_bytes(v / 256, m));
        assert(b[0] == (v % 256) as u8);
        vstd::arithmetic::div_mod::lemma_mod_breakdown(v as int, 256, p as int);
    }
}

/// Appends the `len` low bytes of `x`.
pub fn push_le(out: &mut Vec<u8>, x: u128, len: usize)
    requires
        len <= 16,
    ensures
        final(out)@ == old(out)@ + le_bytes(x as nat, len as nat),
{
    let mut rest: u128 = x;
    let mut i: usize = 0;
    let ghost before = out@;
    assert(before + le_bytes(x as nat, 0) =~= before);
    assert(x as nat / pow256(0) == x as nat) by (nonlinear_arith)
        requires
            pow256(0) == 1,
    ;
    while i < len
        invariant
            i <= len,
            len <= 16,
            rest as nat == x as nat / pow256(i as nat),
            out@ == before + le_bytes(x as nat, i as nat),
        decreases len - i,
    {
        proof {
            lemma_le_bytes_push(x as nat, i as nat);
            lemma_pow256_positive(i as nat);
            vstd::arithmetic::div_mod::lemma_div_denominator(x as int, pow256(i as nat) as int, 256);
            assert(pow256(i as nat + 1) == 256 * pow256(i as nat));
        }
        out.push((rest % 256) as u8);
        rest = rest / 256;
        i = i + 1;
        assert(out@ =~= before + le_bytes(x as nat, i as nat));
    }
}

/// Reads `len` bytes at `at` as one integer.
pub fn read_le(s: &[u8], at: usize, len: usize) -> (r: u128)
    requires
        len <= 16,
        at + len <= s@.len(),
    ensures
        r as nat == le_nat(s@.subrange(at as int, at + len)),
{
    let mut r: u128 = 0;
    let mut i: usize = 0;
    assert(s@.subrange(at as int, at as int) =~= Seq::empty());
    let mut scale: u128 = 1;
    while i < len
        invariant
            i <= len <= 16,
            at + len <= s.len(),
            r as nat == le_nat(s@.subrange(at as int, at + i)),
            i < 16 ==> scale as nat == pow256(i as nat),
        decreases len - i,
    {
        let b: u8 = s[at + i];
        proof {
            let part = s@.subrange(at as int, at + i);
            assert(s@.subrange(at as int, at + i + 1) =~= part.push(b));
            lemma_le_nat_push(part, b);
            lemma_le_nat_bound(part.push(b));
            lemma_pow256_monotone(i as nat + 1, 16);
            lemma_pow256_values();
            assert(scale * b == pow256(i as nat) * b);
            assert(scale <= scale * 256) by (nonlinear_arith);
            assert(0 <= scale * b) by (nonlinear_arith);
            assert(pow256(i as nat + 1) == 256 * pow256(i as nat));
            lemma_pow256_monotone(i as nat + 2, 17);
        }
        r = r + scale * (b as u128);
        if i < 15 {
            proof {
                lemma_pow256_monotone(i as nat + 1, 15);
                assert(pow256(16) == 256 * pow256(15));
            }
            scale = scale * 256;
        }
        i = i + 1;
    }
    r
}

/// The `N` bytes at `at`.
pub fn take<const N: usize>(s: &[u8], at: usize) -> (r: [u8; N])
    requires
        at + N <= s@.len(),
    ensures
        r@ == s@.subrange(at as int, at + N),
{
    let mut out: [u8; N] = vstd::array::array_fill_for_copy_types(0u8);
    let mut i: usize = 0;
    while i < N
        invariant
            i <= N,
            at + N <= s.len(),
            out@.len() == N,
            forall|j: int| 0 <= j < i ==> out@[j] == s@[at + j],
        decreases N - i,
    {
        out[i] = s[at + i];
        i = i + 1;
    }
    assert(out@ =~= s@.subrange(at as int, at + N));
    out
}

/// Appends all bytes of `s`.
pub fn append(out: &mut Vec<u8>, s: &[u8])
    ensures
        final(out)@ == old(out)@ + s@,
{
    let ghost before = out@;
    out.extend_from_slice(s);
    assert(out@ =~= before + s@);
}

/// A copy of some bytes.
pub fn copied(b: &[u8]) -> (r: Vec<u8>)
    ensures
        r@ == b@,
{
    let mut out: Vec<u8> = Vec::new();
    append(&mut out, b);
    assert(out@ =~= b@);
    out
}

/// Whether two byte strings are the same.
pub fn same(a: &[u8], b: &[u8]) -> (r: bool)
    ensures
        r == (a@ == b@),
{
    if a.len() != b.len() {
        return false;
    }
    let mut i: usize = 0;
    while i < a.len()
        invariant
            i <= a@.len(),
            a@.len() == b@.len(),
            forall|j: int| 0 <= j < i ==> a@[j] == b@[j],
        decreases a@.len() - i,
    {
        if a[i] != b[i] {
            assert(a@[i as int] != b@[i as int]);
            return false;
        }
        i = i + 1;
    }
    assert(a@ =~= b@);
    true
}

// --------------------------------------------------------------------------------------- bits

/// The lowest `n` bits of an integer, the least significant first.
pub open spec fn low_bits(value: nat, n: nat) -> Seq<bool> {
    Seq::new(n, |i: int| (value / pow2(i as nat)) % 2 == 1)
}

/// Appends the lowest `n` bits of `value`, the least significant first.
pub fn push_low_bits(out: &mut Vec<bool>, value: u128, n: usize)
    ensures
        final(out)@ == old(out)@ + low_bits(value as nat, n as nat),
{
    let ghost before = out@;
    let mut rest: u128 = value;
    let mut i: usize = 0;
    proof {
        vstd::arithmetic::power2::lemma2_to64();
        assert(value as nat / pow2(0) == value) by (nonlinear_arith)
            requires
                pow2(0) == 1,
        ;
        assert(before + low_bits(value as nat, 0) =~= before);
    }
    while i < n
        invariant
            i <= n,
            rest as nat == value as nat / pow2(i as nat),
            out@ == before + low_bits(value as nat, i as nat),
        decreases n - i,
    {
        proof {
            lemma_pow2_pos(i as nat);
            lemma_pow2_unfold(i as nat + 1);
            vstd::arithmetic::div_mod::lemma_div_denominator(
                value as int,
                pow2(i as nat) as int,
                2,
            );
            assert(pow2(i as nat) * 2 == pow2(i as nat + 1));
        }
        out.push(rest % 2 == 1);
        rest = rest / 2;
        assert(out@ =~= before + low_bits(value as nat, i as nat + 1));
        i = i + 1;
    }
}

/// The bits of an integer in two parts are the bits of the parts.
pub proof fn lemma_low_bits_split(low: nat, high: nat, a: nat, b: nat)
    requires
        low < pow2(a),
    ensures
        low_bits(low + pow2(a) * high, a + b) == low_bits(low, a) + low_bits(high, b),
{
    let whole = low + pow2(a) * high;
    lemma_pow2_pos(a);
    assert(whole / pow2(a) == high) by {
        assert(pow2(a) * high == high * pow2(a)) by (nonlinear_arith);
        vstd::arithmetic::div_mod::lemma_fundamental_div_mod_converse(
            whole as int,
            pow2(a) as int,
            high as int,
            low as int,
        );
    }
    assert forall|i: int| 0 <= i < a + b implies #[trigger] low_bits(whole, a + b)[i] == (low_bits(
        low,
        a,
    ) + low_bits(high, b))[i] by {
        lemma_pow2_pos(i as nat);
        if i < a {
            let k = (a - i) as nat;
            let p = pow2(i as nat) as int;
            let q = pow2((k - 1) as nat) as int;
            lemma_pow2_adds(i as nat, k);
            lemma_pow2_unfold(k);
            assert(pow2(a) * high == (2 * (q * high)) * p) by (nonlinear_arith)
                requires
                    pow2(a) == p * (2 * q),
            ;
            vstd::arithmetic::div_mod::lemma_hoist_over_denominator(
                low as int,
                2 * (q * high),
                p as nat,
            );
            assert(whole / pow2(i as nat) == low / pow2(i as nat) + 2 * (q * high));
        } else {
            let k = (i - a) as nat;
            lemma_pow2_pos(k);
            lemma_pow2_adds(a, k);
            vstd::arithmetic::div_mod::lemma_div_denominator(
                whole as int,
                pow2(a) as int,
                pow2(k) as int,
            );
        }
    }
    assert(low_bits(whole, a + b) =~= low_bits(low, a) + low_bits(high, b));
}

/// Integers that fit are told apart by their bits.
pub proof fn lemma_low_bits_injective(a: nat, b: nat, n: nat)
    requires
        a < pow2(n),
        b < pow2(n),
        low_bits(a, n) == low_bits(b, n),
    ensures
        a == b,
    decreases n,
{
    lemma_pow2_pos(n);
    if n == 0 {
        vstd::arithmetic::power2::lemma2_to64();
    } else {
        let m = (n - 1) as nat;
        lemma_pow2_unfold(n);
        let x = low_bits(a, n);
        let y = low_bits(b, n);
        assert(x[0] == y[0]);
        vstd::arithmetic::power2::lemma2_to64();
        assert(a / pow2(0) == a && b / pow2(0) == b) by (nonlinear_arith)
            requires
                pow2(0) == 1,
        ;
        assert forall|i: int| 0 <= i < m implies #[trigger] low_bits(
            a / 2,
            m,
        )[i] == low_bits(b / 2, m)[i] by {
            assert(x[i + 1] == y[i + 1]);
            lemma_halved_bit(a, i as nat);
            lemma_halved_bit(b, i as nat);
        }
        assert(low_bits(a / 2, m) =~= low_bits(b / 2, m));
        lemma_low_bits_injective(a / 2, b / 2, m);
    }
}

proof fn lemma_halved_bit(v: nat, i: nat)
    ensures
        (v / 2) / pow2(i) == v / pow2(i + 1),
{
    lemma_pow2_pos(i);
    lemma_pow2_unfold(i + 1);
    vstd::arithmetic::div_mod::lemma_div_denominator(v as int, 2, pow2(i) as int);
}

} // verus!
