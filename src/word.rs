//! 32-byte big-endian words, the unit of the structured binary ABI.
use vstd::prelude::*;

verus! {

/// Size of one ABI word in bytes.
pub const WORD: usize = 32;

/// Unsigned big-endian value of a byte string.
pub open spec fn be(s: Seq<u8>) -> nat
    decreases s.len(),
{
    if s.len() == 0 {
        0
    } else {
        be(s.drop_last()) * 256 + s.last() as nat
    }
}

pub open spec fn pow256(k: nat) -> nat
    decreases k,
{
    if k == 0 {
        1
    } else {
        256 * pow256((k - 1) as nat)
    }
}

/// Value of the word that starts at `pos`.
pub open spec fn word_at(s: Seq<u8>, pos: int) -> nat {
    be(s.subrange(pos, pos + 32))
}

/// `k` big-endian bytes holding `n` modulo 256^k.
pub open spec fn bytes_of(n: nat, k: nat) -> Seq<u8>
    decreases k,
{
    if k == 0 {
        Seq::empty()
    } else {
        bytes_of(n / 256, (k - 1) as nat).push((n % 256) as u8)
    }
}

/// The word that holds `n`.
pub open spec fn word_of(n: nat) -> Seq<u8> {
    bytes_of(n, 32)
}

/// Largest value that a `u64` holds, plus one.
pub open spec fn two_pow_64() -> nat {
    pow256(8)
}

pub proof fn lemma_pow256_positive(k: nat)
    ensures
        pow256(k) >= 1,
    decreases k,
{
    if k > 0 {
        lemma_pow256_positive((k - 1) as nat);
    }
}

pub proof fn lemma_pow256_values()
    ensures
        pow256(8) == 0x1_0000_0000_0000_0000,
        pow256(1) == 256,
{
    reveal_with_fuel(pow256, 9);
}

pub proof fn lemma_bytes_of_len(n: nat, k: nat)
    ensures
        bytes_of(n, k).len() == k,
    decreases k,
{
    if k > 0 {
        lemma_bytes_of_len(n / 256, (k - 1) as nat);
    }
}

/// Writing a value that fits and reading it back gives the value.
pub proof fn lemma_be_bytes_of(n: nat, k: nat)
    requires
        n < pow256(k),
    ensures
        be(bytes_of(n, k)) == n,
        bytes_of(n, k).len() == k,
    decreases k,
{
    lemma_bytes_of_len(n, k);
    if k > 0 {
        let p = pow256((k - 1) as nat);
        assert(n / 256 < p) by (nonlinear_arith)
            requires
                n < 256 * p,
        ;
        lemma_be_bytes_of(n / 256, (k - 1) as nat);
        let s = bytes_of(n, k);
        assert(s.drop_last() =~= bytes_of(n / 256, (k - 1) as nat));
        assert((n / 256) * 256 + n % 256 == n) by (nonlinear_arith);
    } else {
        assert(n == 0);
    }
}

pub proof fn lemma_be_bound(s: Seq<u8>)
    ensures
        be(s) < pow256(s.len()),
    decreases s.len(),
{
    if s.len() > 0 {
        let d = s.drop_last();
        lemma_be_bound(d);
        let a = be(d);
        let p = pow256(d.len());
        let b = s.last() as nat;
        assert(a * 256 + b < 256 * p) by (nonlinear_arith)
            requires
                a < p,
                b < 256,
        ;
    }
}

pub proof fn lemma_be_append(a: Seq<u8>, b: Seq<u8>)
    ensures
        be(a + b) == be(a) * pow256(b.len()) + be(b),
    decreases b.len(),
{
    if b.len() == 0 {
        assert(a + b =~= a);
        assert(be(b) == 0);
        assert(pow256(0) == 1);
    } else {
        let c = a + b;
        assert(c.drop_last() =~= a + b.drop_last());
        assert(c.last() == b.last());
        lemma_be_append(a, b.drop_last());
        assert(pow256(b.len()) == 256 * pow256(b.drop_last().len()));
        assert(be(c) == be(c.drop_last()) * 256 + c.last() as nat);
        assert(be(b) == be(b.drop_last()) * 256 + b.last() as nat);
        let x = be(a);
        let p = pow256(b.drop_last().len());
        let y = be(b.drop_last());
        let l = b.last() as nat;
        assert((x * p + y) * 256 + l == x * (256 * p) + (y * 256 + l)) by (nonlinear_arith);
        assert(be(c) == (x * p + y) * 256 + l);
    }
}

pub proof fn lemma_be_zero(s: Seq<u8>)
    requires
        forall|i: int| 0 <= i < s.len() ==> s[i] == 0,
    ensures
        be(s) == 0,
    decreases s.len(),
{
    if s.len() > 0 {
        lemma_be_zero(s.drop_last());
    }
}

pub proof fn lemma_be_nonzero(s: Seq<u8>, i: int)
    requires
        0 <= i < s.len(),
        s[i] != 0,
    ensures
        be(s) >= 1,
    decreases s.len(),
{
    if i < s.len() - 1 {
        lemma_be_nonzero(s.drop_last(), i);
    }
}

/// A word is below 2^64 exactly when its first 24 bytes are zero, and then its
/// value is that of its last 8 bytes.
pub proof fn lemma_word_low(w: Seq<u8>)
    requires
        w.len() == 32,
    ensures
        (forall|i: int| 0 <= i < 24 ==> w[i] == 0) ==> be(w) == be(w.subrange(24, 32)),
        (forall|i: int| 0 <= i < 24 ==> w[i] == 0) <==> be(w) < two_pow_64(),
{
    let hi = w.subrange(0, 24);
    let lo = w.subrange(24, 32);
    assert(w =~= hi + lo);
    lemma_be_append(hi, lo);
    lemma_be_bound(lo);
    lemma_pow256_positive(8);
    if forall|i: int| 0 <= i < 24 ==> w[i] == 0 {
        lemma_be_zero(hi);
    } else {
        let i = choose|i: int| 0 <= i < 24 && w[i] != 0;
        assert(hi[i] != 0);
        lemma_be_nonzero(hi, i);
        let x = be(hi);
        let p = pow256(8);
        assert(x * p + be(lo) >= p) by (nonlinear_arith)
            requires
                x >= 1,
        ;
    }
}

/// Reads the word at `pos` as a `u64`; `None` when its value does not fit.
pub fn read_u64(s: &[u8], pos: usize) -> (r: Option<u64>)
    requires
        pos + 32 <= s@.len(),
    ensures
        r is Some <==> word_at(s@, pos as int) < two_pow_64(),
        r matches Some(v) ==> v as nat == word_at(s@, pos as int),
{
    let ghost w = s@.subrange(pos as int, pos + 32);
    let len = s.len();
    let mut i: usize = 0;
    while i < 24
        invariant
            i <= 24,
            len == s@.len(),
            pos + 32 <= s@.len(),
            w == s@.subrange(pos as int, pos + 32),
            forall|j: int| 0 <= j < i ==> w[j] == 0,
        decreases 24 - i,
    {
        if s[pos + i] != 0 {
            assert(w[i as int] != 0);
            proof {
                lemma_word_low(w);
            }
            return None;
        }
        i = i + 1;
    }
    let mut v: u64 = 0;
    let mut k: usize = 0;
    while k < 8
        invariant
            k <= 8,
            len == s@.len(),
            pos + 32 <= s@.len(),
            forall|j: int| 0 <= j < 24 ==> w[j] == 0,
            w == s@.subrange(pos as int, pos + 32),
            v as nat == be(w.subrange(24, 24 + k as int)),
            (v as nat) < pow256(k as nat),
        decreases 8 - k,
    {
        let b = s[pos + 24 + k];
        proof {
            let t = w.subrange(24, 24 + k + 1);
            assert(t.drop_last() =~= w.subrange(24, 24 + k as int));
            assert(t.last() == b);
            lemma_pow256_values();
            assert(pow256(k as nat) * 256 <= pow256(8)) by {
                lemma_pow_mono(k as nat + 1, 8);
            }
            let p = pow256(k as nat);
            assert(v * 256 + b < p * 256) by (nonlinear_arith)
                requires
                    v < p,
                    b < 256,
            ;
        }
        v = v * 256 + b as u64;
        k = k + 1;
    }
    proof {
        lemma_word_low(w);
    }
    Some(v)
}

pub proof fn lemma_pow_mono(a: nat, b: nat)
    requires
        a <= b,
    ensures
        pow256(a) <= pow256(b),
    decreases b,
{
    if a < b {
        lemma_pow_mono(a, (b - 1) as nat);
        lemma_pow256_positive((b - 1) as nat);
    }
}

/// Two byte strings of one length with one value are equal.
pub proof fn lemma_be_injective(s: Seq<u8>, t: Seq<u8>)
    requires
        s.len() == t.len(),
        be(s) == be(t),
    ensures
        s == t,
    decreases s.len(),
{
    if s.len() > 0 {
        let a = be(s.drop_last()) as int;
        let b = be(t.drop_last()) as int;
        let x = s.last() as int;
        let y = t.last() as int;
        vstd::arithmetic::div_mod::lemma_fundamental_div_mod_converse(a * 256 + x, 256, a, x);
        vstd::arithmetic::div_mod::lemma_fundamental_div_mod_converse(a * 256 + x, 256, b, y);
        lemma_be_injective(s.drop_last(), t.drop_last());
        assert(s =~= s.drop_last().push(s.last()));
        assert(t =~= t.drop_last().push(t.last()));
    } else {
        assert(s =~= t);
    }
}

/// Appends the word that holds `n`.
pub fn push_word(out: &mut Vec<u8>, n: u64)
    ensures
        final(out)@ == old(out)@ + word_of(n as nat),
{
    let mut k: usize = 0;
    while k < 24
        invariant
            k <= 24,
            out@.len() == old(out)@.len() + k,
            out@.subrange(0, old(out)@.len() as int) == old(out)@,
            forall|i: int| old(out)@.len() <= i < out@.len() ==> out@[i] == 0,
        decreases 24 - k,
    {
        out.push(0);
        k = k + 1;
        assert(out@.subrange(0, old(out)@.len() as int) =~= old(out)@);
    }
    let ghost base = old(out)@.len() as int;
    let mut d: u64 = 0x100_0000_0000_0000;
    let mut j: usize = 0;
    proof {
        lemma_pow256_values();
        reveal_with_fuel(pow256, 9);
        assert(out@.subrange(base + 24, base + 24 + j as int) =~= Seq::<u8>::empty());
        assert((n as nat) / 0x1_0000_0000_0000_0000nat == 0) by (nonlinear_arith)
            requires
                (n as nat) < 0x1_0000_0000_0000_0000nat,
        ;
    }
    while j < 8
        invariant
            j <= 8,
            base == old(out)@.len(),
            out@.len() == base + 24 + j,
            out@.subrange(0, base) == old(out)@,
            forall|i: int| base <= i < base + 24 ==> out@[i] == 0,
            d as nat == pow256((7 - j) as nat) || j == 8,
            be(out@.subrange(base + 24, base + 24 + j as int)) == n as nat / pow256((8 - j) as nat),
        decreases 8 - j,
    {
        proof {
            lemma_pow256_positive((7 - j) as nat);
        }
        let b = ((n / d) % 256) as u8;
        let ghost prev = out@;
        out.push(b);
        proof {
            let jj = j as int;
            assert(out@ == prev.push(b));
            assert(prev.len() == base + 24 + jj);
            let p = pow256((7 - j) as nat);
            lemma_pow256_positive((7 - j) as nat);
            assert(pow256((8 - j) as nat) == 256 * p);
            vstd::arithmetic::div_mod::lemma_div_denominator(n as int, p as int, 256);
            vstd::arithmetic::div_mod::lemma_fundamental_div_mod((n as nat / p) as int, 256);
            let t = out@.subrange(base + 24, base + 24 + jj + 1);
            assert(t.drop_last() =~= prev.subrange(base + 24, base + 24 + jj));
            assert(t.last() == b);
            assert(out@.subrange(0, base) =~= prev.subrange(0, base));
        }
        if j < 7 {
            d = d / 256;
            proof {
                assert(pow256((7 - j) as nat) == 256 * pow256((6 - j) as nat));
            }
        }
        j = j + 1;
    }
    proof {
        let w = out@.subrange(base, base + 32);
        assert(w.subrange(24, 32) =~= out@.subrange(base + 24, base + 32));
        assert(forall|i: int| 0 <= i < 24 ==> w[i] == out@[base + i]);
        assert(forall|i: int| 0 <= i < 24 ==> w[i] == 0);
        assert(pow256(0) == 1);
        assert(be(w.subrange(24, 32)) == n as nat);
        lemma_word_low(w);
        lemma_pow256_positive(32);
        lemma_pow_mono(8, 32);
        lemma_be_bytes_of(n as nat, 32);
        lemma_be_injective(w, word_of(n as nat));
        assert(out@ =~= old(out)@ + w);
    }
}

} // verus!
