use vstd::prelude::*;

use vstd::arithmetic::power2::{pow2, lemma_pow2_adds, lemma_pow2_pos, lemma2_to64,
    lemma2_to64_rest, lemma_pow2_strictly_increases};
use vstd::arithmetic::div_mod::{lemma_fundamental_div_mod_converse, lemma_div_is_ordered};
use crate::bytes::be_bytes_nat;

verus! {

/// The value of a little-endian sequence of 64-bit limbs.
pub open spec fn limbs_nat(s: Seq<u64>) -> nat
    decreases s.len(),
{
    if s.len() == 0 {
        0
    } else {
        (s.first() + limbs_nat(s.drop_first()) * pow2(64)) as nat
    }
}

/// The deterministic work estimate of a 256-bit hash `h`: the number of
/// expected hash attempts, `floor((2^256 - 1) / (H + 1))`, truncated to the
/// largest 64-bit value. A zero hash thus yields `u64::MAX`.
pub open spec fn work_nat(h: nat) -> nat {
    let q = (pow2(256) - 1) as nat / (h + 1);
    if q > 0xffff_ffff_ffff_ffff {
        0xffff_ffff_ffff_ffff as nat
    } else {
        q
    }
}

/// A big-endian byte string's value is bounded by `2^(8·len)`.
proof fn lemma_be_bytes_bound(s: Seq<u8>)
    ensures
        be_bytes_nat(s) < pow2(8 * s.len()),
    decreases s.len(),
{
    if s.len() == 0 {
        assert(pow2(0) == 1) by {
            lemma2_to64();
        }
    } else {
        lemma_be_bytes_bound(s.drop_last());
        lemma_pow2_adds(8 * (s.len() - 1) as nat, 8);
        assert(pow2(8) == 256) by {
            lemma2_to64();
        }
        assert(be_bytes_nat(s.drop_last()) * 256 + s.last() < pow2(8 * (s.len() - 1) as nat) * 256)
            by (nonlinear_arith)
            requires
                be_bytes_nat(s.drop_last()) < pow2(8 * (s.len() - 1) as nat),
                s.last() < 256,
        ;
    }
}

/// Splitting a big-endian byte string: the head is shifted past the tail.
proof fn lemma_be_bytes_concat(a: Seq<u8>, b: Seq<u8>)
    ensures
        be_bytes_nat(a + b) == be_bytes_nat(a) * pow2(8 * b.len()) + be_bytes_nat(b),
    decreases b.len(),
{
    if b.len() == 0 {
        assert(a + b =~= a);
        assert(pow2(0) == 1) by {
            lemma2_to64();
        }
        assert(be_bytes_nat(a) * 1 == be_bytes_nat(a)) by (nonlinear_arith);
    } else {
        lemma_be_bytes_concat(a, b.drop_last());
        assert((a + b).drop_last() =~= a + b.drop_last());
        assert((a + b).last() == b.last());
        lemma_pow2_adds(8 * (b.len() - 1) as nat, 8);
        assert(pow2(8) == 256) by {
            lemma2_to64();
        }
        assert((be_bytes_nat(a) * pow2(8 * (b.len() - 1) as nat) + be_bytes_nat(b.drop_last()))
            * 256 == be_bytes_nat(a) * (pow2(8 * (b.len() - 1) as nat) * 256) + be_bytes_nat(
            b.drop_last(),
        ) * 256) by (nonlinear_arith);
        assert(pow2(8 * (b.len() - 1) as nat) * 256 == pow2(8 * b.len())) by {
            lemma_pow2_adds(8 * (b.len() - 1) as nat, 8);
        }
    }
}

/// Appending a limb adds its value at the next weight.
proof fn lemma_limbs_push(s: Seq<u64>, x: u64)
    ensures
        limbs_nat(s.push(x)) == limbs_nat(s) + x * pow2(64 * s.len()),
    decreases s.len(),
{
    if s.len() == 0 {
        assert(s.push(x).drop_first() =~= s);
        assert(pow2(0) == 1) by {
            lemma2_to64();
        }
        assert(x * 1 == x) by (nonlinear_arith);
        assert(0 * pow2(64) == 0) by (nonlinear_arith);
    } else {
        assert(s.push(x).first() == s.first());
        assert(s.push(x).drop_first() =~= s.drop_first().push(x));
        lemma_limbs_push(s.drop_first(), x);
        assert(pow2(64 * (s.len() - 1) as nat) * pow2(64) == pow2(64 * s.len())) by {
            lemma_pow2_adds(64 * (s.len() - 1) as nat, 64);
            assert(64 * ((s.len() - 1) as nat) + 64 == 64 * s.len());
        }
        assert((limbs_nat(s.drop_first()) + x * pow2(64 * (s.len() - 1) as nat)) * pow2(64)
            == limbs_nat(s.drop_first()) * pow2(64) + x * (pow2(64 * (s.len() - 1) as nat) * pow2(
            64,
        ))) by (nonlinear_arith);
    }
}

/// A limb sequence's value is bounded by `2^(64·len)`.
proof fn lemma_limbs_bound(s: Seq<u64>)
    ensures
        limbs_nat(s) < pow2(64 * s.len()),
    decreases s.len(),
{
    if s.len() == 0 {
        assert(pow2(0) == 1) by {
            lemma2_to64();
        }
    } else {
        lemma_limbs_bound(s.drop_first());
        lemma_pow2_adds(64, 64 * (s.len() - 1) as nat);
        assert(pow2(64) == 0x1_0000_0000_0000_0000) by {
            lemma2_to64_rest();
        }
        assert(s.first() + limbs_nat(s.drop_first()) * pow2(64) < pow2(64) * pow2(
            64 * (s.len() - 1) as nat,
        )) by (nonlinear_arith)
            requires
                limbs_nat(s.drop_first()) < pow2(64 * (s.len() - 1) as nat),
                s.first() < pow2(64),
                pow2(64) >= 1,
                pow2(64 * (s.len() - 1) as nat) >= 1,
        {
            lemma_pow2_pos(64 * (s.len() - 1) as nat);
        }
    }
}

/// Reads the big-endian 64-bit integer at `off`.
fn u64_from_be(bytes: &Vec<u8>, off: usize) -> (r: u64)
    requires
        off + 8 <= bytes@.len(),
    ensures
        r == be_bytes_nat(bytes@.subrange(off as int, off + 8)),
{
    let mut v: u64 = 0;
    let mut i: usize = 0;
    let n = bytes.len();
    proof {
        assert(bytes@.subrange(off as int, off as int) =~= Seq::<u8>::empty());
        assert(pow2(0) == 1) by {
            lemma2_to64();
        }
    }
    while i < 8
        invariant
            off + 8 <= n,
            n == bytes@.len(),
            i <= 8,
            v == be_bytes_nat(bytes@.subrange(off as int, off + i)),
            v < pow2(8 * i as nat),
        decreases 8 - i,
    {
        proof {
            lemma_be_bytes_bound(bytes@.subrange(off as int, off + i));
            assert(pow2(8 * i as nat) <= pow2(56)) by {
                if i < 7 {
                    lemma_pow2_strictly_increases(8 * i as nat, 56);
                }
            }
            lemma2_to64();
            assert(pow2(56) == 0x100000000000000) by {
                lemma2_to64_rest();
            }
        }
        let b = bytes[off + i];
        let next = v * 256 + (b as u64);
        proof {
            let s = bytes@.subrange(off as int, off + i + 1);
            assert(s.drop_last() =~= bytes@.subrange(off as int, off + i));
            assert(s.last() == bytes@[off + i]);
            lemma_be_bytes_bound(s);
        }
        v = next;
        i = i + 1;
    }
    assert(bytes@.subrange(off as int, off + 8) =~= bytes@.subrange(off as int, off + 8));
    v
}

/// The 256-bit big-endian hash value, as four little-endian 64-bit limbs.
fn hash_to_limbs(hash: &Vec<u8>) -> (r: Vec<u64>)
    requires
        hash@.len() == 32,
    ensures
        r@.len() == 4,
        limbs_nat(r@) == be_bytes_nat(hash@),
{
    let l3 = u64_from_be(hash, 0);
    let l2 = u64_from_be(hash, 8);
    let l1 = u64_from_be(hash, 16);
    let l0 = u64_from_be(hash, 24);
    let mut r: Vec<u64> = Vec::new();
    r.push(l0);
    r.push(l1);
    r.push(l2);
    r.push(l3);
    proof {
        let h = hash@;
        let a = h.subrange(0, 8);
        let b = h.subrange(8, 16);
        let c = h.subrange(16, 24);
        let d = h.subrange(24, 32);
        assert(h =~= (a + b + c) + d);
        lemma_be_bytes_concat((a + b + c), d);
        assert((a + b + c) =~= (a + b) + c);
        lemma_be_bytes_concat((a + b), c);
        assert((a + b) =~= a + b);
        lemma_be_bytes_concat(a, b);
        assert(r@ =~= seq![l0, l1, l2, l3]);
        assert(r@.drop_first() =~= seq![l1, l2, l3]);
        assert(seq![l1, l2, l3].drop_first() =~= seq![l2, l3]);
        assert(seq![l2, l3].drop_first() =~= seq![l3]);
        assert(seq![l3].drop_first() =~= Seq::<u64>::empty());
        assert(limbs_nat(Seq::<u64>::empty()) == 0);
        assert(0 * pow2(64) == 0) by (nonlinear_arith);
        assert(limbs_nat(seq![l3]) == l3);
        assert(limbs_nat(seq![l2, l3]) == l2 + l3 * pow2(64));
        assert(limbs_nat(seq![l1, l2, l3]) == l1 + (l2 + l3 * pow2(64)) * pow2(64));
        assert(limbs_nat(r@) == l0 + (l1 + (l2 + l3 * pow2(64)) * pow2(64)) * pow2(64));
        lemma_pow2_adds(64, 64);
        lemma_pow2_adds(128, 64);
        assert((l2 + (l3 as nat) * pow2(64)) * pow2(64) == l2 * pow2(64) + (l3 as nat) * pow2(128))
            by (nonlinear_arith)
            requires
                pow2(64) * pow2(64) == pow2(128),
        ;
        assert((l1 + (l2 as nat) * pow2(64) + (l3 as nat) * pow2(128)) * pow2(64) == l1 * pow2(64)
            + (l2 as nat) * pow2(128) + (l3 as nat) * pow2(192)) by (nonlinear_arith)
            requires
                pow2(64) * pow2(64) == pow2(128),
                pow2(128) * pow2(64) == pow2(192),
        ;
        assert(be_bytes_nat(h) == (be_bytes_nat(a) * pow2(64) + be_bytes_nat(b)) * pow2(64)
            * pow2(64) + be_bytes_nat(c) * pow2(64) + be_bytes_nat(d)) by (nonlinear_arith)
            requires
                be_bytes_nat(h) == be_bytes_nat(a + b + c) * pow2(64) + be_bytes_nat(d),
                be_bytes_nat(a + b + c) == be_bytes_nat(a + b) * pow2(64) + be_bytes_nat(c),
                be_bytes_nat(a + b) == be_bytes_nat(a) * pow2(64) + be_bytes_nat(b),
        ;
        assert((be_bytes_nat(a) * pow2(64) + be_bytes_nat(b)) * pow2(64) * pow2(64) == be_bytes_nat(
            a,
        ) * pow2(192) + be_bytes_nat(b) * pow2(128)) by (nonlinear_arith)
            requires
                pow2(64) * pow2(64) == pow2(128),
                pow2(128) * pow2(64) == pow2(192),
        ;
    }
    r
}

/// The divisor `H + 1` as five little-endian limbs.
fn limbs_succ(l: &Vec<u64>) -> (r: Vec<u64>)
    requires
        l@.len() == 4,
    ensures
        r@.len() == 5,
        limbs_nat(r@) == limbs_nat(l@) + 1,
{
    let mut r: Vec<u64> = Vec::new();
    let mut carry: u64 = 1;
    let mut j: usize = 0;
    proof {
        assert(l@.take(0) =~= Seq::<u64>::empty());
        assert(r@ =~= Seq::<u64>::empty());
        assert(pow2(0) == 1) by {
            lemma2_to64();
        }
    }
    while j < 4
        invariant
            l@.len() == 4,
            j <= 4,
            r@.len() == j,
            carry <= 1,
            limbs_nat(r@) + carry * pow2(64 * j as nat) == limbs_nat(l@.take(j as int)) + 1,
        decreases 4 - j,
    {
        let x = l[j];
        let wide: u128 = (x as u128) + (carry as u128);
        let lo: u64 = (wide % 0x1_0000_0000_0000_0000) as u64;
        let hi: u64 = (wide / 0x1_0000_0000_0000_0000) as u64;
        proof {
            assert(wide == hi * 0x1_0000_0000_0000_0000 + lo && lo < 0x1_0000_0000_0000_0000
                && hi <= 1) by (nonlinear_arith)
                requires
                    wide <= 0x1_0000_0000_0000_0000,
                    lo == wide % 0x1_0000_0000_0000_0000,
                    hi == wide / 0x1_0000_0000_0000_0000,
            ;
            assert(pow2(64) == 0x1_0000_0000_0000_0000) by {
                lemma2_to64_rest();
            }
            lemma_limbs_push(r@, lo);
            lemma_pow2_adds(64 * j as nat, 64);
            assert(l@.take(j as int + 1).drop_last() =~= l@.take(j as int));
            assert(l@.take(j as int + 1).last() == x);
            lemma_limbs_last(l@.take(j as int + 1));
            assert(hi * pow2(64 * (j + 1) as nat) == (hi * pow2(64)) * pow2(64 * j as nat))
                by (nonlinear_arith)
                requires
                    pow2(64 * (j + 1) as nat) == pow2(64 * j as nat) * pow2(64),
            ;
            assert((x + hi * pow2(64)) * pow2(64 * j as nat) == x * pow2(64 * j as nat) + (hi
                * pow2(64)) * pow2(64 * j as nat)) by (nonlinear_arith);
            assert((lo + hi * pow2(64)) * pow2(64 * j as nat) == lo * pow2(64 * j as nat) + (hi
                * pow2(64)) * pow2(64 * j as nat)) by (nonlinear_arith);
            assert(((x as nat) + carry) * pow2(64 * j as nat) == (x as nat) * pow2(64 * j as nat)
                + (carry as nat) * pow2(64 * j as nat)) by (nonlinear_arith);
        }
        r.push(lo);
        carry = hi;
        j = j + 1;
    }
    proof {
        assert(l@.take(4) =~= l@);
    }
    lemma_limbs_push_exec(&mut r, carry);
    r
}

/// The value of a non-empty limb sequence, decomposed at its last limb.
proof fn lemma_limbs_last(s: Seq<u64>)
    requires
        s.len() > 0,
    ensures
        limbs_nat(s) == limbs_nat(s.drop_last()) + s.last() * pow2(64 * (s.len() - 1) as nat),
{
    assert(s =~= s.drop_last().push(s.last()));
    lemma_limbs_push(s.drop_last(), s.last());
}

/// Pushes a final carry limb, adding it at the next weight.
fn lemma_limbs_push_exec(r: &mut Vec<u64>, carry: u64)
    ensures
        final(r)@ == old(r)@.push(carry),
        limbs_nat(final(r)@) == limbs_nat(old(r)@) + carry * pow2(64 * old(r)@.len()),
{
    proof {
        lemma_limbs_push(r@, carry);
    }
    r.push(carry);
}

/// Whether `q · limbs_nat(d) < 2^256`, for a five-limb divisor.
fn scalar_mul_fits(q: u64, d: &Vec<u64>) -> (r: bool)
    requires
        d@.len() == 5,
    ensures
        r == ((q as nat) * limbs_nat(d@) < pow2(256)),
{
    let mut lows: Vec<u64> = Vec::new();
    let mut carry: u64 = 0;
    let mut j: usize = 0;
    proof {
        assert(d@.take(0) =~= Seq::<u64>::empty());
        assert(lows@ =~= Seq::<u64>::empty());
        assert(pow2(0) == 1) by {
            lemma2_to64();
        }
        assert((q as nat) * 0 == 0) by (nonlinear_arith);
    }
    while j < 5
        invariant
            d@.len() == 5,
            j <= 5,
            lows@.len() == j,
            (q as nat) * limbs_nat(d@.take(j as int)) == limbs_nat(lows@) + (carry as nat) * pow2(
                64 * j as nat,
            ),
        decreases 5 - j,
    {
        let x = d[j];
        proof {
            assert((q as nat) * (x as nat) + (carry as nat)
                <= 0xffff_ffff_ffff_ffff_ffff_ffff_ffff_ffffu128) by (nonlinear_arith)
                requires
                    q <= 0xffff_ffff_ffff_ffffu64,
                    x <= 0xffff_ffff_ffff_ffffu64,
                    carry <= 0xffff_ffff_ffff_ffffu64,
            ;
        }
        let wide: u128 = (q as u128) * (x as u128) + (carry as u128);
        let lo: u64 = (wide % 0x1_0000_0000_0000_0000) as u64;
        let hi: u64 = (wide / 0x1_0000_0000_0000_0000) as u64;
        proof {
            assert(wide == hi * 0x1_0000_0000_0000_0000 + lo && lo < 0x1_0000_0000_0000_0000
                && hi < 0x1_0000_0000_0000_0000) by (nonlinear_arith)
                requires
                    wide <= 0xffff_ffff_ffff_ffff_ffff_ffff_ffff_ffffu128,
                    lo == wide % 0x1_0000_0000_0000_0000,
                    hi == wide / 0x1_0000_0000_0000_0000,
            ;
            assert(pow2(64) == 0x1_0000_0000_0000_0000) by {
                lemma2_to64_rest();
            }
            assert(d@.take(j as int + 1).drop_last() =~= d@.take(j as int));
            assert(d@.take(j as int + 1).last() == x);
            lemma_limbs_last(d@.take(j as int + 1));
            lemma_limbs_push(lows@, lo);
            lemma_pow2_adds(64 * j as nat, 64);
            // q · take(j+1) == q · take(j) + q · x · 2^(64 j)
            assert((q as nat) * (limbs_nat(d@.take(j as int)) + (x as nat) * pow2(64 * j as nat))
                == (q as nat) * limbs_nat(d@.take(j as int)) + ((q as nat) * (x as nat)) * pow2(
                64 * j as nat,
            )) by (nonlinear_arith);
            // fold the step product and old carry into lo and the new carry
            assert(((q as nat) * (x as nat) + carry) * pow2(64 * j as nat) == (lo as nat) * pow2(
                64 * j as nat,
            ) + (hi as nat) * (pow2(64) * pow2(64 * j as nat))) by (nonlinear_arith)
                requires
                    (q as nat) * (x as nat) + carry == (hi as nat) * pow2(64) + lo,
            ;
            assert(pow2(64) * pow2(64 * j as nat) == pow2(64 * (j + 1) as nat)) by {
                lemma_pow2_adds(64, 64 * j as nat);
            }
            assert(((q as nat) * (x as nat)) * pow2(64 * j as nat) + (carry as nat) * pow2(
                64 * j as nat,
            ) == (((q as nat) * (x as nat)) + carry) * pow2(64 * j as nat)) by (nonlinear_arith);
        }
        lows.push(lo);
        carry = hi;
        j = j + 1;
    }
    proof {
        assert(d@.take(5) =~= d@);
    }
    let top = lows[4];
    let fits = top == 0 && carry == 0;
    proof {
        let total = (q as nat) * limbs_nat(d@);
        lemma_limbs_last(lows@);
        assert(lows@.drop_last().len() == 4);
        lemma_limbs_bound(lows@.drop_last());
        lemma_pow2_adds(256, 64);
        assert(64 * 5 == 320);
        assert(64 * 4 == 256);
        if top == 0 && carry == 0 {
            assert(total == limbs_nat(lows@.drop_last()) + 0 * pow2(256) + 0 * pow2(320));
            assert(0 * pow2(256) == 0 && 0 * pow2(320) == 0) by (nonlinear_arith);
        } else {
            lemma_pow2_pos(256);
            lemma_pow2_pos(320);
            if carry > 0 {
                assert((carry as nat) * pow2(320) >= pow2(320)) by (nonlinear_arith)
                    requires
                        carry >= 1,
                        pow2(320) > 0,
                ;
                assert(pow2(320) > pow2(256)) by {
                    lemma_pow2_strictly_increases(256, 320);
                }
            } else {
                assert((top as nat) * pow2(256) >= pow2(256)) by (nonlinear_arith)
                    requires
                        top >= 1,
                        pow2(256) > 0,
                ;
            }
        }
    }
    fits
}

/// Computes the work estimate of a 32-byte hash: the largest 64-bit `q` with
/// `q · (H + 1) ≤ 2^256 - 1`, which is `floor((2^256 - 1) / (H + 1))`
/// truncated to `u64::MAX`.
pub fn work(hash: &Vec<u8>) -> (w: u64)
    requires
        hash@.len() == 32,
    ensures
        w == work_nat(be_bytes_nat(hash@)),
{
    let limbs = hash_to_limbs(hash);
    let d = limbs_succ(&limbs);
    let ghost bign = (pow2(256) - 1) as nat;
    let ghost dval = limbs_nat(d@);
    proof {
        lemma_pow2_pos(256);
        assert(dval >= 1);
        assert(0 * dval == 0) by (nonlinear_arith);
    }
    let mut q: u64 = 0;
    let mut bitval: u64 = 0x8000_0000_0000_0000;
    let mut k: usize = 0;
    proof {
        assert(pow2(63) == 0x8000_0000_0000_0000) by {
            lemma2_to64_rest();
        }
        assert(pow2(64) == 0x1_0000_0000_0000_0000) by {
            lemma2_to64_rest();
        }
        lemma_pow2_adds(63, 1);
        assert(pow2(1) == 2) by {
            lemma2_to64();
        }
    }
    while k < 64
        invariant
            k <= 64,
            dval == limbs_nat(d@),
            dval >= 1,
            d@.len() == 5,
            bign == (pow2(256) - 1) as nat,
            pow2(64) == 0x1_0000_0000_0000_0000,
            k < 64 ==> bitval == pow2((63 - k) as nat),
            k < 64 ==> (q as nat) + 2 * (bitval as nat) <= 0x1_0000_0000_0000_0000,
            (q as nat) * dval <= bign,
            ((q as nat) + pow2((64 - k) as nat)) * dval > bign || (q as nat) + pow2(
                (64 - k) as nat,
            ) > 0xffff_ffff_ffff_ffff,
        decreases 64 - k,
    {
        proof {
            lemma_pow2_adds((63 - k) as nat, 1);
            assert(pow2(1) == 2) by {
                lemma2_to64();
            }
            lemma_pow2_pos((63 - k) as nat);
        }
        let trial = q + bitval;
        if scalar_mul_fits(trial, &d) {
            proof {
                assert((trial as nat) * dval <= bign) by (nonlinear_arith)
                    requires
                        (trial as nat) * dval < pow2(256),
                        bign == (pow2(256) - 1) as nat,
                ;
            }
            q = trial;
        } else {
            proof {
                lemma_pow2_pos(256);
                assert((trial as nat) * dval >= pow2(256));
                assert((trial as nat) * dval > bign);
            }
        }
        proof {
            if k < 63 {
                lemma_pow2_adds((62 - k) as nat, 1);
                lemma_pow2_pos((62 - k) as nat);
                assert(bitval / 2 == pow2((62 - k) as nat));
            }
        }
        bitval = bitval / 2;
        k = k + 1;
    }
    proof {
        assert(pow2(0) == 1) by {
            lemma2_to64();
        }
        let qn = q as nat;
        if qn + 1 > 0xffff_ffff_ffff_ffff {
            // q is the 64-bit maximum and q·(H+1) still fits under 2^256 - 1,
            // so the true quotient is at least the 64-bit maximum
            assert(q == 0xffff_ffff_ffff_ffffu64);
            lemma_div_is_ordered((qn * dval) as int, bign as int, dval as int);
            assert((qn * dval) as int / dval as int == qn) by (nonlinear_arith)
                requires
                    dval >= 1,
            ;
            assert(bign / dval >= qn);
            assert(work_nat(be_bytes_nat(hash@)) == 0xffff_ffff_ffff_ffff as nat);
        } else {
            assert((qn + 1) * dval > bign);
            let r = bign - qn * dval;
            assert((qn + 1) * dval == qn * dval + dval) by (nonlinear_arith);
            assert(0 <= r < dval);
            lemma_fundamental_div_mod_converse(bign as int, dval as int, qn as int, r as int);
            assert(bign / dval == qn);
        }
    }
    q
}

} // verus!
