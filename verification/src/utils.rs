use vstd::prelude::*;

verus! {

/// Greatest common divisor, by Euclid's algorithm.
pub open spec fn spec_gcd(a: nat, b: nat) -> nat
    decreases b,
{
    if b == 0 {
        a
    } else {
        spec_gcd(b, a % b)
    }
}

/// The gcd is positive as soon as one argument is, and divides both.
pub proof fn lemma_gcd_divides(a: nat, b: nat)
    requires
        a > 0 || b > 0,
    ensures
        spec_gcd(a, b) > 0,
        a % spec_gcd(a, b) == 0,
        b % spec_gcd(a, b) == 0,
    decreases b,
{
    let g = spec_gcd(a, b);
    if b == 0 {
        vstd::arithmetic::div_mod::lemma_mod_self_0(a as int);
        assert(0int % a as int == 0) by {
            vstd::arithmetic::div_mod::lemma_small_mod(0, a);
        }
    } else {
        vstd::arithmetic::div_mod::lemma_mod_bound(a as int, b as int);
        lemma_gcd_divides(b, a % b);
        // g >= 1 and g divides b and a % b; a = b*(a/b) + a%b, so g divides a.
        vstd::arithmetic::div_mod::lemma_fundamental_div_mod(a as int, b as int);
        vstd::arithmetic::div_mod::lemma_fundamental_div_mod(b as int, g as int);
        vstd::arithmetic::div_mod::lemma_fundamental_div_mod((a % b) as int, g as int);
        let q = a as int / b as int;
        let bg = b as int / g as int;
        let rg = (a % b) as int / g as int;
        assert(a as int == (q * bg + rg) * g as int) by (nonlinear_arith)
            requires
                a as int == b as int * q + (a % b) as int,
                b as int == g as int * bg + 0,
                (a % b) as int == g as int * rg + 0,
        {}
        assert(a as int % g as int == 0) by {
            vstd::arithmetic::div_mod::lemma_mod_multiples_basic(q * bg + rg, g as int);
        }
    }
}

/// The gcd is no larger than a positive argument.
pub proof fn lemma_gcd_bound(a: nat, b: nat)
    ensures
        b > 0 ==> spec_gcd(a, b) <= b,
        a > 0 ==> spec_gcd(a, b) <= a,
    decreases b,
{
    if b == 0 {
    } else {
        vstd::arithmetic::div_mod::lemma_mod_bound(a as int, b as int);
        lemma_gcd_bound(b, a % b);
        if a > 0 {
            if a % b == 0 {
                assert(spec_gcd(a, b) == spec_gcd(b, 0));
                assert(a >= b) by {
                    if a < b {
                        vstd::arithmetic::div_mod::lemma_small_mod(a, b);
                    }
                }
            } else {
                assert(spec_gcd(b, a % b) <= a % b);
                vstd::arithmetic::div_mod::lemma_mod_decreases(a, b);
            }
        }
    }
}

/// Greatest common divisor of two weights.
pub fn gcd(a: u8, b: u8) -> (g: u8)
    ensures
        g == spec_gcd(a as nat, b as nat),
    decreases b,
{
    if b == 0 {
        a
    } else {
        gcd(b, a % b)
    }
}

/// Cuts `v` into consecutive buckets, the i-th holding at most `sizes[i]`
/// elements; every element of `v` that fits lands in exactly one bucket,
/// in order, and a bucket past the end of `v` comes out empty.
pub open spec fn spec_split_vec<T>(v: Seq<T>, sizes: Seq<nat>) -> Seq<Seq<T>>
    decreases sizes.len(),
{
    if sizes.len() == 0 {
        Seq::empty()
    } else {
        let k = if v.len() <= sizes[0] {
            v.len() as int
        } else {
            sizes[0] as int
        };
        seq![v.take(k)] + spec_split_vec(v.skip(k), sizes.drop_first())
    }
}

/// Cuts `v` into consecutive buckets: one bucket per entry of `sizes`, the
/// i-th holding at most `sizes[i]` elements, filled in order from the front;
/// once `v` runs out the remaining buckets come out empty.
pub fn split_vec<T>(v: Vec<T>, sizes: &[usize]) -> (r: Vec<Vec<T>>)
    ensures
        r@.len() == sizes@.len(),
        r@.map_values(|b: Vec<T>| b@) == spec_split_vec(
            v@,
            sizes@.map_values(|s: usize| s as nat),
        ),
{
    let ghost sz = sizes@.map_values(|s: usize| s as nat);
    let mut rest = v;
    let mut ret: Vec<Vec<T>> = Vec::new();
    let mut i: usize = 0;
    proof {
        assert(sz.skip(0) =~= sz);
        assert(ret@.map_values(|b: Vec<T>| b@) + spec_split_vec(rest@, sz) =~= spec_split_vec(
            v@,
            sz,
        ));
    }
    while i < sizes.len()
        invariant
            0 <= i <= sizes@.len(),
            sz == sizes@.map_values(|s: usize| s as nat),
            sz.len() == sizes@.len(),
            ret@.len() == i,
            ret@.map_values(|b: Vec<T>| b@) + spec_split_vec(rest@, sz.skip(i as int))
                =~= spec_split_vec(v@, sz),
        decreases sizes@.len() - i,
    {
        let k = if rest.len() <= sizes[i] {
            rest.len()
        } else {
            sizes[i]
        };
        let ghost rest0 = rest@;
        let tail = rest.split_off(k);
        let ghost head = rest@;
        let bucket = rest;
        rest = tail;
        ret.push(bucket);
        proof {
            assert(head =~= rest0.take(k as int));
            assert(rest@ =~= rest0.skip(k as int));
            assert(sz.skip(i as int).drop_first() =~= sz.skip(i + 1));
            assert(sz.skip(i as int)[0] == sz[i as int]);
            assert(ret@.map_values(|b: Vec<T>| b@) + spec_split_vec(rest@, sz.skip(i + 1))
                =~= spec_split_vec(v@, sz));
        }
        i += 1;
    }
    proof {
        assert(sz.skip(sz.len() as int) =~= Seq::<nat>::empty());
        assert(spec_split_vec(rest@, Seq::<nat>::empty()) =~= Seq::<Seq<T>>::empty());
        assert(ret@.map_values(|b: Vec<T>| b@) =~= spec_split_vec(v@, sz));
    }
    ret
}

} // verus!
