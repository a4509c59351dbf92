use vstd::prelude::*;
use vstd::arithmetic::div_mod::{
    lemma_fundamental_div_mod_converse_div, lemma_fundamental_div_mod_converse_mod,
};

verus! {

/// The natural number a little-endian decimal digit sequence denotes.
pub open spec fn val(s: Seq<u8>) -> nat
    decreases s.len(),
{
    if s.len() == 0 {
        0
    } else {
        s[0] as nat + 10 * val(s.drop_first())
    }
}

/// Powers of ten.
pub open spec fn pow10(n: nat) -> nat
    decreases n,
{
    if n == 0 {
        1
    } else {
        10 * pow10((n - 1) as nat)
    }
}

/// Every entry is a decimal digit.
pub open spec fn digits_ok(s: Seq<u8>) -> bool {
    forall|i: int| 0 <= i < s.len() ==> s[i] <= 9
}

/// Digits with no leading (that is, trailing in storage) zero: the unique
/// representation of its value.
pub open spec fn canonical(s: Seq<u8>) -> bool {
    digits_ok(s) && (s.len() > 0 ==> s[s.len() - 1] != 0)
}

/// The digit at `i`, reading zero beyond the end.
pub open spec fn dget(s: Seq<u8>, i: int) -> u8 {
    if 0 <= i < s.len() {
        s[i]
    } else {
        0
    }
}

/// The value of the first `i` digits (all of them once `i` passes the end).
pub open spec fn valp(s: Seq<u8>, i: int) -> nat {
    if i < 0 {
        0
    } else if i <= s.len() {
        val(s.take(i))
    } else {
        val(s)
    }
}

/// Appending a digit on the high end adds it at the next power of ten.
pub proof fn lemma_val_push(s: Seq<u8>, d: u8)
    ensures
        val(s.push(d)) == val(s) + d * pow10(s.len()),
    decreases s.len(),
{
    if s.len() == 0 {
        assert(s.push(d) =~= seq![d]);
        assert(seq![d].drop_first() =~= Seq::<u8>::empty());
        assert(val(seq![d]) == d as nat + 10 * val(seq![d].drop_first()));
        assert(d * pow10(0) == d) by (nonlinear_arith)
            requires
                pow10(0) == 1,
        {}
    } else {
        assert(s.push(d).drop_first() =~= s.drop_first().push(d));
        lemma_val_push(s.drop_first(), d);
        assert(val(s.push(d)) == s[0] as nat + 10 * val(s.drop_first().push(d)));
        assert(s[0] as nat + 10 * (val(s.drop_first()) + d * pow10((s.len() - 1) as nat)) == val(s)
            + d * pow10(s.len())) by (nonlinear_arith)
            requires
                val(s) == s[0] as nat + 10 * val(s.drop_first()),
                pow10(s.len()) == 10 * pow10((s.len() - 1) as nat),
        {}
    }
}

/// One more digit of a prefix adds that digit at its power of ten.
pub proof fn lemma_valp_succ(s: Seq<u8>, i: int)
    requires
        0 <= i,
    ensures
        valp(s, i + 1) == valp(s, i) + dget(s, i) * pow10(i as nat),
{
    if i < s.len() {
        assert(s.take(i + 1) =~= s.take(i).push(s[i]));
        lemma_val_push(s.take(i), s[i]);
    } else {
        assert(s.take(s.len() as int) =~= s);
        assert(dget(s, i) * pow10(i as nat) == 0) by (nonlinear_arith)
            requires
                dget(s, i) == 0,
        {}
    }
}

/// Past the end, a prefix is the whole sequence.
pub proof fn lemma_valp_full(s: Seq<u8>)
    ensures
        forall|i: int| i >= s.len() ==> valp(s, i) == val(s),
        valp(s, 0) == 0,
{
    assert(s.take(s.len() as int) =~= s);
    assert(s.take(0) =~= Seq::<u8>::empty());
    assert forall|i: int| i >= s.len() implies valp(s, i) == val(s) by {
        if i == s.len() {
            assert(s.take(i) =~= s);
        }
    }
}

/// The empty digit sequence is worth zero.
pub proof fn lemma_val_empty()
    ensures
        val(Seq::<u8>::empty()) == 0,
{
}

/// The single digit one is worth one.
pub proof fn lemma_val_one()
    ensures
        val(seq![1u8]) == 1,
{
    assert(seq![1u8].drop_first() =~= Seq::<u8>::empty());
    lemma_val_empty();
    assert(val(seq![1u8]) == 1u8 as nat + 10 * val(seq![1u8].drop_first()));
}

/// A digit sequence is worth less than ten to its length.
pub proof fn lemma_val_upper(s: Seq<u8>)
    requires
        digits_ok(s),
    ensures
        val(s) < pow10(s.len()),
    decreases s.len(),
{
    if s.len() > 0 {
        lemma_val_upper(s.drop_first());
        assert(s[0] as nat + 10 * val(s.drop_first()) < pow10(s.len())) by (nonlinear_arith)
            requires
                s[0] <= 9,
                val(s.drop_first()) < pow10((s.len() - 1) as nat),
                pow10(s.len()) == 10 * pow10((s.len() - 1) as nat),
        {}
    }
}

/// A canonical nonempty digit sequence is worth at least ten to one less
/// than its length.
pub proof fn lemma_val_lower(s: Seq<u8>)
    requires
        canonical(s),
        s.len() > 0,
    ensures
        val(s) >= pow10((s.len() - 1) as nat),
        val(s) >= 1,
    decreases s.len(),
{
    lemma_pow10_mono(0, (s.len() - 1) as nat);
    if s.len() == 1 {
        assert(s[0] != 0);
    } else {
        assert(canonical(s.drop_first()));
        lemma_val_lower(s.drop_first());
        assert(s[0] as nat + 10 * val(s.drop_first()) >= pow10((s.len() - 1) as nat))
            by (nonlinear_arith)
            requires
                val(s.drop_first()) >= pow10((s.len() - 2) as nat),
                pow10((s.len() - 1) as nat) == 10 * pow10((s.len() - 2) as nat),
        {}
    }
}

/// Dropping a high zero keeps the value.
pub proof fn lemma_val_drop_last_zero(s: Seq<u8>)
    requires
        s.len() > 0,
        s[s.len() - 1] == 0,
    ensures
        val(s) == val(s.drop_last()),
{
    assert(s =~= s.drop_last().push(0));
    lemma_val_push(s.drop_last(), 0);
    assert(0 * pow10(s.drop_last().len()) == 0) by (nonlinear_arith);
}

/// The value splits at any cut into a low part and a shifted high part.
pub proof fn lemma_val_split(s: Seq<u8>, k: int)
    requires
        0 <= k <= s.len(),
    ensures
        val(s) == val(s.take(k)) + pow10(k as nat) * val(s.skip(k)),
    decreases k,
{
    if k == 0 {
        assert(s.take(0) =~= Seq::<u8>::empty());
        assert(s.skip(0) =~= s);
        assert(pow10(0) * val(s) == val(s)) by (nonlinear_arith)
            requires
                pow10(0) == 1,
        {}
    } else {
        lemma_val_split(s, k - 1);
        assert(s.skip(k - 1).drop_first() =~= s.skip(k));
        assert(s.skip(k - 1).len() > 0);
        assert(val(s.skip(k - 1)) == s[k - 1] as nat + 10 * val(s.skip(k)));
        assert(s.take(k) =~= s.take(k - 1).push(s[k - 1]));
        lemma_val_push(s.take(k - 1), s[k - 1]);
        assert(val(s.take(k - 1)) + pow10((k - 1) as nat) * (s[k - 1] as nat + 10 * val(s.skip(k)))
            == val(s.take(k - 1)) + s[k - 1] * pow10((k - 1) as nat) + pow10(k as nat) * val(
            s.skip(k),
        )) by (nonlinear_arith)
            requires
                pow10(k as nat) == 10 * pow10((k - 1) as nat),
        {}
    }
}

/// Powers of ten are positive and grow with the exponent.
pub proof fn lemma_pow10_mono(i: nat, j: nat)
    requires
        i <= j,
    ensures
        1 <= pow10(i) <= pow10(j),
    decreases j,
{
    if j == 0 {
    } else if i == j {
        lemma_pow10_mono((i - 1) as nat, (j - 1) as nat);
        assert(pow10(j) >= 1) by (nonlinear_arith)
            requires
                pow10(j) == 10 * pow10((j - 1) as nat),
                pow10((j - 1) as nat) >= 1,
        {}
    } else {
        lemma_pow10_mono(i, (j - 1) as nat);
        assert(pow10(j) == 10 * pow10((j - 1) as nat));
        assert(10 * pow10((j - 1) as nat) >= pow10((j - 1) as nat)) by (nonlinear_arith)
            requires
                pow10((j - 1) as nat) >= 1,
        {}
    }
}

/// Removes high zeros, keeping the value and establishing canonical form.
pub fn trim(v: &mut Vec<u8>)
    requires
        digits_ok(old(v)@),
    ensures
        val(final(v)@) == val(old(v)@),
        canonical(final(v)@),
{
    while v.len() > 0 && v[v.len() - 1] == 0
        invariant
            digits_ok(v@),
            val(v@) == val(old(v)@),
        decreases v.len(),
    {
        proof {
            lemma_val_drop_last_zero(v@);
        }
        let ghost before = v@;
        v.pop();
        proof {
            assert(v@ =~= before.drop_last());
        }
    }
}

/// The larger of two lengths.
fn max_len(a: usize, b: usize) -> (r: usize)
    ensures
        r == if a < b {
            b as int
        } else {
            a as int
        },
{
    if a < b {
        b
    } else {
        a
    }
}

/// Digit-by-digit addition with carry, then trimming.
pub fn add_mag(a: &Vec<u8>, b: &Vec<u8>) -> (r: Vec<u8>)
    requires
        digits_ok(a@),
        digits_ok(b@),
    ensures
        val(r@) == val(a@) + val(b@),
        canonical(r@),
{
    let mut out: Vec<u8> = Vec::new();
    let mut carry: u8 = 0;
    let mut i: usize = 0;
    let n = max_len(a.len(), b.len());
    proof {
        lemma_valp_full(a@);
        lemma_valp_full(b@);
    }
    while i < n
        invariant
            i <= n,
            n == if a@.len() < b@.len() {
                b@.len()
            } else {
                a@.len()
            },
            digits_ok(a@),
            digits_ok(b@),
            carry <= 1,
            digits_ok(out@),
            out@.len() == i,
            val(out@) + carry * pow10(i as nat) == valp(a@, i as int) + valp(b@, i as int),
        decreases n - i,
    {
        let da: u8 = if i < a.len() {
            a[i]
        } else {
            0
        };
        let db: u8 = if i < b.len() {
            b[i]
        } else {
            0
        };
        let s: u8 = da + db + carry;
        let digit: u8 = s % 10;
        let new_carry: u8 = s / 10;
        proof {
            lemma_valp_succ(a@, i as int);
            lemma_valp_succ(b@, i as int);
            lemma_val_push(out@, digit);
            assert(val(out@) + digit * pow10(i as nat) + new_carry * pow10((i + 1) as nat) == valp(
                a@,
                i as int + 1,
            ) + valp(b@, i as int + 1)) by (nonlinear_arith)
                requires
                    val(out@) + carry * pow10(i as nat) == valp(a@, i as int) + valp(b@, i as int),
                    valp(a@, i as int + 1) == valp(a@, i as int) + dget(a@, i as int) * pow10(
                        i as nat,
                    ),
                    valp(b@, i as int + 1) == valp(b@, i as int) + dget(b@, i as int) * pow10(
                        i as nat,
                    ),
                    digit + 10 * new_carry == dget(a@, i as int) + dget(b@, i as int) + carry,
                    pow10((i + 1) as nat) == 10 * pow10(i as nat),
            {}
        }
        out.push(digit);
        carry = new_carry;
        i += 1;
    }
    if carry > 0 {
        proof {
            lemma_val_push(out@, carry);
        }
        out.push(carry);
    }
    trim(&mut out);
    out
}

/// Three-way comparison of canonical digit sequences: the sign of the
/// difference of their values.
pub fn cmp_mag(a: &Vec<u8>, b: &Vec<u8>) -> (r: i8)
    requires
        canonical(a@),
        canonical(b@),
    ensures
        r == -1 || r == 0 || r == 1,
        r == -1 <==> val(a@) < val(b@),
        r == 0 <==> val(a@) == val(b@),
        r == 1 <==> val(a@) > val(b@),
{
    if a.len() < b.len() {
        proof {
            lemma_val_upper(a@);
            lemma_val_lower(b@);
            lemma_pow10_mono(a@.len(), (b@.len() - 1) as nat);
        }
        return -1;
    }
    if b.len() < a.len() {
        proof {
            lemma_val_upper(b@);
            lemma_val_lower(a@);
            lemma_pow10_mono(b@.len(), (a@.len() - 1) as nat);
        }
        return 1;
    }
    let mut i: usize = a.len();
    while i > 0
        invariant
            i <= a@.len(),
            a@.len() == b@.len(),
            canonical(a@),
            canonical(b@),
            a@.skip(i as int) =~= b@.skip(i as int),
        decreases i,
    {
        i -= 1;
        if a[i] != b[i] {
            proof {
                lemma_val_split(a@, i as int + 1);
                lemma_val_split(b@, i as int + 1);
                lemma_val_upper(a@.take(i as int));
                lemma_val_upper(b@.take(i as int));
                assert(a@.take(i as int + 1) =~= a@.take(i as int).push(a@[i as int]));
                assert(b@.take(i as int + 1) =~= b@.take(i as int).push(b@[i as int]));
                lemma_val_push(a@.take(i as int), a@[i as int]);
                lemma_val_push(b@.take(i as int), b@[i as int]);
                assert(a@.skip(i as int + 1) =~= b@.skip(i as int + 1));
                if a@[i as int] < b@[i as int] {
                    assert(val(a@.take(i as int + 1)) < val(b@.take(i as int + 1)))
                        by (nonlinear_arith)
                        requires
                            val(a@.take(i as int + 1)) == val(a@.take(i as int)) + a@[i as int]
                                * pow10(i as nat),
                            val(b@.take(i as int + 1)) == val(b@.take(i as int)) + b@[i as int]
                                * pow10(i as nat),
                            val(a@.take(i as int)) < pow10(i as nat),
                            a@[i as int] < b@[i as int],
                    {}
                } else {
                    assert(val(b@.take(i as int + 1)) < val(a@.take(i as int + 1)))
                        by (nonlinear_arith)
                        requires
                            val(a@.take(i as int + 1)) == val(a@.take(i as int)) + a@[i as int]
                                * pow10(i as nat),
                            val(b@.take(i as int + 1)) == val(b@.take(i as int)) + b@[i as int]
                                * pow10(i as nat),
                            val(b@.take(i as int)) < pow10(i as nat),
                            b@[i as int] < a@[i as int],
                    {}
                }
            }
            if a[i] < b[i] {
                return -1;
            } else {
                return 1;
            }
        }
        proof {
            assert(a@.skip(i as int) =~= seq![a@[i as int]] + a@.skip(i as int + 1));
            assert(b@.skip(i as int) =~= seq![b@[i as int]] + b@.skip(i as int + 1));
        }
    }
    proof {
        assert(a@.skip(0) =~= a@);
        assert(b@.skip(0) =~= b@);
        assert(a@ =~= b@);
    }
    0
}

/// Digit-by-digit subtraction with borrow; the subtrahend must not exceed
/// the minuend.
pub fn sub_mag(a: &Vec<u8>, b: &Vec<u8>) -> (r: Vec<u8>)
    requires
        canonical(a@),
        canonical(b@),
        val(b@) <= val(a@),
    ensures
        val(r@) == val(a@) - val(b@),
        canonical(r@),
{
    proof {
        if b@.len() > a@.len() {
            lemma_val_upper(a@);
            lemma_val_lower(b@);
            lemma_pow10_mono(a@.len(), (b@.len() - 1) as nat);
        }
        lemma_valp_full(a@);
        lemma_valp_full(b@);
    }
    let mut out: Vec<u8> = Vec::new();
    let mut borrow: u8 = 0;
    let mut i: usize = 0;
    while i < a.len()
        invariant
            i <= a@.len(),
            b@.len() <= a@.len(),
            digits_ok(a@),
            digits_ok(b@),
            borrow <= 1,
            digits_ok(out@),
            out@.len() == i,
            val(out@) as int == valp(a@, i as int) - valp(b@, i as int) + borrow * pow10(i as nat),
        decreases a.len() - i,
    {
        let da: u8 = a[i];
        let db: u8 = if i < b.len() {
            b[i]
        } else {
            0
        };
        let digit: u8;
        let new_borrow: u8;
        if da >= db + borrow {
            digit = da - db - borrow;
            new_borrow = 0;
        } else {
            digit = da + 10 - db - borrow;
            new_borrow = 1;
        }
        proof {
            lemma_valp_succ(a@, i as int);
            lemma_valp_succ(b@, i as int);
            lemma_val_push(out@, digit);
            assert((val(out@) + digit * pow10(i as nat)) as int == valp(a@, i as int + 1) - valp(
                b@,
                i as int + 1,
            ) + new_borrow * pow10((i + 1) as nat)) by (nonlinear_arith)
                requires
                    val(out@) as int == valp(a@, i as int) - valp(b@, i as int) + borrow * pow10(
                        i as nat,
                    ),
                    valp(a@, i as int + 1) == valp(a@, i as int) + dget(a@, i as int) * pow10(
                        i as nat,
                    ),
                    valp(b@, i as int + 1) == valp(b@, i as int) + dget(b@, i as int) * pow10(
                        i as nat,
                    ),
                    digit as int == dget(a@, i as int) - dget(b@, i as int) - borrow + 10
                        * new_borrow,
                    pow10((i + 1) as nat) == 10 * pow10(i as nat),
            {}
        }
        out.push(digit);
        borrow = new_borrow;
        i += 1;
    }
    proof {
        if borrow == 1 {
            lemma_val_upper(out@);
            assert(false);
        }
    }
    trim(&mut out);
    out
}

/// Powers of ten multiply when exponents add.
pub proof fn lemma_pow10_add(a: nat, b: nat)
    ensures
        pow10(a + b) == pow10(a) * pow10(b),
    decreases b,
{
    if b == 0 {
        assert(pow10(a) * 1 == pow10(a)) by (nonlinear_arith);
    } else {
        lemma_pow10_add(a, (b - 1) as nat);
        assert(10 * (pow10(a) * pow10((b - 1) as nat)) == pow10(a) * (10 * pow10((b - 1) as nat)))
            by (nonlinear_arith);
    }
}

/// Multiplication by a machine word, digit by digit with a running carry.
pub fn mul_small(a: &Vec<u8>, m: u64) -> (r: Vec<u8>)
    requires
        digits_ok(a@),
    ensures
        val(r@) == val(a@) * m,
        canonical(r@),
{
    let mut out: Vec<u8> = Vec::new();
    let mut carry: u128 = 0;
    let mut i: usize = 0;
    proof {
        lemma_valp_full(a@);
    }
    while i < a.len()
        invariant
            i <= a@.len(),
            digits_ok(a@),
            digits_ok(out@),
            out@.len() == i,
            carry <= m,
            val(out@) + carry * pow10(i as nat) == valp(a@, i as int) * m,
        decreases a.len() - i,
    {
        proof {
            assert(a@[i as int] <= 9);
            assert((a@[i as int] as int) * (m as int) + carry <= 10 * (m as int))
                by (nonlinear_arith)
                requires
                    a@[i as int] <= 9,
                    carry <= m,
            {}
        }
        let t: u128 = (a[i] as u128) * (m as u128) + carry;
        let digit: u8 = (t % 10) as u8;
        let new_carry: u128 = t / 10;
        proof {
            vstd::arithmetic::div_mod::lemma_fundamental_div_mod(t as int, 10);
            assert(new_carry <= m) by (nonlinear_arith)
                requires
                    t <= 10 * (m as int),
                    t == 10 * (t as int / 10) + t as int % 10,
                    0 <= t as int % 10,
                    new_carry == t as int / 10,
            {}
            lemma_valp_succ(a@, i as int);
            lemma_val_push(out@, digit);
            assert(val(out@) + digit * pow10(i as nat) + new_carry * pow10((i + 1) as nat) == valp(
                a@,
                i as int + 1,
            ) * m) by (nonlinear_arith)
                requires
                    val(out@) + carry * pow10(i as nat) == valp(a@, i as int) * m,
                    valp(a@, i as int + 1) == valp(a@, i as int) + dget(a@, i as int) * pow10(
                        i as nat,
                    ),
                    digit + 10 * new_carry == dget(a@, i as int) * (m as int) + carry,
                    pow10((i + 1) as nat) == 10 * pow10(i as nat),
            {}
        }
        out.push(digit);
        carry = new_carry;
        i += 1;
    }
    while carry > 0
        invariant
            digits_ok(out@),
            val(out@) + carry * pow10(out@.len()) == val(a@) * m,
        decreases carry,
    {
        let digit: u8 = (carry % 10) as u8;
        let new_carry: u128 = carry / 10;
        proof {
            vstd::arithmetic::div_mod::lemma_fundamental_div_mod(carry as int, 10);
            lemma_val_push(out@, digit);
            assert(val(out@) + digit * pow10(out@.len()) + new_carry * pow10(out@.len() + 1) == val(
                a@,
            ) * m) by (nonlinear_arith)
                requires
                    val(out@) + carry * pow10(out@.len()) == val(a@) * m,
                    digit + 10 * new_carry == carry,
                    pow10(out@.len() + 1) == 10 * pow10(out@.len()),
            {}
        }
        out.push(digit);
        carry = new_carry;
    }
    trim(&mut out);
    out
}

/// Appends `k` low zeros: multiplication by ten to the `k`.
pub fn shift_mag(v: &Vec<u8>, k: usize) -> (r: Vec<u8>)
    requires
        digits_ok(v@),
    ensures
        val(r@) == pow10(k as nat) * val(v@),
        digits_ok(r@),
{
    let mut out: Vec<u8> = Vec::new();
    let mut i: usize = 0;
    while i < k
        invariant
            out@.len() == i <= k,
            digits_ok(out@),
            val(out@) == 0,
        decreases k - i,
    {
        proof {
            lemma_val_push(out@, 0);
            assert(0 * pow10(out@.len()) == 0) by (nonlinear_arith);
        }
        out.push(0);
        i += 1;
    }
    proof {
        lemma_valp_full(v@);
        assert(pow10(k as nat) * valp(v@, 0) == 0) by (nonlinear_arith)
            requires
                valp(v@, 0) == 0,
        {}
    }
    let mut j: usize = 0;
    while j < v.len()
        invariant
            j <= v@.len(),
            digits_ok(v@),
            digits_ok(out@),
            out@.len() == k + j,
            val(out@) == pow10(k as nat) * valp(v@, j as int),
        decreases v.len() - j,
    {
        proof {
            lemma_val_push(out@, v@[j as int]);
            lemma_valp_succ(v@, j as int);
            lemma_pow10_add(k as nat, j as nat);
            assert(pow10(k as nat) * valp(v@, j as int) + v@[j as int] * pow10((k + j) as nat)
                == pow10(k as nat) * valp(v@, j as int + 1)) by (nonlinear_arith)
                requires
                    valp(v@, j as int + 1) == valp(v@, j as int) + dget(v@, j as int) * pow10(
                        j as nat,
                    ),
                    dget(v@, j as int) == v@[j as int],
                    pow10((k + j) as nat) == pow10(k as nat) * pow10(j as nat),
            {}
        }
        out.push(v[j]);
        j += 1;
    }
    proof {
        lemma_valp_full(v@);
    }
    out
}

/// Long multiplication: one digit of the multiplier at a time.
pub fn mul_mag(a: &Vec<u8>, b: &Vec<u8>) -> (r: Vec<u8>)
    requires
        digits_ok(a@),
        digits_ok(b@),
    ensures
        val(r@) == val(a@) * val(b@),
        canonical(r@),
{
    let mut acc: Vec<u8> = Vec::new();
    let mut i: usize = 0;
    proof {
        lemma_valp_full(b@);
        assert(val(a@) * valp(b@, 0) == 0) by (nonlinear_arith)
            requires
                valp(b@, 0) == 0,
        {}
    }
    while i < b.len()
        invariant
            i <= b@.len(),
            digits_ok(a@),
            digits_ok(b@),
            canonical(acc@),
            val(acc@) == val(a@) * valp(b@, i as int),
        decreases b.len() - i,
    {
        let part = mul_small(a, b[i] as u64);
        let shifted = shift_mag(&part, i);
        proof {
            lemma_valp_succ(b@, i as int);
            assert(val(a@) * valp(b@, i as int) + pow10(i as nat) * (val(a@) * (b@[i as int]
                as nat)) == val(a@) * valp(b@, i as int + 1)) by (nonlinear_arith)
                requires
                    valp(b@, i as int + 1) == valp(b@, i as int) + dget(b@, i as int) * pow10(
                        i as nat,
                    ),
                    dget(b@, i as int) == b@[i as int],
            {}
        }
        acc = add_mag(&acc, &shifted);
        i += 1;
    }
    proof {
        lemma_valp_full(b@);
    }
    acc
}

/// The digit sequence of a machine word.
pub fn from_u64(n: u64) -> (r: Vec<u8>)
    ensures
        val(r@) == n,
        canonical(r@),
{
    let mut out: Vec<u8> = Vec::new();
    let mut rest: u64 = n;
    proof {
        assert(n * pow10(0) == n) by (nonlinear_arith)
            requires
                pow10(0) == 1,
        {}
    }
    while rest > 0
        invariant
            digits_ok(out@),
            val(out@) + rest * pow10(out@.len()) == n,
        decreases rest,
    {
        let digit: u8 = (rest % 10) as u8;
        let new_rest: u64 = rest / 10;
        proof {
            vstd::arithmetic::div_mod::lemma_fundamental_div_mod(rest as int, 10);
            lemma_val_push(out@, digit);
            assert(val(out@) + digit * pow10(out@.len()) + new_rest * pow10(out@.len() + 1)
                == n) by (nonlinear_arith)
                requires
                    val(out@) + rest * pow10(out@.len()) == n,
                    digit + 10 * new_rest == rest,
                    pow10(out@.len() + 1) == 10 * pow10(out@.len()),
            {}
        }
        out.push(digit);
        rest = new_rest;
    }
    proof {
        assert(0 * pow10(out@.len()) == 0) by (nonlinear_arith);
    }
    trim(&mut out);
    out
}

} // verus!
