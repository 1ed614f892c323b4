use vstd::prelude::*;

verus! {

// Whether the decimal text of a float literal stands for a number that rounds to zero as a
// double, decided with whole numbers: a literal `d.ddd` is the whole number its digits
// spell over a power of ten, and it rounds to zero when it is at most 2^-1075, half the
// smallest positive double (a tie rounds to the even zero).

/// 10 to the power `n`.
pub open spec fn pow10(n: nat) -> nat
    decreases n,
{
    if n == 0 {
        1
    } else {
        10 * pow10((n - 1) as nat)
    }
}

/// 2 to the power `n`.
pub open spec fn two_pow(n: nat) -> nat
    decreases n,
{
    if n == 0 {
        1
    } else {
        2 * two_pow((n - 1) as nat)
    }
}

/// The number that the decimal digits `ds` spell, most significant first.
pub open spec fn dec_value(ds: Seq<u8>) -> nat
    decreases ds.len(),
{
    if ds.len() == 0 {
        0
    } else {
        dec_value(ds.drop_last()) * 10 + ds.last() as nat
    }
}

/// The byte is an ASCII digit.
pub open spec fn is_digit_byte(c: u8) -> bool {
    48 <= c <= 57
}

/// The values of the digits among the bytes `b`, in order.
pub open spec fn text_digits(b: Seq<u8>) -> Seq<u8>
    decreases b.len(),
{
    if b.len() == 0 {
        seq![]
    } else if is_digit_byte(b.last()) {
        text_digits(b.drop_last()).push((b.last() - 48) as u8)
    } else {
        text_digits(b.drop_last())
    }
}

/// The bytes `b` hold a `.`.
pub open spec fn has_dot(b: Seq<u8>) -> bool
    decreases b.len(),
{
    b.len() > 0 && (b.last() == 46u8 || has_dot(b.drop_last()))
}

/// How many digits follow the first `.` among the bytes `b`.
pub open spec fn frac_digits(b: Seq<u8>) -> nat
    decreases b.len(),
{
    if b.len() == 0 {
        0
    } else if is_digit_byte(b.last()) && has_dot(b.drop_last()) {
        frac_digits(b.drop_last()) + 1
    } else {
        frac_digits(b.drop_last())
    }
}

/// The decimal text `b` (its digits, with the point after the first `.`) stands for a
/// number that rounds to zero as a double: `digits / 10^fraction <= 2^-1075`.
pub open spec fn rounds_to_zero(b: Seq<u8>) -> bool {
    dec_value(text_digits(b)) * two_pow(1075) <= pow10(frac_digits(b))
}

/// Every element is a decimal digit.
pub open spec fn all_digits(ds: Seq<u8>) -> bool {
    forall|i: int| 0 <= i < ds.len() ==> #[trigger] ds[i] < 10
}

/// The digits of `ds` doubled, before any carry out of the top: each digit doubled, plus
/// one when the next digit is 5 or more.
pub open spec fn doubled_digits(ds: Seq<u8>) -> Seq<u8> {
    Seq::new(
        ds.len(),
        |i: int|
            ((2 * ds[i] + if i + 1 < ds.len() && ds[i + 1] >= 5 {
                1int
            } else {
                0int
            }) % 10) as u8,
    )
}

/// The digits of twice the number `ds` spells: a leading 1 when the top digit is 5 or
/// more, then the doubled digits.
pub open spec fn double_of(ds: Seq<u8>) -> Seq<u8> {
    if ds.len() > 0 && ds[0] >= 5 {
        seq![1u8] + doubled_digits(ds)
    } else {
        doubled_digits(ds)
    }
}

/// Appending digits: the front part shifts up by the length of the back part.
pub proof fn lemma_dec_concat(x: Seq<u8>, y: Seq<u8>)
    ensures
        dec_value(x + y) == dec_value(x) * pow10(y.len()) + dec_value(y),
    decreases y.len(),
{
    if y.len() == 0 {
        assert(x + y =~= x);
        assert(pow10(0) == 1);
        assert(dec_value(y) == 0);
        assert(dec_value(x) * 1 == dec_value(x));
    } else {
        let yp = y.drop_last();
        lemma_dec_concat(x, yp);
        assert((x + y).drop_last() =~= x + yp);
        assert((x + y).last() == y.last());
        assert(dec_value(x + y) == dec_value(x + yp) * 10 + y.last() as nat);
        assert(dec_value(y) == dec_value(yp) * 10 + y.last() as nat);
        assert(pow10(y.len()) == 10 * pow10(yp.len()));
        let a = dec_value(x);
        let p = pow10(yp.len());
        let b = dec_value(yp);
        assert((a * p + b) * 10 + y.last() as nat == a * (10 * p) + (b * 10 + y.last() as nat))
            by (nonlinear_arith);
        assert(dec_value(x + y) == (a * p + b) * 10 + y.last() as nat);
    }
}

/// Replacing the last digit changes the number by the difference.
pub proof fn lemma_dec_last(s: Seq<u8>, v: u8)
    requires
        s.len() > 0,
    ensures
        dec_value(s.update(s.len() - 1, v)) + s.last() == dec_value(s) + v,
{
    assert(s.update(s.len() - 1, v).drop_last() =~= s.drop_last());
}

/// Digits that are all zero spell zero, and only they do.
pub proof fn lemma_dec_zero(ds: Seq<u8>)
    ensures
        dec_value(ds) == 0 <==> forall|i: int| 0 <= i < ds.len() ==> ds[i] == 0,
    decreases ds.len(),
{
    if ds.len() > 0 {
        lemma_dec_zero(ds.drop_last());
        if dec_value(ds) == 0 {
            assert forall|i: int| 0 <= i < ds.len() implies ds[i] == 0 by {
                if i < ds.len() - 1 {
                    assert(ds[i] == ds.drop_last()[i]);
                }
            }
        }
        if forall|i: int| 0 <= i < ds.len() ==> ds[i] == 0 {
            assert forall|i: int| 0 <= i < ds.drop_last().len() implies ds.drop_last()[i] == 0 by {
                assert(ds.drop_last()[i] == ds[i]);
            }
            assert(ds[ds.len() - 1] == 0);
        }
    }
}

/// `n` digits spell less than `10^n`.
pub proof fn lemma_dec_bound(ds: Seq<u8>)
    requires
        all_digits(ds),
    ensures
        dec_value(ds) < pow10(ds.len()),
    decreases ds.len(),
{
    if ds.len() > 0 {
        assert(all_digits(ds.drop_last())) by {
            assert forall|i: int| 0 <= i < ds.drop_last().len() implies #[trigger] ds.drop_last()[i]
                < 10 by {
                assert(ds.drop_last()[i] == ds[i]);
            }
        }
        lemma_dec_bound(ds.drop_last());
        assert(ds[ds.len() - 1] < 10);
        let a = dec_value(ds.drop_last());
        let p = pow10(ds.drop_last().len());
        assert(a + 1 <= p);
        assert(a * 10 + 10 <= p * 10) by (nonlinear_arith)
            requires
                a + 1 <= p,
        ;
    }
}

/// Powers of ten grow.
pub proof fn lemma_pow10_mono(m: nat, n: nat)
    requires
        m <= n,
    ensures
        pow10(m) <= pow10(n),
        m < n ==> pow10(m) < pow10(n),
    decreases n,
{
    if m < n {
        lemma_pow10_mono(m, (n - 1) as nat);
        lemma_pow10_pos((n - 1) as nat);
    }
}

/// Powers of ten are positive.
pub proof fn lemma_pow10_pos(n: nat)
    ensures
        pow10(n) >= 1,
    decreases n,
{
    if n > 0 {
        lemma_pow10_pos((n - 1) as nat);
    }
}

/// Doubling digit by digit gives the digits of twice the number.
#[verifier::rlimit(40)]
pub proof fn lemma_double(ds: Seq<u8>)
    requires
        all_digits(ds),
    ensures
        all_digits(double_of(ds)),
        dec_value(double_of(ds)) == 2 * dec_value(ds),
    decreases ds.len(), 1nat,
{
    let n = ds.len();
    let d = doubled_digits(ds);
    assert(all_digits(d));
    if n == 0 {
        assert(d =~= Seq::<u8>::empty());
        assert(double_of(ds) =~= Seq::<u8>::empty());
    } else if n == 1 {
        lemma_double_one(ds);
    } else {
        lemma_double_step(ds);
    }
}

/// Doubling one digit.
proof fn lemma_double_one(ds: Seq<u8>)
    requires
        all_digits(ds),
        ds.len() == 1,
    ensures
        all_digits(double_of(ds)),
        dec_value(double_of(ds)) == 2 * dec_value(ds),
{
    let a = ds[0];
    let d = doubled_digits(ds);
    assert(d =~= seq![((2 * a) % 10) as u8]);
    assert(ds.drop_last() =~= Seq::<u8>::empty());
    assert(ds.last() == a);
    assert(dec_value(ds.drop_last()) == 0);
    assert(dec_value(ds) == a as nat);
    assert(d.drop_last() =~= Seq::<u8>::empty());
    assert(dec_value(d) == ((2 * a) % 10) as nat);
    if a >= 5 {
        let e = seq![1u8, ((2 * a) % 10) as u8];
        assert(double_of(ds) =~= e);
        assert(e.drop_last() =~= seq![1u8]);
        assert(seq![1u8].drop_last() =~= Seq::<u8>::empty());
        assert(dec_value(seq![1u8]) == 1);
        assert(dec_value(e) == 10 + ((2 * a) % 10) as nat);
    } else {
        assert(double_of(ds) == d);
    }
}

/// Doubling several digits, from doubling all but the last.
proof fn lemma_double_step(ds: Seq<u8>)
    requires
        all_digits(ds),
        ds.len() >= 2,
    ensures
        all_digits(double_of(ds)),
        dec_value(double_of(ds)) == 2 * dec_value(ds),
    decreases ds.len(), 0nat,
{
    let n = ds.len();
    let d = doubled_digits(ds);
    let p = ds.drop_last();
    let last = ds.last();
    assert(all_digits(p)) by {
        assert forall|i: int| 0 <= i < p.len() implies #[trigger] p[i] < 10 by {
            assert(p[i] == ds[i]);
        }
    }
    lemma_double(p);
    let dp = doubled_digits(p);
    let c: u8 = if last >= 5 {
        1
    } else {
        0
    };
    assert(dp[n - 2] == ((2 * p[n - 2]) % 10) as u8);
    let up = dp.update(n - 2, (dp[n - 2] + c) as u8);
    let tail = ((2 * last) % 10) as u8;
    assert(d =~= up.push(tail));
    let pre = if ds[0] >= 5 {
        seq![1u8]
    } else {
        Seq::<u8>::empty()
    };
    assert(p[0] == ds[0]);
    assert(double_of(p) =~= pre + dp);
    assert(double_of(ds) =~= pre + d);
    assert(all_digits(double_of(ds)));
    assert(pre + up =~= (pre + dp).update((pre + dp).len() - 1, (dp[n - 2] + c) as u8));
    lemma_dec_last(pre + dp, (dp[n - 2] + c) as u8);
    assert((pre + dp).last() == dp[n - 2]);
    assert(dec_value(pre + up) == dec_value(pre + dp) + c);
    assert((pre + d).drop_last() =~= pre + up);
    assert((pre + d).last() == tail);
    assert(dec_value(pre + d) == dec_value(pre + up) * 10 + tail as nat);
    assert(dec_value(ds) == dec_value(p) * 10 + last as nat);
    assert(2 * last == 10 * c + (2 * last) % 10);
}

/// Where the first nonzero digit of `ds` is, the number lies between the powers of ten
/// that the count of digits from there gives, and is the lower one only when the rest of
/// the digits are zero.
pub proof fn lemma_leading(ds: Seq<u8>, f: int)
    requires
        all_digits(ds),
        0 <= f < ds.len(),
        ds[f] != 0,
        forall|i: int| 0 <= i < f ==> ds[i] == 0,
    ensures
        pow10((ds.len() - f - 1) as nat) <= dec_value(ds) < pow10((ds.len() - f) as nat),
        dec_value(ds) == pow10((ds.len() - f - 1) as nat) <==> (ds[f] == 1 && forall|i: int|
            f < i < ds.len() ==> ds[i] == 0),
{
    let z = ds.take(f);
    let sd = ds.skip(f);
    let r = ds.skip(f + 1);
    assert(ds =~= z + sd);
    lemma_dec_concat(z, sd);
    lemma_dec_zero(z);
    assert(dec_value(ds) == dec_value(sd));
    assert(sd =~= seq![ds[f]] + r);
    lemma_dec_concat(seq![ds[f]], r);
    assert(seq![ds[f]].drop_last() =~= Seq::<u8>::empty());
    assert(dec_value(Seq::<u8>::empty()) == 0);
    assert(dec_value(seq![ds[f]]) == ds[f] as nat);
    assert(all_digits(r)) by {
        assert forall|i: int| 0 <= i < r.len() implies #[trigger] r[i] < 10 by {
            assert(r[i] == ds[f + 1 + i]);
        }
    }
    assert(all_digits(sd)) by {
        assert forall|i: int| 0 <= i < sd.len() implies #[trigger] sd[i] < 10 by {
            assert(sd[i] == ds[f + i]);
        }
    }
    lemma_dec_bound(r);
    lemma_dec_bound(sd);
    lemma_dec_zero(r);
    let p = pow10(r.len());
    let v = ds[f] as nat;
    assert(pow10(sd.len()) == 10 * p);
    assert(1 <= v);
    assert(p <= v * p) by (nonlinear_arith)
        requires
            1 <= v,
    ;
    if v >= 2 {
        assert(2 * p <= v * p) by (nonlinear_arith)
            requires
                2 <= v,
        ;
        lemma_pow10_pos(r.len());
    }
    if v == 1 {
        assert(v * p == p) by (nonlinear_arith)
            requires
                v == 1,
        ;
    }
    assert((forall|i: int| 0 <= i < r.len() ==> r[i] == 0) <==> (forall|i: int|
        f < i < ds.len() ==> ds[i] == 0)) by {
        if forall|i: int| 0 <= i < r.len() ==> r[i] == 0 {
            assert forall|i: int| f < i < ds.len() implies ds[i] == 0 by {
                assert(ds[i] == r[i - f - 1]);
            }
        }
        if forall|i: int| f < i < ds.len() ==> ds[i] == 0 {
            assert forall|i: int| 0 <= i < r.len() implies r[i] == 0 by {
                assert(r[i] == ds[f + 1 + i]);
            }
        }
    }
}

/// Whether the number that the digits `a` spell is at most `10^k`.
fn at_most_pow10(a: &Vec<u8>, k: usize) -> (r: bool)
    requires
        all_digits(a@),
    ensures
        r == (dec_value(a@) <= pow10(k as nat)),
{
    let n = a.len();
    let mut f: usize = 0;
    while f < n && a[f] == 0
        invariant
            f <= n,
            n == a@.len(),
            forall|i: int| 0 <= i < f ==> a@[i] == 0,
        decreases n - f,
    {
        f = f + 1;
    }
    if f == n {
        proof {
            lemma_dec_zero(a@);
        }
        return true;
    }
    proof {
        lemma_leading(a@, f as int);
    }
    let len = n - f;
    if len <= k {
        proof {
            lemma_pow10_mono(len as nat, k as nat);
        }
        return true;
    }
    if len - 1 > k {
        proof {
            lemma_pow10_mono(k as nat, (len - 1) as nat);
        }
        return false;
    }
    if a[f] != 1 {
        return false;
    }
    let mut i = f + 1;
    while i < n
        invariant
            f < i <= n,
            n == a@.len(),
            forall|j: int| f < j < i ==> a@[j] == 0,
            pow10(k as nat) <= dec_value(a@),
            dec_value(a@) == pow10(k as nat) <==> (a@[f as int] == 1 && forall|j: int|
                f < j < n ==> a@[j] == 0),
        decreases n - i,
    {
        if a[i] != 0 {
            return false;
        }
        i = i + 1;
    }
    true
}

/// The digits of twice the number that `a` spells.
fn double(a: &Vec<u8>) -> (r: Vec<u8>)
    requires
        all_digits(a@),
    ensures
        r@ == double_of(a@),
{
    let n = a.len();
    let mut r: Vec<u8> = Vec::new();
    if n > 0 && a[0] >= 5 {
        r.push(1);
    }
    let ghost pre = r@;
    let mut i: usize = 0;
    while i < n
        invariant
            n == a@.len(),
            i <= n,
            all_digits(a@),
            pre == (if n > 0 && a@[0] >= 5 {
                seq![1u8]
            } else {
                Seq::<u8>::empty()
            }),
            r@ == pre + doubled_digits(a@).take(i as int),
        decreases n - i,
    {
        let c: u8 = if i + 1 < n && a[i + 1] >= 5 {
            1
        } else {
            0
        };
        assert(a@[i as int] < 10);
        let d = (2 * a[i] + c) % 10;
        r.push(d);
        i = i + 1;
        assert(r@ =~= pre + doubled_digits(a@).take(i as int));
    }
    assert(doubled_digits(a@).take(n as int) =~= doubled_digits(a@));
    r
}

/// Whether the decimal text `b` stands for a number that rounds to zero as a double.
pub fn decimal_rounds_to_zero(b: &[u8]) -> (r: bool)
    ensures
        r == rounds_to_zero(b@),
{
    let mut ds: Vec<u8> = Vec::new();
    let mut dot = false;
    let mut k: usize = 0;
    let mut i: usize = 0;
    while i < b.len()
        invariant
            i <= b@.len(),
            ds@ == text_digits(b@.take(i as int)),
            dot == has_dot(b@.take(i as int)),
            k == frac_digits(b@.take(i as int)),
            k <= i,
            all_digits(ds@),
        decreases b.len() - i,
    {
        let c = b[i];
        proof {
            assert(b@.take(i + 1).drop_last() =~= b@.take(i as int));
            assert(b@.take(i + 1).last() == c);
        }
        if 48 <= c && c <= 57 {
            ds.push(c - 48);
            if dot {
                k = k + 1;
            }
        } else if c == 46 {
            dot = true;
        }
        i = i + 1;
    }
    proof {
        assert(b@.take(i as int) =~= b@);
    }
    let ghost n0 = dec_value(ds@);
    let mut a = ds;
    let mut j: usize = 0;
    assert(two_pow(0) == 1);
    assert(n0 * 1 == n0);
    while j < 1075
        invariant
            j <= 1075,
            all_digits(a@),
            dec_value(a@) == n0 * two_pow(j as nat),
        decreases 1075 - j,
    {
        proof {
            lemma_double(a@);
        }
        a = double(&a);
        proof {
            let t = two_pow(j as nat);
            assert(two_pow((j + 1) as nat) == 2 * t);
            assert(2 * (n0 * t) == n0 * (2 * t)) by (nonlinear_arith);
        }
        j = j + 1;
    }
    at_most_pow10(&a, k)
}

} // verus!
