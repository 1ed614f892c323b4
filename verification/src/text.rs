use vstd::prelude::*;
use vstd::string::StringSliceAdditionalSpecFns;
use vstd::utf8::*;

verus! {

/// Appends `c` to the end of `s`: std's `String::push`.
#[verifier::external_body]
pub fn push_char(s: &mut String, c: char)
    ensures
        final(s)@ == old(s)@.push(c),
{
    s.push(c);
}

/// The character whose code is the byte `b` (a byte read as Latin-1).
pub fn byte_char(b: u8) -> (c: char)
    ensures
        c == b as char,
{
    b as char
}

/// The character of the decimal digit `d`.
pub open spec fn digit_char(d: nat) -> char {
    (48 + d) as char
}

/// The decimal digits of `n`, with no leading zero.
pub open spec fn nat_text(n: nat) -> Seq<char>
    decreases n,
{
    if n < 10 {
        seq![digit_char(n)]
    } else {
        nat_text(n / 10).push(digit_char(n % 10))
    }
}

/// Distinct numbers have distinct decimal texts.
pub proof fn law_nat_text_distinct(m: nat, n: nat)
    requires
        nat_text(m) == nat_text(n),
    ensures
        m == n,
    decreases m + n,
{
    lemma_nat_text_len(m);
    lemma_nat_text_len(n);
    if m >= 10 && n >= 10 {
        let a = nat_text(m);
        let b = nat_text(n);
        assert(a.last() == digit_char(m % 10));
        assert(b.last() == digit_char(n % 10));
        assert((48 + m % 10) as char == (48 + n % 10) as char);
        assert(m % 10 == n % 10);
        assert(a.drop_last() =~= nat_text(m / 10));
        assert(b.drop_last() =~= nat_text(n / 10));
        law_nat_text_distinct(m / 10, n / 10);
    } else if m < 10 && n < 10 {
        assert(nat_text(m)[0] == digit_char(m));
        assert(nat_text(n)[0] == digit_char(n));
        assert((48 + m) as char == (48 + n) as char);
    }
}

/// The decimal text of `n` has one digit exactly when `n` is below ten.
pub proof fn lemma_nat_text_len(n: nat)
    ensures
        nat_text(n).len() >= 1,
        nat_text(n).len() == 1 <==> n < 10,
    decreases n,
{
    if n >= 10 {
        lemma_nat_text_len(n / 10);
    }
}

/// `n` in decimal, with a `-` in front when it is negative.
pub open spec fn int_text(n: int) -> Seq<char> {
    if n < 0 {
        seq!['-'] + nat_text((-n) as nat)
    } else {
        nat_text(n as nat)
    }
}

/// `b` as the word `true` or `false`.
pub open spec fn bool_text(b: bool) -> Seq<char> {
    if b {
        "true"@
    } else {
        "false"@
    }
}

/// Appends the decimal digits of `n` to `out`.
pub fn push_nat(out: &mut String, n: u64)
    ensures
        final(out)@ == old(out)@ + nat_text(n as nat),
    decreases n,
{
    if n >= 10 {
        push_nat(out, n / 10);
    }
    let d = (n % 10) as u8;
    push_char(out, byte_char(48 + d));
}

/// `n` in decimal.
pub fn usize_text(n: usize) -> (r: String)
    ensures
        r@ == nat_text(n as nat),
{
    let mut r = String::new();
    push_nat(&mut r, n as u64);
    proof {
        assert(r@ =~= nat_text(n as nat));
    }
    r
}

/// `n` in decimal, with a `-` in front when it is negative.
pub fn i64_text(n: i64) -> (r: String)
    ensures
        r@ == int_text(n as int),
{
    let mut r = String::new();
    if n < 0 {
        push_char(&mut r, '-');
        let m: u64 = if n == i64::MIN {
            9223372036854775808u64
        } else {
            (-n) as u64
        };
        push_nat(&mut r, m);
    } else {
        push_nat(&mut r, n as u64);
    }
    proof {
        assert(r@ =~= int_text(n as int));
    }
    r
}

/// `b` as the word `true` or `false`.
pub fn bool_string(b: bool) -> (r: String)
    ensures
        r@ == bool_text(b),
{
    if b {
        "true".to_owned()
    } else {
        "false".to_owned()
    }
}

/// Offset `i` of `b` is where a character starts, or the end of `b`.
pub open spec fn starts_char(b: Seq<u8>, i: int) -> bool {
    ||| i == 0
    ||| i == b.len()
    ||| (0 <= i < b.len() && !is_continuation_byte(b[i]))
}

/// In valid UTF-8, the byte after an ASCII byte starts a character.
pub proof fn lemma_after_ascii(b: Seq<u8>, i: int)
    requires
        valid_utf8(b),
        0 < i < b.len(),
        b[i - 1] < 0x80,
    ensures
        !is_continuation_byte(b[i]),
    decreases b.len(),
{
    let l = length_of_first_scalar(b);
    let tail = pop_first_scalar(b);
    assert(valid_utf8(tail));
    assert(tail.len() == b.len() - l);
    if i < l {
        assert(b[i - 1] >= 0x80);
    } else if i == l {
        assert(tail.len() > 0);
        assert(valid_first_scalar(tail));
        assert(tail[0] == b[i]);
    } else {
        assert(tail[i - l - 1] == b[i - 1]);
        assert(tail[i - l] == b[i]);
        lemma_after_ascii(tail, i - l);
    }
}

/// An offset where a character starts is a character boundary of valid UTF-8.
pub proof fn lemma_starts_char_boundary(b: Seq<u8>, i: int)
    requires
        valid_utf8(b),
        0 <= i <= b.len(),
        starts_char(b, i),
    ensures
        is_char_boundary(b, i),
{
    is_char_boundary_start_end_of_seq(b);
    if 0 < i < b.len() {
        is_char_boundary_iff_not_is_continuation_byte(b, i);
    }
}

/// The text of `s` between the byte offsets `start` and `end`.
pub fn substring(s: &str, start: usize, end: usize) -> (r: String)
    requires
        start <= end <= s.spec_bytes().len(),
        starts_char(s.spec_bytes(), start as int),
        starts_char(s.spec_bytes(), end as int),
    ensures
        encode_utf8(r@) == s.spec_bytes().subrange(start as int, end as int),
{
    let ghost b = s.spec_bytes();
    proof {
        encode_utf8_valid_utf8(s@);
        lemma_starts_char_boundary(b, start as int);
    }
    let (_, tail) = s.split_at(start);
    let ghost t = tail.spec_bytes();
    proof {
        encode_utf8_valid_utf8(tail@);
        assert(t =~= b.subrange(start as int, b.len() as int));
        if 0 < end - start < t.len() {
            assert(t[end - start] == b[end as int]);
        }
        assert(starts_char(t, end - start));
        lemma_starts_char_boundary(t, end - start);
    }
    let (mid, _) = tail.split_at(end - start);
    proof {
        assert(mid.spec_bytes() =~= b.subrange(start as int, end as int));
    }
    mid.to_owned()
}

/// `a` comes no later than `b` in the order of their bytes, which is the order of `str`.
pub open spec fn bytes_le(a: Seq<u8>, b: Seq<u8>) -> bool
    decreases a.len(),
{
    if a.len() == 0 {
        true
    } else if b.len() == 0 {
        false
    } else if a[0] != b[0] {
        a[0] < b[0]
    } else {
        bytes_le(a.drop_first(), b.drop_first())
    }
}

/// The bytes of the text `s`.
pub open spec fn text_bytes(s: String) -> Seq<u8> {
    encode_utf8(s@)
}

/// The texts of `s` come in the order of their bytes.
pub open spec fn texts_sorted(s: Seq<String>) -> bool {
    forall|i: int, j: int|
        0 <= i < j < s.len() ==> bytes_le(text_bytes(#[trigger] s[i]), text_bytes(#[trigger] s[j]))
}

/// The texts `s` one after the other, with `sep` between two of them.
pub open spec fn joined(s: Seq<Seq<char>>, sep: Seq<char>) -> Seq<char>
    decreases s.len(),
{
    if s.len() == 0 {
        seq![]
    } else if s.len() == 1 {
        s[0]
    } else {
        joined(s.drop_last(), sep) + sep + s.last()
    }
}

/// The order of bytes is transitive.
pub proof fn lemma_bytes_le_trans(a: Seq<u8>, b: Seq<u8>, c: Seq<u8>)
    requires
        bytes_le(a, b),
        bytes_le(b, c),
    ensures
        bytes_le(a, c),
    decreases a.len(),
{
    if a.len() > 0 && b.len() > 0 && c.len() > 0 && a[0] == b[0] && b[0] == c[0] {
        lemma_bytes_le_trans(a.drop_first(), b.drop_first(), c.drop_first());
    }
}

/// Any two byte strings are ordered one way or the other.
pub proof fn lemma_bytes_le_total(a: Seq<u8>, b: Seq<u8>)
    ensures
        bytes_le(a, b) || bytes_le(b, a),
    decreases a.len(),
{
    if a.len() > 0 && b.len() > 0 && a[0] == b[0] {
        lemma_bytes_le_total(a.drop_first(), b.drop_first());
    }
}

/// Whether `a` comes no later than `b` in the order of their bytes.
pub fn text_le(a: &str, b: &str) -> (r: bool)
    ensures
        r == bytes_le(a.spec_bytes(), b.spec_bytes()),
{
    let x = a.as_bytes();
    let y = b.as_bytes();
    let ghost xs = x@;
    let ghost ys = y@;
    let mut i: usize = 0;
    proof {
        assert(xs.skip(0) =~= xs);
        assert(ys.skip(0) =~= ys);
    }
    while i < x.len() && i < y.len() && x[i] == y[i]
        invariant
            xs == x@,
            ys == y@,
            i <= x@.len(),
            i <= y@.len(),
            bytes_le(xs, ys) == bytes_le(xs.skip(i as int), ys.skip(i as int)),
        decreases x@.len() - i,
    {
        proof {
            assert(xs.skip(i as int).drop_first() =~= xs.skip(i + 1));
            assert(ys.skip(i as int).drop_first() =~= ys.skip(i + 1));
        }
        i = i + 1;
    }
    proof {
        assert(xs.skip(i as int).len() == xs.len() - i);
        assert(ys.skip(i as int).len() == ys.len() - i);
        if i < xs.len() && i < ys.len() {
            assert(xs.skip(i as int)[0] == xs[i as int]);
            assert(ys.skip(i as int)[0] == ys[i as int]);
        }
    }
    if i == x.len() {
        true
    } else if i == y.len() {
        false
    } else {
        x[i] < y[i]
    }
}

/// The texts of `v` put in the order of their bytes.
pub fn sort_texts(v: Vec<String>) -> (r: Vec<String>)
    ensures
        r@.to_multiset() == v@.to_multiset(),
        texts_sorted(r@),
{
    broadcast use vstd::seq_lib::group_to_multiset_ensures;

    let mut out: Vec<String> = Vec::new();
    let mut rest = v;
    let ghost whole = rest@;
    while rest.len() > 0
        invariant
            out@.to_multiset().add(rest@.to_multiset()) == whole.to_multiset(),
            texts_sorted(out@),
        decreases rest@.len(),
    {
        let ghost before = rest@;
        let x = rest.pop().unwrap();
        proof {
            assert(before =~= rest@.push(x));
        }
        let mut k: usize = out.len();
        while k > 0 && !text_le(out[k - 1].as_str(), x.as_str())
            invariant
                k <= out@.len(),
                texts_sorted(out@),
                forall|j: int| k <= j < out@.len() ==> bytes_le(text_bytes(x), text_bytes(#[trigger] out@[j])),
            decreases k,
        {
            proof {
                lemma_bytes_le_total(text_bytes(out@[k - 1]), text_bytes(x));
            }
            k = k - 1;
        }
        proof {
            if k > 0 {
                assert forall|j: int| 0 <= j < k implies bytes_le(text_bytes(#[trigger] out@[j]), text_bytes(x)) by {
                    if j < k - 1 {
                        lemma_bytes_le_trans(text_bytes(out@[j]), text_bytes(out@[k - 1]), text_bytes(x));
                    }
                }
            }
        }
        let ghost old_out = out@;
        out.insert(k, x);
        proof {
            assert forall|i: int, j: int| 0 <= i < j < out@.len() implies bytes_le(
                text_bytes(#[trigger] out@[i]),
                text_bytes(#[trigger] out@[j]),
            ) by {
                if i < k && j == k {
                } else if i == k && j > k {
                    assert(out@[j] == old_out[j - 1]);
                } else {
                    let oi = if i < k { i } else { i - 1 };
                    let oj = if j < k { j } else { j - 1 };
                    assert(out@[i] == old_out[oi]);
                    assert(out@[j] == old_out[oj]);
                }
            }
            vstd::seq_lib::to_multiset_insert(old_out, k as int, x);
            vstd::seq_lib::to_multiset_build(rest@, x);
            assert(before.to_multiset() == rest@.to_multiset().insert(x));
            assert(out@.to_multiset().add(rest@.to_multiset()) =~= old_out.to_multiset().add(
                before.to_multiset(),
            ));
        }
    }
    proof {
        assert(rest@ =~= Seq::<String>::empty());
        assert(rest@.to_multiset() =~= vstd::multiset::Multiset::<String>::empty());
        assert(out@.to_multiset() =~= out@.to_multiset().add(rest@.to_multiset()));
    }
    out
}

/// The texts of `v` one after the other, with `sep` between two of them.
pub fn join_texts(v: &Vec<String>, sep: &str) -> (r: String)
    ensures
        r@ == joined(v@.map_values(|t: String| t@), sep@),
{
    let ghost all = v@.map_values(|t: String| t@);
    let mut r = String::new();
    let mut i: usize = 0;
    while i < v.len()
        invariant
            i <= v@.len(),
            all == v@.map_values(|t: String| t@),
            r@ == joined(all.take(i as int), sep@),
        decreases v@.len() - i,
    {
        if i > 0 {
            r.append(sep);
        }
        r.append(v[i].as_str());
        proof {
            let t = all.take(i + 1);
            assert(t.drop_last() =~= all.take(i as int));
            assert(t.last() == v@[i as int]@);
            if i == 0 {
                assert(all.take(0) =~= Seq::<Seq<char>>::empty());
            }
        }
        i = i + 1;
    }
    proof {
        assert(all.take(v@.len() as int) =~= all);
    }
    r
}

} // verus!
