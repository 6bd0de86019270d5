//! Byte-sequence fundamentals for the storage layer: lexicographic order,
//! prefixes, concatenation, and ASCII decimal rendering of integers.

use vstd::prelude::*;

verus! {

/// Strict byte-lexicographic order on byte sequences.
pub open spec fn lex_lt(a: Seq<u8>, b: Seq<u8>) -> bool
    decreases a.len(),
{
    if b.len() == 0 {
        false
    } else if a.len() == 0 {
        true
    } else if a[0] < b[0] {
        true
    } else if a[0] > b[0] {
        false
    } else {
        lex_lt(a.skip(1), b.skip(1))
    }
}

/// `p` is a prefix of `k`.
pub open spec fn is_prefix(p: Seq<u8>, k: Seq<u8>) -> bool {
    p.len() <= k.len() && k.take(p.len() as int) == p
}

/// Exactly one of `lex_lt(a, b)`, `a == b`, `lex_lt(b, a)` holds.
pub proof fn lemma_lex_trichotomy(a: Seq<u8>, b: Seq<u8>)
    ensures
        lex_lt(a, b) || lex_lt(b, a) || a == b,
        lex_lt(a, b) ==> !lex_lt(b, a) && a != b,
        lex_lt(b, a) ==> !lex_lt(a, b) && a != b,
    decreases a.len(),
{
    if a.len() == 0 || b.len() == 0 {
        if a.len() == 0 && b.len() == 0 {
            assert(a =~= b);
        }
    } else {
        if a[0] == b[0] {
            lemma_lex_trichotomy(a.skip(1), b.skip(1));
            if a.skip(1) == b.skip(1) {
                assert forall|i: int| 0 <= i < a.len() implies a[i] == b[i] by {
                    if i > 0 {
                        assert(a.skip(1)[i - 1] == a[i]);
                        assert(b.skip(1)[i - 1] == b[i]);
                    }
                }
                assert(a =~= b);
            }
            if a == b {
                assert(a.skip(1) =~= b.skip(1));
            }
        }
    }
}

pub proof fn lemma_lex_transitive(a: Seq<u8>, b: Seq<u8>, c: Seq<u8>)
    requires
        lex_lt(a, b),
        lex_lt(b, c),
    ensures
        lex_lt(a, c),
    decreases a.len(),
{
    if a.len() == 0 {
        assert(b.len() > 0);
    } else if b.len() == 0 {
        assert(false);
    } else {
        assert(c.len() > 0);
        if a[0] == b[0] && b[0] == c[0] {
            lemma_lex_transitive(a.skip(1), b.skip(1), c.skip(1));
        }
    }
}

/// Equal prefixes of length `i` reduce the order to the tails.
pub proof fn lemma_lex_skip(a: Seq<u8>, b: Seq<u8>, i: int)
    requires
        0 <= i <= a.len(),
        i <= b.len(),
        a.take(i) == b.take(i),
    ensures
        lex_lt(a, b) == lex_lt(a.skip(i), b.skip(i)),
    decreases i,
{
    if i == 0 {
        assert(a.skip(0) =~= a);
        assert(b.skip(0) =~= b);
    }
    if i > 0 {
        assert(a.take(i)[0] == a[0]);
        assert(b.take(i)[0] == b[0]);
        assert(a[0] == b[0]);
        if a.len() > 0 && b.len() > 0 {
            assert(a.skip(1).take(i - 1) =~= a.take(i).skip(1));
            assert(b.skip(1).take(i - 1) =~= b.take(i).skip(1));
            lemma_lex_skip(a.skip(1), b.skip(1), i - 1);
            assert(a.skip(1).skip(i - 1) =~= a.skip(i));
            assert(b.skip(1).skip(i - 1) =~= b.skip(i));
        }
    }
}

/// Byte equality of two vectors.
pub fn bytes_eq(a: &Vec<u8>, b: &Vec<u8>) -> (r: bool)
    ensures
        r == (a@ == b@),
{
    if a.len() != b.len() {
        assert(a@ != b@);
        return false;
    }
    let mut i: usize = 0;
    while i < a.len()
        invariant
            i <= a.len(),
            a.len() == b.len(),
            forall|j: int| 0 <= j < i ==> a@[j] == b@[j],
        decreases a.len() - i,
    {
        if a[i] != b[i] {
            return false;
        }
        i += 1;
    }
    assert(a@ =~= b@);
    true
}

/// Strict lexicographic comparison of two vectors.
pub fn bytes_lt(a: &Vec<u8>, b: &Vec<u8>) -> (r: bool)
    ensures
        r == lex_lt(a@, b@),
{
    let mut i: usize = 0;
    loop
        invariant
            i <= a.len(),
            i <= b.len(),
            a@.take(i as int) == b@.take(i as int),
        decreases a.len() - i,
    {
        proof {
            lemma_lex_skip(a@, b@, i as int);
        }
        if i >= a.len() {
            assert(a@.skip(i as int).len() == 0);
            return i < b.len();
        }
        if i >= b.len() {
            assert(b@.skip(i as int).len() == 0);
            return false;
        }
        let ab = a[i];
        let bb = b[i];
        assert(a@.skip(i as int)[0] == ab);
        assert(b@.skip(i as int)[0] == bb);
        if ab < bb {
            return true;
        }
        if ab > bb {
            return false;
        }
        assert(a@.take(i + 1) =~= a@.take(i as int).push(ab));
        assert(b@.take(i + 1) =~= b@.take(i as int).push(bb));
        i += 1;
    }
}

/// Does `k` start with `p`?
pub fn bytes_starts_with(k: &Vec<u8>, p: &Vec<u8>) -> (r: bool)
    ensures
        r == is_prefix(p@, k@),
{
    if p.len() > k.len() {
        return false;
    }
    let mut i: usize = 0;
    while i < p.len()
        invariant
            i <= p.len(),
            p.len() <= k.len(),
            forall|j: int| 0 <= j < i ==> k@[j] == p@[j],
        decreases p.len() - i,
    {
        if k[i] != p[i] {
            assert(k@.take(p@.len() as int)[i as int] != p@[i as int]);
            return false;
        }
        i += 1;
    }
    assert(k@.take(p@.len() as int) =~= p@);
    true
}

/// Concatenation of two byte vectors.
pub fn bytes_concat(a: &Vec<u8>, b: &Vec<u8>) -> (r: Vec<u8>)
    ensures
        r@ == a@ + b@,
{
    let mut r: Vec<u8> = Vec::new();
    let mut i: usize = 0;
    while i < a.len()
        invariant
            i <= a.len(),
            r@ == a@.take(i as int),
        decreases a.len() - i,
    {
        r.push(a[i]);
        assert(r@ =~= a@.take(i + 1));
        i += 1;
    }
    assert(r@ =~= a@);
    let mut j: usize = 0;
    while j < b.len()
        invariant
            j <= b.len(),
            r@ == a@ + b@.take(j as int),
        decreases b.len() - j,
    {
        r.push(b[j]);
        assert(r@ =~= a@ + b@.take(j + 1));
        j += 1;
    }
    assert(r@ =~= a@ + b@);
    r
}

/// The ASCII code of the decimal digit `d`.
pub open spec fn digit_byte(d: nat) -> u8 {
    (48 + d % 10) as u8
}

/// ASCII decimal rendering of `n`, most significant digit first.
pub open spec fn dec_bytes(n: nat) -> Seq<u8>
    decreases n,
{
    if n < 10 {
        seq![digit_byte(n)]
    } else {
        dec_bytes(n / 10).push(digit_byte(n))
    }
}

/// Is `s` a non-empty sequence of ASCII decimal digits?
pub open spec fn all_digits(s: Seq<u8>) -> bool {
    forall|i: int| 0 <= i < s.len() ==> 48 <= #[trigger] s[i] <= 57
}

/// The numeric value of a digit sequence, most significant first.
pub open spec fn digits_val(s: Seq<u8>) -> nat
    decreases s.len(),
{
    if s.len() == 0 {
        0
    } else {
        (digits_val(s.drop_last()) * 10 + (s.last() - 48)) as nat
    }
}

pub proof fn lemma_dec_bytes_val(n: nat)
    ensures
        digits_val(dec_bytes(n)) == n,
        all_digits(dec_bytes(n)),
        dec_bytes(n).len() >= 1,
        dec_bytes(n)[0] != 48 || n < 10,
    decreases n,
{
    if n < 10 {
        let s = dec_bytes(n);
        assert(s.drop_last().len() == 0);
        assert(digit_byte(n) == 48 + n);
        assert(digits_val(s) == (digits_val(s.drop_last()) * 10 + (s.last() - 48)) as nat);
    } else {
        lemma_dec_bytes_val(n / 10);
        let s = dec_bytes(n);
        assert(s.drop_last() =~= dec_bytes(n / 10));
        assert(s.last() == digit_byte(n));
        assert(digits_val(s) == (n / 10) * 10 + (n % 10));
        assert((n / 10) * 10 + (n % 10) == n) by (nonlinear_arith);
        assert forall|i: int| 0 <= i < s.len() implies 48 <= #[trigger] s[i] <= 57 by {
            if i < s.len() - 1 {
                assert(s[i] == dec_bytes(n / 10)[i]);
            }
        }
    }
}

/// Render `n` in ASCII decimal.
pub fn u64_to_dec(n: u64) -> (r: Vec<u8>)
    ensures
        r@ == dec_bytes(n as nat),
{
    let mut digits: Vec<u8> = Vec::new();
    let mut m: u64 = n;
    let mut done: bool = false;
    // Collect digits least significant first, then reverse.
    while !done
        invariant
            !done ==> dec_bytes(n as nat) == dec_bytes(m as nat) + digits@.reverse(),
            done ==> dec_bytes(n as nat) == digits@.reverse(),
        decreases m + 1, (if done { 0int } else { 1int }),
    {
        let d: u8 = (m % 10) as u8 + 48;
        let m2: u64 = m / 10;
        proof {
            assert(digit_byte(m as nat) == d);
            assert((digits@.push(d)).reverse() =~= seq![d] + digits@.reverse());
            if m >= 10 {
                assert(dec_bytes(m as nat) =~= dec_bytes((m / 10) as nat).push(d));
                assert(dec_bytes((m2) as nat) + (digits@.push(d)).reverse()
                    =~= dec_bytes(m as nat) + digits@.reverse());
            } else {
                assert(dec_bytes(m as nat) =~= seq![d]);
                assert((digits@.push(d)).reverse() =~= dec_bytes(m as nat) + digits@.reverse());
            }
        }
        digits.push(d);
        if m < 10 {
            done = true;
        } else {
            m = m2;
        }
    }
    let mut r: Vec<u8> = Vec::new();
    let mut i: usize = digits.len();
    while i > 0
        invariant
            i <= digits.len(),
            r@ == digits@.reverse().take(digits.len() - i),
        decreases i,
    {
        i -= 1;
        r.push(digits[i]);
        assert(digits@.reverse()[digits@.len() - 1 - i] == digits@[i as int]);
        assert(r@ =~= digits@.reverse().take(digits.len() - i));
    }
    assert(r@ =~= digits@.reverse());
    r
}

/// Parse a non-empty all-digit byte sequence as a decimal number.
/// Fails on empty input, non-digits, or overflow past `u64`.
pub fn parse_dec_u64(s: &Vec<u8>) -> (r: Option<u64>)
    ensures
        match r {
            Some(n) => s@.len() > 0 && all_digits(s@) && digits_val(s@) == n as nat,
            None => s@.len() == 0 || !all_digits(s@) || digits_val(s@) > u64::MAX,
        },
{
    if s.len() == 0 {
        return None;
    }
    let mut acc: u64 = 0;
    let mut i: usize = 0;
    while i < s.len()
        invariant
            i <= s.len(),
            all_digits(s@.take(i as int)),
            acc as nat == digits_val(s@.take(i as int)),
        decreases s.len() - i,
    {
        let b = s[i];
        if b < 48 || b > 57 {
            assert(!all_digits(s@));
            return None;
        }
        let d: u64 = (b - 48) as u64;
        if acc > (u64::MAX - d) / 10 {
            proof {
                let t = s@.take(i + 1);
                assert(t.drop_last() =~= s@.take(i as int));
                assert(digits_val(t) == acc * 10 + d);
                assert(acc * 10 + d > u64::MAX) by (nonlinear_arith)
                    requires acc > (u64::MAX - d) / 10 && d <= 9;
                if all_digits(s@) {
                    lemma_digits_val_monotone(t, s@);
                }
            }
            return None;
        }
        proof {
            assert(acc * 10 + d <= u64::MAX) by (nonlinear_arith)
                requires acc <= (u64::MAX - d) / 10 && d <= 9;
        }
        let acc2: u64 = acc * 10 + d;
        proof {
            let t = s@.take(i + 1);
            assert(t.drop_last() =~= s@.take(i as int));
            assert(t.last() == b);
            assert(digits_val(t) == acc as nat * 10 + (b - 48));
        }
        acc = acc2;
        i += 1;
    }
    assert(s@.take(i as int) =~= s@);
    Some(acc)
}

/// Extending a digit sequence cannot decrease its value.
pub proof fn lemma_digits_val_monotone(p: Seq<u8>, s: Seq<u8>)
    requires
        p.len() <= s.len(),
        p == s.take(p.len() as int),
        all_digits(s),
    ensures
        digits_val(s) >= digits_val(p),
    decreases s.len(),
{
    if p.len() < s.len() {
        let s2 = s.drop_last();
        assert(p =~= s2.take(p.len() as int));
        lemma_digits_val_monotone(p, s2);
        assert(digits_val(s) == digits_val(s2) * 10 + (s.last() - 48));
        assert(digits_val(s2) * 10 >= digits_val(s2)) by (nonlinear_arith);
    } else {
        assert(p =~= s);
    }
}

} // verus!
