//! Decimal numerals: the unique digit string that denotes each number, an
//! executable writer and reader for them, and the facts that make the
//! reading exact (value, canonicity, maximal munch).

use vstd::prelude::*;

verus! {

/// The character for one decimal digit value.
pub open spec fn digit_char(d: nat) -> char {
    if d == 0 {
        '0'
    } else if d == 1 {
        '1'
    } else if d == 2 {
        '2'
    } else if d == 3 {
        '3'
    } else if d == 4 {
        '4'
    } else if d == 5 {
        '5'
    } else if d == 6 {
        '6'
    } else if d == 7 {
        '7'
    } else if d == 8 {
        '8'
    } else {
        '9'
    }
}

/// Whether a character is a decimal digit.
pub open spec fn is_digit(c: char) -> bool {
    c == '0' || c == '1' || c == '2' || c == '3' || c == '4' || c == '5' || c == '6' || c == '7'
        || c == '8' || c == '9'
}

/// The value of one digit character.
pub open spec fn digit_val(c: char) -> nat {
    if c == '0' {
        0
    } else if c == '1' {
        1
    } else if c == '2' {
        2
    } else if c == '3' {
        3
    } else if c == '4' {
        4
    } else if c == '5' {
        5
    } else if c == '6' {
        6
    } else if c == '7' {
        7
    } else if c == '8' {
        8
    } else {
        9
    }
}

/// The decimal numeral of `n`: most significant digit first, no leading
/// zero.
pub open spec fn dec_digits(n: nat) -> Seq<char>
    decreases n,
{
    if n < 10 {
        seq![digit_char(n)]
    } else {
        dec_digits(n / 10) + seq![digit_char(n % 10)]
    }
}

/// The number a digit string denotes.
pub open spec fn digits_val(s: Seq<char>) -> nat
    decreases s.len(),
{
    if s.len() == 0 {
        0
    } else {
        digits_val(s.drop_last()) * 10 + digit_val(s.last())
    }
}

/// Whether every character of `s` is a digit.
pub open spec fn all_digits(s: Seq<char>) -> bool {
    forall|i: int| 0 <= i < s.len() ==> is_digit(#[trigger] s[i])
}

/// A canonical numeral: nonempty, digits only, and no leading zero except
/// in the numeral of zero itself.
pub open spec fn canonical_numeral(s: Seq<char>) -> bool {
    &&& s.len() > 0
    &&& all_digits(s)
    &&& (s.len() > 1 ==> s[0] != '0')
}

/// Powers of ten.
pub open spec fn pow10(k: nat) -> nat
    decreases k,
{
    if k == 0 {
        1
    } else {
        10 * pow10((k - 1) as nat)
    }
}

/// The numeral of `n` is canonical and denotes `n`; it starts with a zero
/// only for `n == 0`.
pub proof fn lemma_dec_digits(n: nat)
    ensures
        canonical_numeral(dec_digits(n)),
        digits_val(dec_digits(n)) == n,
        n > 0 ==> dec_digits(n)[0] != '0',
        n < 10 ==> dec_digits(n) == seq![digit_char(n)],
    decreases n,
{
    if n < 10 {
        let s = seq![digit_char(n)];
        assert(s.drop_last() =~= Seq::<char>::empty());
        assert(s.last() == digit_char(n));
        assert(digits_val(Seq::<char>::empty()) == 0);
        assert(digits_val(s) == digit_val(digit_char(n)));
    } else {
        lemma_dec_digits(n / 10);
        let a = dec_digits(n / 10);
        let s = a + seq![digit_char(n % 10)];
        assert(s.drop_last() =~= a);
        assert(s.last() == digit_char(n % 10));
        assert(digit_val(digit_char(n % 10)) == n % 10);
        assert(digits_val(s) == (n / 10) * 10 + n % 10);
        assert((n / 10) * 10 + n % 10 == n) by (nonlinear_arith);
        assert(s[0] == a[0]);
        assert(forall|i: int| 0 <= i < s.len() ==> is_digit(#[trigger] s[i])) by {
            assert(forall|i: int| 0 <= i < a.len() ==> s[i] == a[i]);
        }
    }
}

/// The value of a concatenation of digit strings.
pub proof fn lemma_digits_val_append(s: Seq<char>, t: Seq<char>)
    ensures
        digits_val(s + t) == digits_val(s) * pow10(t.len()) + digits_val(t),
    decreases t.len(),
{
    if t.len() == 0 {
        assert(s + t =~= s);
        assert(digits_val(t) == 0);
        assert(pow10(0) == 1);
    } else {
        lemma_digits_val_append(s, t.drop_last());
        assert((s + t).drop_last() =~= s + t.drop_last());
        assert((s + t).last() == t.last());
        let v = digits_val(s);
        let k = t.len() - 1;
        assert(digits_val(s + t) == (v * pow10(k as nat) + digits_val(t.drop_last())) * 10
            + digit_val(t.last()));
        assert((v * pow10(k as nat) + digits_val(t.drop_last())) * 10 == v * (10 * pow10(k as nat))
            + digits_val(t.drop_last()) * 10) by (nonlinear_arith);
        assert(pow10(t.len()) == 10 * pow10(k as nat));
        assert(digits_val(t) == digits_val(t.drop_last()) * 10 + digit_val(t.last()));
        assert(digits_val(s + t) == v * pow10(t.len()) + digits_val(t));
    }
}

/// A nonempty digit string without a leading zero denotes at least one.
pub proof fn lemma_digits_val_positive(s: Seq<char>)
    requires
        s.len() >= 1,
        all_digits(s),
        s[0] != '0',
    ensures
        digits_val(s) >= 1,
{
    let h = seq![s[0]];
    assert(s =~= h + s.subrange(1, s.len() as int));
    lemma_digits_val_append(h, s.subrange(1, s.len() as int));
    assert(h.drop_last() =~= Seq::<char>::empty());
    assert(h.last() == s[0]);
    assert(digits_val(Seq::<char>::empty()) == 0);
    assert(digits_val(h) == digit_val(s[0]));
    assert(digit_val(s[0]) >= 1);
    lemma_pow10_positive(s.subrange(1, s.len() as int).len());
    assert(digits_val(h) * pow10(s.subrange(1, s.len() as int).len()) >= 1) by (nonlinear_arith)
        requires
            digits_val(h) >= 1,
            pow10(s.subrange(1, s.len() as int).len()) >= 1,
    ;
}

/// Powers of ten are positive.
pub proof fn lemma_pow10_positive(k: nat)
    ensures
        pow10(k) >= 1,
    decreases k,
{
    if k > 0 {
        lemma_pow10_positive((k - 1) as nat);
    }
}

/// A canonical numeral is the numeral of its value.
pub proof fn lemma_canonical_is_dec_digits(s: Seq<char>)
    requires
        canonical_numeral(s),
    ensures
        dec_digits(digits_val(s)) == s,
    decreases s.len(),
{
    if s.len() == 1 {
        assert(s.drop_last() =~= Seq::<char>::empty());
        assert(s.last() == s[0]);
        assert(digits_val(Seq::<char>::empty()) == 0);
        assert(digits_val(s) == digit_val(s[0]));
        assert(dec_digits(digits_val(s)) =~= s);
    } else {
        let a = s.drop_last();
        let c = s.last();
        assert(a[0] == s[0]);
        assert(forall|i: int| 0 <= i < a.len() ==> a[i] == s[i]);
        lemma_canonical_is_dec_digits(a);
        lemma_digits_val_positive(a);
        let v = digits_val(s);
        assert(v == digits_val(a) * 10 + digit_val(c));
        assert(digits_val(a) * 10 >= 10) by (nonlinear_arith)
            requires
                digits_val(a) >= 1,
        ;
        assert(digit_val(c) < 10);
        assert(v / 10 == digits_val(a) && v % 10 == digit_val(c)) by (nonlinear_arith)
            requires
                v == digits_val(a) * 10 + digit_val(c),
                digit_val(c) < 10,
        ;
        assert(digit_char(digit_val(c)) == c);
        assert(dec_digits(v) == dec_digits(digits_val(a)) + seq![c]);
        assert(dec_digits(v) =~= s);
    }
}

/// Maximal munch: a digit run followed by a non-digit is read in only one
/// way.
pub proof fn lemma_digit_run_unique(a: Seq<char>, r1: Seq<char>, b: Seq<char>, r2: Seq<char>)
    requires
        a + r1 == b + r2,
        all_digits(a),
        all_digits(b),
        r1.len() == 0 || !is_digit(r1[0]),
        r2.len() == 0 || !is_digit(r2[0]),
    ensures
        a == b,
        r1 == r2,
    decreases a.len(),
{
    if a.len() == 0 {
        if b.len() > 0 {
            assert((b + r2)[0] == b[0]);
            assert((a + r1)[0] == r1[0]);
            assert(is_digit(b[0]));
            assert(false);
        } else {
            assert(a =~= b);
            assert(r1 =~= a + r1);
            assert(r2 =~= b + r2);
        }
    } else {
        if b.len() == 0 {
            assert((a + r1)[0] == a[0]);
            assert((b + r2)[0] == r2[0]);
            assert(is_digit(a[0]));
            assert(false);
        } else {
            let a1 = a.drop_first();
            let b1 = b.drop_first();
            assert(a1 + r1 =~= (a + r1).drop_first());
            assert(b1 + r2 =~= (b + r2).drop_first());
            assert(forall|i: int| 0 <= i < a1.len() ==> a1[i] == a[i + 1]);
            assert(forall|i: int| 0 <= i < b1.len() ==> b1[i] == b[i + 1]);
            lemma_digit_run_unique(a1, r1, b1, r2);
            assert(a.len() == b.len());
            assert(a =~= (a + r1).subrange(0, a.len() as int));
            assert(b =~= (b + r2).subrange(0, b.len() as int));
            assert(a =~= b);
        }
    }
}

/// Write the decimal numeral of `n` after the characters already in `out`.
pub fn push_dec_u64(out: &mut Vec<char>, n: u64)
    ensures
        final(out)@ == old(out)@ + dec_digits(n as nat),
    decreases n,
{
    if n >= 10 {
        push_dec_u64(out, n / 10);
    }
    let d = (n % 10) as u8;
    let c: char = if d == 0 {
        '0'
    } else if d == 1 {
        '1'
    } else if d == 2 {
        '2'
    } else if d == 3 {
        '3'
    } else if d == 4 {
        '4'
    } else if d == 5 {
        '5'
    } else if d == 6 {
        '6'
    } else if d == 7 {
        '7'
    } else if d == 8 {
        '8'
    } else {
        '9'
    };
    proof {
        assert(c == digit_char((n % 10) as nat));
        if n < 10 {
            assert(n % 10 == n) by (nonlinear_arith)
                requires
                    n < 10,
            ;
        }
    }
    out.push(c);
    proof {
        if n < 10 {
            assert(out@ =~= old(out)@ + dec_digits(n as nat));
        } else {
            assert(dec_digits(n as nat) == dec_digits((n as nat) / 10) + seq![
                digit_char((n as nat) % 10),
            ]);
            assert(out@ =~= old(out)@ + dec_digits(n as nat));
        }
    }
}

} // verus!
