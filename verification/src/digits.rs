//! Decimal numerals: the canonical digit string of a `u64`, its value, and
//! the executable printer and parser the block codec is built on.

use vstd::prelude::*;

verus! {

/// The character standing for one decimal digit value.
pub open spec fn digit_char(d: nat) -> char
    recommends
        d < 10,
{
    if d == 0 {
        '0'
    } else if d == 1 {
        '1'
    } else if d == 2 {
        '2'
    } else if d == 3 {
        '3'
    } else if d == 4 {
        '4'
    } else if d == 5 {
        '5'
    } else if d == 6 {
        '6'
    } else if d == 7 {
        '7'
    } else if d == 8 {
        '8'
    } else {
        '9'
    }
}

pub open spec fn is_digit(c: char) -> bool {
    c == '0' || c == '1' || c == '2' || c == '3' || c == '4' || c == '5' || c == '6' || c == '7'
        || c == '8' || c == '9'
}

/// The value of one digit character.
pub open spec fn digit_val(c: char) -> nat
    recommends
        is_digit(c),
{
    if c == '0' {
        0
    } else if c == '1' {
        1
    } else if c == '2' {
        2
    } else if c == '3' {
        3
    } else if c == '4' {
        4
    } else if c == '5' {
        5
    } else if c == '6' {
        6
    } else if c == '7' {
        7
    } else if c == '8' {
        8
    } else {
        9
    }
}

/// The canonical decimal numeral of `n`: most significant digit first, no
/// leading zero (`dec(0)` is the single digit `0`).
pub open spec fn dec(n: nat) -> Seq<char>
    decreases n,
{
    if n < 10 {
        seq![digit_char(n)]
    } else {
        dec(n / 10).push(digit_char(n % 10))
    }
}

/// The value of a digit string, most significant digit first.
pub open spec fn digits_val(s: Seq<char>) -> nat
    decreases s.len(),
{
    if s.len() == 0 {
        0
    } else {
        digits_val(s.drop_last()) * 10 + digit_val(s.last())
    }
}

pub open spec fn all_digits(s: Seq<char>) -> bool {
    forall|i: int| 0 <= i < s.len() ==> is_digit(#[trigger] s[i])
}

pub proof fn lemma_dec_shape(n: nat)
    ensures
        dec(n).len() >= 1,
        all_digits(dec(n)),
        n > 0 ==> dec(n)[0] != '0',
        n < 10 ==> dec(n).len() == 1,
    decreases n,
{
    if n < 10 {
        assert(dec(n) == seq![digit_char(n)]);
        assert(dec(n)[0] == digit_char(n));
    } else {
        lemma_dec_shape(n / 10);
        assert(dec(n) == dec(n / 10).push(digit_char(n % 10)));
        assert(dec(n)[0] == dec(n / 10)[0]);
        assert forall|i: int| 0 <= i < dec(n).len() implies is_digit(#[trigger] dec(n)[i]) by {
            if i < dec(n / 10).len() {
                assert(dec(n)[i] == dec(n / 10)[i]);
            } else {
                assert(dec(n)[i] == digit_char(n % 10));
            }
        }
    }
}

pub proof fn lemma_val_of_dec(n: nat)
    ensures
        digits_val(dec(n)) == n,
    decreases n,
{
    if n < 10 {
        assert(dec(n) == seq![digit_char(n)]);
        assert(dec(n).drop_last() =~= Seq::<char>::empty());
        assert(dec(n).last() == digit_char(n));
        assert(digits_val(Seq::<char>::empty()) == 0);
    } else {
        lemma_val_of_dec(n / 10);
        assert(dec(n) == dec(n / 10).push(digit_char(n % 10)));
        assert(dec(n).drop_last() =~= dec(n / 10));
        assert(dec(n).last() == digit_char(n % 10));
        assert(digits_val(dec(n)) == n / 10 * 10 + n % 10);
    }
}

/// The value of a prefix of a digit string never exceeds the whole value.
pub proof fn lemma_val_prefix(s: Seq<char>, k: int)
    requires
        0 <= k <= s.len(),
    ensures
        digits_val(s.take(k)) <= digits_val(s),
    decreases s.len(),
{
    if k < s.len() {
        lemma_val_prefix(s.drop_last(), k);
        assert(s.take(k) =~= s.drop_last().take(k));
        assert(digits_val(s) == digits_val(s.drop_last()) * 10 + digit_val(s.last()));
        assert(digits_val(s.drop_last()) * 10 >= digits_val(s.drop_last())) by (nonlinear_arith);
    } else {
        assert(s.take(k) =~= s);
    }
}

/// A digit string that does not start with `0` has a positive value.
pub proof fn lemma_val_positive(s: Seq<char>)
    requires
        all_digits(s),
        s.len() >= 1,
        s[0] != '0',
    ensures
        digits_val(s) >= 1,
    decreases s.len(),
{
    if s.len() == 1 {
        assert(is_digit(s[0]));
        assert(s.drop_last() =~= Seq::<char>::empty());
        assert(digits_val(Seq::<char>::empty()) == 0);
        assert(digits_val(s) == digit_val(s.last()));
    } else {
        let s2 = s.drop_last();
        assert(s2[0] == s[0]);
        assert(all_digits(s2)) by {
            assert(forall|i: int| 0 <= i < s2.len() ==> s2[i] == #[trigger] s[i]);
        }
        lemma_val_positive(s2);
        assert(digits_val(s) == digits_val(s2) * 10 + digit_val(s.last()));
        assert(digits_val(s2) * 10 >= 10) by (nonlinear_arith)
            requires
                digits_val(s2) >= 1,
        ;
    }
}

/// A non-empty digit string with no leading zero is the canonical numeral of
/// its own value.
pub proof fn lemma_dec_of_val(s: Seq<char>)
    requires
        all_digits(s),
        s.len() >= 1,
        s.len() > 1 ==> s[0] != '0',
    ensures
        dec(digits_val(s)) == s,
    decreases s.len(),
{
    if s.len() == 1 {
        assert(is_digit(s[0]));
        assert(s.drop_last() =~= Seq::<char>::empty());
        assert(digits_val(Seq::<char>::empty()) == 0);
        assert(digits_val(s) == digit_val(s[0]));
        assert(digit_char(digit_val(s[0])) == s[0]);
        assert(dec(digits_val(s)) =~= s);
    } else {
        let s2 = s.drop_last();
        assert(s2[0] == s[0]);
        assert(all_digits(s2)) by {
            assert(forall|i: int| 0 <= i < s2.len() ==> s2[i] == #[trigger] s[i]);
        }
        lemma_dec_of_val(s2);
        lemma_val_positive(s2);
        let v = digits_val(s);
        let d = digit_val(s.last());
        assert(is_digit(s.last()));
        assert(d < 10);
        assert(v == digits_val(s2) * 10 + d);
        assert(v / 10 == digits_val(s2) && v % 10 == d) by (nonlinear_arith)
            requires
                v == digits_val(s2) * 10 + d,
                d < 10,
        ;
        assert(v >= 10) by (nonlinear_arith)
            requires
                v == digits_val(s2) * 10 + d,
                digits_val(s2) >= 1,
        ;
        assert(dec(v) == dec(digits_val(s2)).push(digit_char(d)));
        assert(digit_char(digit_val(s.last())) == s.last());
        assert(dec(v) =~= s);
    }
}

/// Executable test of `is_digit`.
pub fn is_digit_char(c: char) -> (r: bool)
    ensures
        r == is_digit(c),
{
    c == '0' || c == '1' || c == '2' || c == '3' || c == '4' || c == '5' || c == '6' || c == '7'
        || c == '8' || c == '9'
}

/// Executable `digit_val`.
pub fn char_digit_val(c: char) -> (r: u64)
    requires
        is_digit(c),
    ensures
        r as nat == digit_val(c),
{
    if c == '0' {
        0
    } else if c == '1' {
        1
    } else if c == '2' {
        2
    } else if c == '3' {
        3
    } else if c == '4' {
        4
    } else if c == '5' {
        5
    } else if c == '6' {
        6
    } else if c == '7' {
        7
    } else if c == '8' {
        8
    } else {
        9
    }
}

fn digit_str(d: u64) -> (r: &'static str)
    requires
        d < 10,
    ensures
        r@ =~= seq![digit_char(d as nat)],
{
    if d == 0 {
        proof {
            reveal_strlit("0");
        }
        "0"
    } else if d == 1 {
        proof {
            reveal_strlit("1");
        }
        "1"
    } else if d == 2 {
        proof {
            reveal_strlit("2");
        }
        "2"
    } else if d == 3 {
        proof {
            reveal_strlit("3");
        }
        "3"
    } else if d == 4 {
        proof {
            reveal_strlit("4");
        }
        "4"
    } else if d == 5 {
        proof {
            reveal_strlit("5");
        }
        "5"
    } else if d == 6 {
        proof {
            reveal_strlit("6");
        }
        "6"
    } else if d == 7 {
        proof {
            reveal_strlit("7");
        }
        "7"
    } else if d == 8 {
        proof {
            reveal_strlit("8");
        }
        "8"
    } else {
        proof {
            reveal_strlit("9");
        }
        "9"
    }
}

/// Prints `n` as its canonical decimal numeral.
pub fn u64_to_string(n: u64) -> (r: String)
    ensures
        r@ == dec(n as nat),
    decreases n,
{
    if n < 10 {
        let r = digit_str(n).to_owned();
        proof {
            assert(r@ =~= dec(n as nat));
        }
        r
    } else {
        let prefix = u64_to_string(n / 10);
        let r = prefix.concat(digit_str(n % 10));
        proof {
            assert(r@ =~= dec((n / 10) as nat).push(digit_char((n % 10) as nat)));
        }
        r
    }
}

/// Reads a maximal run of decimal digits starting at `pos`, rejecting an
/// empty run, a leading zero on a multi-digit run, and a value above
/// `u64::MAX`. On success the digits read are exactly the canonical numeral
/// of the value returned, and the following character (if any) is not a
/// digit; conversely, whenever the text at `pos` holds the numeral of some
/// `u64` followed by a non-digit or the end, that value is returned.
pub fn parse_u64_at(s: &str, pos: usize) -> (r: Option<(u64, usize)>)
    requires
        pos <= s@.len(),
    ensures
        r matches Some(vp) ==> {
            &&& pos < vp.1 <= s@.len()
            &&& s@.subrange(pos as int, vp.1 as int) == dec(vp.0 as nat)
            &&& (vp.1 < s@.len() ==> !is_digit(s@[vp.1 as int]))
        },
        forall|n: u64|
            {
                &&& pos + (#[trigger] dec(n as nat)).len() <= s@.len()
                &&& s@.subrange(pos as int, pos + dec(n as nat).len()) == dec(n as nat)
                &&& (pos + dec(n as nat).len() < s@.len() ==> !is_digit(
                    s@[pos + dec(n as nat).len()],
                ))
            } ==> r == Some((n, (pos + dec(n as nat).len()) as usize)),
{
    let len: usize = s.unicode_len();
    let mut i: usize = pos;
    let mut acc: u64 = 0;
    while i < len && is_digit_char(s.get_char(i))
        invariant
            pos <= i <= len,
            len == s@.len(),
            all_digits(s@.subrange(pos as int, i as int)),
            acc as nat == digits_val(s@.subrange(pos as int, i as int)),
        decreases len - i,
    {
        let c = s.get_char(i);
        let d: u64 = char_digit_val(c);
        if acc > (u64::MAX - d) / 10 {
            // The run up to and including this digit already exceeds
            // `u64::MAX`, so no `u64` numeral can stand here.
            proof {
                let run1 = s@.subrange(pos as int, i + 1);
                assert(run1.drop_last() =~= s@.subrange(pos as int, i as int));
                assert(run1.last() == s@[i as int]);
                assert(digits_val(run1) == acc * 10 + d);
                assert(acc * 10 + d > u64::MAX) by (nonlinear_arith)
                    requires
                        acc > (u64::MAX - d) / 10,
                        d < 10,
                ;
                assert forall|n: u64|
                    {
                        &&& pos + (#[trigger] dec(n as nat)).len() <= s@.len()
                        &&& s@.subrange(pos as int, pos + dec(n as nat).len()) == dec(n as nat)
                        &&& (pos + dec(n as nat).len() < s@.len() ==> !is_digit(
                            s@[pos + dec(n as nat).len()],
                        ))
                    } implies false by {
                    let l: int = dec(n as nat).len() as int;
                    lemma_dec_shape(n as nat);
                    if pos + l <= i {
                        // the character right after the numeral would be a digit
                        assert(is_digit(s@.subrange(pos as int, i as int)[pos + l - pos]));
                    } else {
                        // this digit lies inside the numeral, whose value is at most n
                        assert(i + 1 <= pos + l);
                        assert(run1 =~= dec(n as nat).take(i + 1 - pos));
                        lemma_val_prefix(dec(n as nat), i + 1 - pos);
                        lemma_val_of_dec(n as nat);
                    }
                }
            }
            return None;
        }
        acc = acc * 10 + d;
        i = i + 1;
        proof {
            let run = s@.subrange(pos as int, i as int);
            assert(run.drop_last() =~= s@.subrange(pos as int, i - 1));
            assert(run.last() == s@[i - 1]);
        }
    }
    if i == pos {
        // empty digit run
        proof {
            assert forall|n: u64|
                {
                    &&& pos + (#[trigger] dec(n as nat)).len() <= s@.len()
                    &&& s@.subrange(pos as int, pos + dec(n as nat).len()) == dec(n as nat)
                    &&& (pos + dec(n as nat).len() < s@.len() ==> !is_digit(
                        s@[pos + dec(n as nat).len()],
                    ))
                } implies false by {
                lemma_dec_shape(n as nat);
                assert(s@[pos as int] == dec(n as nat)[0]);
                assert(is_digit(dec(n as nat)[0]));
            }
        }
        return None;
    }
    if i > pos + 1 && s.get_char(pos) == '0' {
        // a multi-digit run with a leading zero is not canonical
        proof {
            assert forall|n: u64|
                {
                    &&& pos + (#[trigger] dec(n as nat)).len() <= s@.len()
                    &&& s@.subrange(pos as int, pos + dec(n as nat).len()) == dec(n as nat)
                    &&& (pos + dec(n as nat).len() < s@.len() ==> !is_digit(
                        s@[pos + dec(n as nat).len()],
                    ))
                } implies false by {
                let l: int = dec(n as nat).len() as int;
                lemma_dec_shape(n as nat);
                assert(s@[pos as int] == dec(n as nat)[0]);
                if n == 0 {
                    // dec(0) is the single digit 0; the next character of the
                    // run would follow it and be a digit
                    assert(l == 1);
                    assert(pos + 1 < i <= s@.len());
                    assert(is_digit(s@.subrange(pos as int, i as int)[1]));
                } else {
                    assert(dec(n as nat)[0] != '0');
                }
            }
        }
        return None;
    }
    proof {
        let run = s@.subrange(pos as int, i as int);
        lemma_dec_of_val(run);
        assert(run == dec(acc as nat));
        assert forall|n: u64|
            {
                &&& pos + (#[trigger] dec(n as nat)).len() <= s@.len()
                &&& s@.subrange(pos as int, pos + dec(n as nat).len()) == dec(n as nat)
                &&& (pos + dec(n as nat).len() < s@.len() ==> !is_digit(
                    s@[pos + dec(n as nat).len()],
                ))
            } implies Some((acc, i)) == Some((n, (pos + dec(n as nat).len()) as usize)) by {
            let l: int = dec(n as nat).len() as int;
            lemma_dec_shape(n as nat);
            if pos + l < i {
                assert(is_digit(run[pos + l - pos]));
            }
            if pos + l > i {
                assert(i < s@.len());
                assert(s@[i as int] == dec(n as nat)[i - pos]);
                assert(is_digit(dec(n as nat)[i - pos]));
            }
            assert(pos + l == i);
            assert(dec(n as nat) =~= run);
            lemma_val_of_dec(n as nat);
            assert(n as nat == digits_val(run));
        }
    }
    Some((acc, i))
}

} // verus!

verus! {

/// Parses a whole string as one canonical numeral: the inverse of
/// `u64_to_string` on every input, and nothing on any other string.
pub fn parse_u64_str(s: &str) -> (r: Option<u64>)
    ensures
        match r {
            Some(v) => s@ == dec(v as nat),
            None => forall|v: u64| s@ != dec(v as nat),
        },
{
    proof {
        assert(s@.subrange(0, s@.len() as int) =~= s@);
    }
    let slen: usize = s.unicode_len();
    match parse_u64_at(s, 0) {
        Some((v, p)) => {
            if p == slen {
                Some(v)
            } else {
                proof {
                    assert forall|v2: u64| s@ != dec(v2 as nat) by {
                        if s@ == dec(v2 as nat) {
                            assert(s@.subrange(0, dec(v2 as nat).len() as int) == dec(v2 as nat));
                        }
                    }
                }
                None
            }
        },
        None => {
            proof {
                assert forall|v2: u64| s@ != dec(v2 as nat) by {
                    if s@ == dec(v2 as nat) {
                        assert(s@.subrange(0, dec(v2 as nat).len() as int) == dec(v2 as nat));
                    }
                }
            }
            None
        },
    }
}

} // verus!
