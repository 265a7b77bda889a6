//! Decimal rendering of unsigned integers.
use vstd::prelude::*;

verus! {

/// The character of a decimal digit.
pub open spec fn digit_char(d: nat) -> char {
    if d == 0 { '0' }
    else if d == 1 { '1' }
    else if d == 2 { '2' }
    else if d == 3 { '3' }
    else if d == 4 { '4' }
    else if d == 5 { '5' }
    else if d == 6 { '6' }
    else if d == 7 { '7' }
    else if d == 8 { '8' }
    else { '9' }
}

/// The decimal representation of `n`, without leading zeros.
pub open spec fn dec(n: nat) -> Seq<char>
    decreases n,
{
    if n < 10 {
        seq![digit_char(n)]
    } else {
        dec(n / 10) + seq![digit_char(n % 10)]
    }
}

/// The decimal representation of `n`, padded with zeros to at least two digits.
pub open spec fn dec_pad2(n: nat) -> Seq<char> {
    if n < 10 {
        seq!['0', digit_char(n)]
    } else {
        dec(n)
    }
}

proof fn lemma_digit_char_injective(a: nat, b: nat)
    requires
        a < 10,
        b < 10,
        digit_char(a) == digit_char(b),
    ensures
        a == b,
{
}

/// The representation of a number has at least one digit, and at least two from ten on.
pub proof fn lemma_dec_len(n: nat)
    ensures
        dec(n).len() >= 1,
        n >= 10 ==> dec(n).len() >= 2,
    decreases n,
{
    if n >= 10 {
        lemma_dec_len(n / 10);
    }
}

/// A positive number does not start with the digit zero.
pub proof fn lemma_dec_no_leading_zero(n: nat)
    requires
        n >= 1,
    ensures
        dec(n).len() >= 1,
        dec(n)[0] != '0',
    decreases n,
{
    lemma_dec_len(n);
    if n >= 10 {
        lemma_dec_no_leading_zero(n / 10);
        lemma_dec_len(n / 10);
    }
}

/// Different numbers have different representations.
pub proof fn lemma_dec_injective(a: nat, b: nat)
    requires
        dec(a) == dec(b),
    ensures
        a == b,
    decreases a + b,
{
    lemma_dec_len(a);
    lemma_dec_len(b);
    if a < 10 && b < 10 {
        assert(dec(a) == seq![digit_char(a)]);
        assert(dec(b) == seq![digit_char(b)]);
        assert(dec(a)[0] == digit_char(a));
        assert(dec(b)[0] == digit_char(b));
        lemma_digit_char_injective(a, b);
    } else if a >= 10 && b >= 10 {
        let da = dec(a);
        let db = dec(b);
        assert(da[da.len() - 1] == digit_char(a % 10));
        assert(db[db.len() - 1] == digit_char(b % 10));
        lemma_digit_char_injective(a % 10, b % 10);
        assert(dec(a / 10) =~= da.drop_last());
        assert(dec(b / 10) =~= db.drop_last());
        lemma_dec_injective(a / 10, b / 10);
    } else {
        assert(dec(a).len() != dec(b).len());
    }
}

/// Different numbers have different zero-padded representations.
pub proof fn lemma_dec_pad2_injective(a: nat, b: nat)
    requires
        dec_pad2(a) == dec_pad2(b),
    ensures
        a == b,
{
    if a < 10 && b < 10 {
        assert(dec_pad2(a)[1] == digit_char(a));
        assert(dec_pad2(b)[1] == digit_char(b));
        lemma_digit_char_injective(a, b);
    } else if a >= 10 && b >= 10 {
        lemma_dec_injective(a, b);
    } else if a < 10 {
        lemma_dec_no_leading_zero(b);
        assert(dec_pad2(a)[0] == '0');
    } else {
        lemma_dec_no_leading_zero(a);
        assert(dec_pad2(b)[0] == '0');
    }
}

fn digit_str(d: usize) -> (s: &'static str)
    requires
        d < 10,
    ensures
        s@ == seq![digit_char(d as nat)],
{
    if d == 0 {
        proof { reveal_strlit("0"); }
        "0"
    } else if d == 1 {
        proof { reveal_strlit("1"); }
        "1"
    } else if d == 2 {
        proof { reveal_strlit("2"); }
        "2"
    } else if d == 3 {
        proof { reveal_strlit("3"); }
        "3"
    } else if d == 4 {
        proof { reveal_strlit("4"); }
        "4"
    } else if d == 5 {
        proof { reveal_strlit("5"); }
        "5"
    } else if d == 6 {
        proof { reveal_strlit("6"); }
        "6"
    } else if d == 7 {
        proof { reveal_strlit("7"); }
        "7"
    } else if d == 8 {
        proof { reveal_strlit("8"); }
        "8"
    } else {
        proof { reveal_strlit("9"); }
        "9"
    }
}

/// Renders `n` in decimal, as `format!("{}", n)` does.
pub fn to_decimal(n: u64) -> (s: String)
    ensures
        s@ == dec(n as nat),
    decreases n,
{
    if n < 10 {
        String::from_str(digit_str(n as usize))
    } else {
        let mut s = to_decimal(n / 10);
        s.append(digit_str((n % 10) as usize));
        s
    }
}

/// Renders `n` in decimal with at least two digits, as `format!("{:02}", n)` does.
pub fn to_decimal_pad2(n: u64) -> (s: String)
    ensures
        s@ == dec_pad2(n as nat),
{
    if n < 10 {
        let mut s = String::from_str(digit_str(0));
        s.append(digit_str(n as usize));
        s
    } else {
        to_decimal(n)
    }
}

} // verus!
