use vstd::prelude::*;

verus! {

/// The character for one decimal digit value.
pub open spec fn spec_digit_char(d: nat) -> char {
    if d == 0 {
        '0'
    } else if d == 1 {
        '1'
    } else if d == 2 {
        '2'
    } else if d == 3 {
        '3'
    } else if d == 4 {
        '4'
    } else if d == 5 {
        '5'
    } else if d == 6 {
        '6'
    } else if d == 7 {
        '7'
    } else if d == 8 {
        '8'
    } else {
        '9'
    }
}

pub open spec fn spec_is_digit(c: char) -> bool {
    '0' <= c <= '9'
}

/// The value of one digit character; 0 for any other character.
pub open spec fn spec_digit_val(c: char) -> nat {
    if spec_is_digit(c) {
        ((c as int) - ('0' as int)) as nat
    } else {
        0
    }
}

/// The shortest decimal form of `n`, most significant digit first.
pub open spec fn spec_dec(n: nat) -> Seq<char>
    decreases n,
{
    if n < 10 {
        seq![spec_digit_char(n)]
    } else {
        spec_dec(n / 10).push(spec_digit_char(n % 10))
    }
}

/// The numeric value of a digit string, most significant digit first.
pub open spec fn spec_val(s: Seq<char>) -> nat
    decreases s.len(),
{
    if s.len() == 0 {
        0
    } else {
        spec_val(s.drop_last()) * 10 + spec_digit_val(s.last())
    }
}

pub open spec fn spec_all_digits(s: Seq<char>) -> bool {
    forall|i: int| 0 <= i < s.len() ==> spec_is_digit(s[i])
}

pub open spec fn spec_pow10(k: nat) -> nat
    decreases k,
{
    if k == 0 {
        1
    } else {
        10 * spec_pow10((k - 1) as nat)
    }
}

pub proof fn lemma_digit_char_val(d: nat)
    requires
        d < 10,
    ensures
        spec_is_digit(spec_digit_char(d)),
        spec_digit_val(spec_digit_char(d)) == d,
{
}

/// Reading back the decimal form of `n` yields `n`.
pub proof fn lemma_val_dec(n: nat)
    ensures
        spec_val(spec_dec(n)) == n,
        spec_all_digits(spec_dec(n)),
        spec_dec(n).len() >= 1,
    decreases n,
{
    if n < 10 {
        lemma_digit_char_val(n);
        assert(spec_dec(n) == seq![spec_digit_char(n)]);
        assert(spec_dec(n).len() == 1);
        assert(spec_dec(n).last() == spec_digit_char(n));
        assert(spec_dec(n).drop_last() =~= Seq::<char>::empty());
        assert(spec_val(spec_dec(n)) == spec_val(Seq::<char>::empty()) * 10 + spec_digit_val(
            spec_digit_char(n),
        ));
    } else {
        lemma_val_dec(n / 10);
        lemma_digit_char_val(n % 10);
        vstd::arithmetic::div_mod::lemma_fundamental_div_mod(n as int, 10);
        assert(spec_dec(n).drop_last() =~= spec_dec(n / 10));
        assert(spec_dec(n).last() == spec_digit_char(n % 10));
        assert(spec_val(spec_dec(n)) == spec_val(spec_dec(n).drop_last()) * 10 + spec_digit_val(
            spec_dec(n).last(),
        ));
        assert(spec_val(spec_dec(n)) == (n / 10) * 10 + n % 10);
    }
}

/// The decimal form of a value below `pow10(k)` has at most `k` digits.
pub proof fn lemma_dec_len(n: nat, k: nat)
    requires
        k >= 1,
        n < spec_pow10(k),
    ensures
        spec_dec(n).len() <= k,
    decreases n,
{
    if n >= 10 {
        assert(spec_pow10(k) == 10 * spec_pow10((k - 1) as nat));
        lemma_dec_len(n / 10, (k - 1) as nat);
    }
}

/// A run of zeros before a digit string does not change its value.
pub proof fn lemma_val_leading_zeros(k: nat, s: Seq<char>)
    ensures
        spec_val(Seq::new(k, |i: int| '0') + s) == spec_val(s),
    decreases s.len(),
{
    let z = Seq::new(k, |i: int| '0');
    if s.len() == 0 {
        assert(z + s =~= z);
        lemma_val_zeros(k);
    } else {
        assert((z + s).drop_last() =~= z + s.drop_last());
        assert((z + s).last() == s.last());
        lemma_val_leading_zeros(k, s.drop_last());
    }
}

pub proof fn lemma_val_zeros(k: nat)
    ensures
        spec_val(Seq::new(k, |i: int| '0')) == 0,
    decreases k,
{
    let z = Seq::new(k, |i: int| '0');
    if k > 0 {
        assert(z.drop_last() =~= Seq::new((k - 1) as nat, |i: int| '0'));
        lemma_val_zeros((k - 1) as nat);
    }
}

/// The width numbers are padded to on the wire: enough for any `u64`.
pub const NUM_WIDTH: usize = 20;

/// The decimal form of `n`, zero-padded on the left to exactly 20 characters.
pub open spec fn spec_dec20(n: u64) -> Seq<char> {
    Seq::new((20 - spec_dec(n as nat).len()) as nat, |i: int| '0') + spec_dec(n as nat)
}

/// The padded decimal form of a `u64` is 20 digits and reads back as `n`.
pub proof fn lemma_dec20(n: u64)
    ensures
        spec_dec20(n).len() == 20,
        spec_all_digits(spec_dec20(n)),
        spec_val(spec_dec20(n)) == n,
{
    lemma_val_dec(n as nat);
    assert(spec_pow10(20) == 100000000000000000000) by {
        reveal_with_fuel(spec_pow10, 21);
    }
    assert(n < spec_pow10(20));
    lemma_dec_len(n as nat, 20);
    lemma_val_leading_zeros((20 - spec_dec(n as nat).len()) as nat, spec_dec(n as nat));
}

fn digit_char(d: u64) -> (c: char)
    requires
        d < 10,
    ensures
        c == spec_digit_char(d as nat),
{
    if d == 0 {
        '0'
    } else if d == 1 {
        '1'
    } else if d == 2 {
        '2'
    } else if d == 3 {
        '3'
    } else if d == 4 {
        '4'
    } else if d == 5 {
        '5'
    } else if d == 6 {
        '6'
    } else if d == 7 {
        '7'
    } else if d == 8 {
        '8'
    } else {
        '9'
    }
}

fn digit_val(c: char) -> (d: u64)
    requires
        spec_is_digit(c),
    ensures
        d == spec_digit_val(c),
        d < 10,
{
    (c as u64) - ('0' as u64)
}

fn is_digit(c: char) -> (r: bool)
    ensures
        r == spec_is_digit(c),
{
    '0' <= c && c <= '9'
}

/// Appends the shortest decimal form of `n`.
pub fn push_dec(n: u64, out: &mut Vec<char>)
    ensures
        final(out)@ == old(out)@ + spec_dec(n as nat),
    decreases n,
{
    if n >= 10 {
        push_dec(n / 10, out);
    }
    out.push(digit_char(n % 10));
    proof {
        if n < 10 {
            assert(out@ =~= old(out)@ + spec_dec(n as nat));
        } else {
            assert(out@ =~= old(out)@ + spec_dec(n as nat));
        }
    }
}

/// The shortest decimal form of `n` as a string.
pub fn dec_string(n: u64) -> (r: String)
    ensures
        r@ == spec_dec(n as nat),
{
    let mut v: Vec<char> = Vec::new();
    push_dec(n, &mut v);
    proof {
        assert(v@ =~= spec_dec(n as nat));
    }
    crate::chars::string_of(&v)
}

/// Appends the 20-character padded decimal form of `n`.
pub fn push_dec20(n: u64, out: &mut Vec<char>)
    ensures
        final(out)@ == old(out)@ + spec_dec20(n),
{
    let mut digits: Vec<char> = Vec::new();
    push_dec(n, &mut digits);
    proof {
        assert(digits@ =~= spec_dec(n as nat));
        lemma_dec20(n);
    }
    let pad: usize = NUM_WIDTH - digits.len();
    let mut i: usize = 0;
    while i < pad
        invariant
            i <= pad,
            out@ == old(out)@ + Seq::new(i as nat, |j: int| '0'),
        decreases pad - i,
    {
        out.push('0');
        i = i + 1;
        proof {
            assert(old(out)@ + Seq::new(i as nat, |j: int| '0') =~= (old(out)@ + Seq::new((i - 1) as nat, |j: int| '0')).push('0'));
        }
    }
    let mut j: usize = 0;
    while j < digits.len()
        invariant
            j <= digits.len(),
            digits@ == spec_dec(n as nat),
            pad == 20 - digits@.len(),
            out@ == old(out)@ + Seq::new(pad as nat, |k: int| '0') + digits@.take(j as int),
        decreases digits.len() - j,
    {
        out.push(digits[j]);
        j = j + 1;
        proof {
            assert(digits@.take(j as int) =~= digits@.take(j - 1).push(digits@[j - 1]));
            assert(out@ =~= old(out)@ + Seq::new(pad as nat, |k: int| '0') + digits@.take(
                j as int,
            ));
        }
    }
    proof {
        assert(digits@.take(digits@.len() as int) =~= digits@);
        assert(out@ =~= old(out)@ + spec_dec20(n));
    }
}

/// The wire-level reading of one padded number: 20 digits whose value fits a
/// `u64`, followed by the rest of the input.
pub open spec fn spec_parse_num(s: Seq<char>) -> Option<(u64, Seq<char>)> {
    if s.len() < 20 {
        None
    } else if !spec_all_digits(s.take(20)) {
        None
    } else if spec_val(s.take(20)) > u64::MAX {
        None
    } else {
        Some((spec_val(s.take(20)) as u64, s.skip(20)))
    }
}

/// Reading a written number gives the number back and leaves the rest.
pub proof fn lemma_parse_num_dec20(n: u64, rest: Seq<char>)
    ensures
        spec_parse_num(spec_dec20(n) + rest) == Some((n, rest)),
{
    lemma_dec20(n);
    assert((spec_dec20(n) + rest).take(20) =~= spec_dec20(n));
    assert((spec_dec20(n) + rest).skip(20) =~= rest);
}

/// Reads one padded number at offset `i`, matching `spec_parse_num` on the
/// remaining input.
pub fn parse_num(v: &Vec<char>, i: usize) -> (r: Option<(u64, usize)>)
    requires
        i <= v@.len(),
    ensures
        match spec_parse_num(v@.skip(i as int)) {
            Some((n, rest)) => r == Some((n, (i + 20) as usize)) && rest == v@.skip(i + 20),
            None => r is None,
        },
{
    let ghost s = v@.skip(i as int);
    let vl = v.len();
    if vl - i < NUM_WIDTH {
        return None;
    }
    let mut acc: u128 = 0;
    let mut j: usize = 0;
    while j < NUM_WIDTH
        invariant
            j <= 20,
            vl == v@.len(),
            i + 20 <= vl,
            s == v@.skip(i as int),
            spec_all_digits(s.take(j as int)),
            acc == spec_val(s.take(j as int)),
            acc < spec_pow10(j as nat),
        decreases 20 - j,
    {
        let c = v[i + j];
        proof {
            assert(s[j as int] == v@[i + j]);
        }
        if !is_digit(c) {
            proof {
                assert(!spec_is_digit(s.take(20)[j as int]));
            }
            return None;
        }
        let d = digit_val(c);
        proof {
            assert(spec_pow10(20) == 100000000000000000000) by {
                reveal_with_fuel(spec_pow10, 21);
            }
            lemma_pow10_increases(j as nat, 19);
            assert(acc * 10 + d < spec_pow10(j as nat) * 10) by (nonlinear_arith)
                requires
                    acc < spec_pow10(j as nat),
                    d < 10,
            ;
            assert(spec_pow10((j + 1) as nat) == 10 * spec_pow10(j as nat));
            lemma_pow10_increases((j + 1) as nat, 20);
        }
        acc = acc * 10 + (d as u128);
        j = j + 1;
        proof {
            assert(s.take(j as int).drop_last() =~= s.take(j - 1));
            assert(s.take(j as int).last() == s[j - 1]);
        }
    }
    proof {
        assert(s.take(20) == s.take(j as int));
    }
    if acc > u64::MAX as u128 {
        return None;
    }
    Some((acc as u64, i + NUM_WIDTH))
}

pub proof fn lemma_pow10_increases(a: nat, b: nat)
    requires
        a <= b,
    ensures
        spec_pow10(a) <= spec_pow10(b),
    decreases b,
{
    if a < b {
        lemma_pow10_increases(a, (b - 1) as nat);
        assert(spec_pow10(b) == 10 * spec_pow10((b - 1) as nat));
    }
}

} // verus!
