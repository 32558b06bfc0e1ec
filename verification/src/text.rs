//! Numbers as text: digits in a base, padded to a width.
use vstd::prelude::*;

verus! {

/// `String::push` appends one character to the end of the string.
pub assume_specification[ String::push ](s: &mut String, c: char)
    ensures
        final(s)@ == old(s)@.push(c),
;

/// The character of one digit, lower case above nine.
pub open spec fn digit_char(d: nat) -> char
    recommends
        d < 16,
{
    seq!['0', '1', '2', '3', '4', '5', '6', '7', '8', '9', 'a', 'b', 'c', 'd', 'e', 'f'][d as int]
}

/// The digits of `n` in `base`, most significant first, without leading zeros.
pub open spec fn digits(n: nat, base: nat) -> Seq<char>
    recommends
        2 <= base <= 16,
    decreases n,
{
    if n < base || base < 2 {
        seq![digit_char(n)]
    } else {
        proof {
            assert(n / base < n) by (nonlinear_arith)
                requires
                    n >= base >= 2,
            ;
        }
        digits(n / base, base).push(digit_char(n % base))
    }
}

/// `s` moved to the right end of a field of `width` characters; a longer text
/// keeps its length.
pub open spec fn padded(s: Seq<char>, width: nat, fill: char) -> Seq<char> {
    if s.len() >= width {
        s
    } else {
        Seq::new((width - s.len()) as nat, |i: int| fill) + s
    }
}

/// A number in decimal.
pub open spec fn decimal(n: nat) -> Seq<char> {
    digits(n, 10)
}

/// A number in decimal with leading zeros up to `width` digits.
pub open spec fn zero_padded(n: nat, width: nat) -> Seq<char> {
    padded(digits(n, 10), width, '0')
}

/// A number in hexadecimal with leading zeros up to `width` digits.
pub open spec fn hex_padded(n: nat, width: nat) -> Seq<char> {
    padded(digits(n, 16), width, '0')
}

fn digit(d: u64) -> (c: char)
    requires
        d < 16,
    ensures
        c == digit_char(d as nat),
{
    let table: [char; 16] = [
        '0', '1', '2', '3', '4', '5', '6', '7', '8', '9', 'a', 'b', 'c', 'd', 'e', 'f',
    ];
    table[d as usize]
}

/// Append the digits of `n`, padded on the left with `fill` to `width`
/// characters.
pub fn push_number(out: &mut String, n: u64, base: u64, width: usize, fill: char)
    requires
        2 <= base <= 16,
    ensures
        final(out)@ == old(out)@ + padded(digits(n as nat, base as nat), width as nat, fill),
{
    // Least significant digit first.
    let mut reversed: Vec<char> = Vec::new();
    let mut rest: u64 = n;
    let ghost whole = digits(n as nat, base as nat);
    while rest >= base
        invariant
            2 <= base <= 16,
            digits(rest as nat, base as nat) + reversed@.reverse() == whole,
        decreases rest,
    {
        let ghost before = reversed@;
        let ghost rest_before = rest as nat;
        let d_value: u64 = rest % base;
        assert(d_value < base && rest / base < rest) by (nonlinear_arith)
            requires
                d_value == rest % base,
                rest >= base >= 2,
        ;
        reversed.push(digit(d_value));
        rest = rest / base;
        proof {
            let d = digit_char(rest_before % base as nat);
            assert(reversed@.reverse() =~= seq![d] + before.reverse());
            assert(digits(rest_before, base as nat) == digits(rest as nat, base as nat).push(d));
            assert(digits(rest as nat, base as nat) + (seq![d] + before.reverse()) =~= digits(
                rest as nat,
                base as nat,
            ).push(d) + before.reverse());
        }
    }
    let ghost before = reversed@;
    reversed.push(digit(rest));
    assert(reversed@.reverse() =~= seq![digit_char(rest as nat)] + before.reverse());
    assert(reversed@.reverse() =~= whole);

    let ghost start = out@;
    let mut column: usize = reversed.len();
    while column < width
        invariant
            reversed@.len() <= column,
            reversed@.len() >= width ==> column == reversed@.len(),
            reversed@.len() < width ==> column <= width,
            out@ == start + Seq::new((column - reversed@.len()) as nat, |i: int| fill),
        decreases width - column,
    {
        out.push(fill);
        column = column + 1;
        assert(out@ =~= start + Seq::new((column - reversed@.len()) as nat, |i: int| fill));
    }
    let ghost lead = out@;
    let mut i: usize = reversed.len();
    while i > 0
        invariant
            i <= reversed@.len(),
            out@ == lead + reversed@.reverse().take(reversed@.len() - i),
        decreases i,
    {
        i = i - 1;
        out.push(reversed[i]);
        assert(reversed@.reverse().take(reversed@.len() - i) =~= reversed@.reverse().take(
            reversed@.len() - i - 1,
        ).push(reversed@[i as int]));
        assert(out@ =~= lead + reversed@.reverse().take(reversed@.len() - i));
    }
    assert(reversed@.reverse().take(reversed@.len() as int) =~= whole);
    assert(out@ =~= start + padded(whole, width as nat, fill));
}

/// The characters of a text.
pub fn chars_of(s: &str) -> (v: Vec<char>)
    ensures
        v@ == s@,
{
    let mut v: Vec<char> = Vec::new();
    for c in it: s.chars()
        invariant
            v@ == s@.take(it.index() as int),
            it.seq() == s@,
    {
        v.push(c);
        assert(v@ =~= s@.take(it.index() + 1));
    }
    assert(v@ =~= s@);
    v
}

/// The text of the characters from `from` up to `to`.
pub fn text_of(chars: &Vec<char>, from: usize, to: usize) -> (s: String)
    requires
        from <= to <= chars@.len(),
    ensures
        s@ == chars@.subrange(from as int, to as int),
{
    let mut s: String = String::new();
    let mut i: usize = from;
    while i < to
        invariant
            from <= i <= to <= chars@.len(),
            s@ == chars@.subrange(from as int, i as int),
        decreases to - i,
    {
        s.push(chars[i]);
        i = i + 1;
        assert(s@ =~= chars@.subrange(from as int, i as int));
    }
    s
}

/// Whether the characters from `from` up to `to` spell `word`.
pub fn spells(chars: &Vec<char>, from: usize, to: usize, word: &str) -> (b: bool)
    requires
        from <= to <= chars@.len(),
    ensures
        b == (chars@.subrange(from as int, to as int) == word@),
{
    let letters = chars_of(word);
    if letters.len() != to - from {
        return false;
    }
    let ghost piece = chars@.subrange(from as int, to as int);
    let mut i: usize = 0;
    while i < letters.len()
        invariant
            from <= to <= chars@.len(),
            letters@.len() == to - from,
            letters@ == word@,
            piece == chars@.subrange(from as int, to as int),
            i <= letters@.len(),
            forall|j: int| 0 <= j < i ==> piece[j] == letters@[j],
        decreases letters@.len() - i,
    {
        if chars[from + i] != letters[i] {
            assert(piece[i as int] != letters@[i as int]);
            return false;
        }
        i = i + 1;
    }
    assert(piece =~= word@);
    true
}

/// A number of at most two digits, written with two.
pub proof fn lemma_two_digits(n: nat)
    requires
        n < 100,
    ensures
        zero_padded(n, 2) == seq![digit_char(n / 10), digit_char(n % 10)],
{
    reveal_with_fuel(digits, 3);
    assert(zero_padded(n, 2) =~= seq![digit_char(n / 10), digit_char(n % 10)]);
}

/// Digits that look the same are the same.
pub proof fn lemma_digits_differ(a: nat, b: nat)
    requires
        a < 16,
        b < 16,
        digit_char(a) == digit_char(b),
    ensures
        a == b,
{
}

/// A number of at most four digits, written with four.
pub proof fn lemma_four_digits(n: nat)
    requires
        1000 <= n < 10000,
    ensures
        zero_padded(n, 4) == seq![
            digit_char(n / 1000),
            digit_char(n / 100 % 10),
            digit_char(n / 10 % 10),
            digit_char(n % 10),
        ],
{
    reveal_with_fuel(digits, 5);
    assert(n / 10 / 10 == n / 100 && n / 10 / 10 / 10 == n / 1000);
    assert(zero_padded(n, 4) =~= seq![
        digit_char(n / 1000),
        digit_char(n / 100 % 10),
        digit_char(n / 10 % 10),
        digit_char(n % 10),
    ]);
}

/// Decimal digits are in the order of their characters.
pub proof fn lemma_digits_in_order(a: nat, b: nat)
    requires
        a < b < 10,
    ensures
        digit_char(a) < digit_char(b),
{
}

/// Whether the first difference between two texts is at `k`, where the first
/// text ends or has the lesser character.
pub open spec fn less_at(a: Seq<char>, b: Seq<char>, k: int) -> bool {
    &&& 0 <= k <= a.len()
    &&& k < b.len()
    &&& forall|j: int| 0 <= j < k ==> a[j] == b[j]
    &&& k == a.len() || a[k] < b[k]
}

/// The alphabetical order of texts.
pub open spec fn comes_before(a: Seq<char>, b: Seq<char>) -> bool {
    exists|k: int| #[trigger] less_at(a, b, k)
}

/// Of two texts at most one comes before the other, and no text before itself.
pub proof fn lemma_order_is_strict(a: Seq<char>, b: Seq<char>)
    requires
        comes_before(a, b),
    ensures
        !comes_before(b, a),
        a != b,
{
    let i = choose|i: int| #[trigger] less_at(a, b, i);
    if comes_before(b, a) {
        let j = choose|j: int| #[trigger] less_at(b, a, j);
        if i < j {
            assert(b[i] == a[i]);
        } else if j < i {
            assert(a[j] == b[j]);
        }
    }
}

/// The characters of the digits are in the order of the character set, decimal
/// digits from `0` on and the others from `a` on.
pub proof fn lemma_digit_characters(d: nat)
    requires
        d < 16,
    ensures
        d < 10 ==> digit_char(d) as u32 == 48 + d,
        d >= 10 ==> digit_char(d) as u32 == 87 + d,
{
}

/// The number that a character stands for as a digit.
pub open spec fn digit_value(c: char) -> int {
    if c as u32 >= 97 {
        c as u32 - 87
    } else {
        c as u32 - 48
    }
}

/// The number that some digits stand for.
pub open spec fn digits_value(s: Seq<char>, base: nat) -> int
    decreases s.len(),
{
    if s.len() == 0 {
        0
    } else {
        digits_value(s.drop_last(), base) * base + digit_value(s.last())
    }
}

/// The digits of a number stand for it, in every base, and do not start with a
/// zero unless that is all there is.
pub proof fn lemma_digits_stand_for_the_number(n: nat, base: nat)
    requires
        2 <= base <= 16,
    ensures
        digits_value(digits(n, base), base) == n,
        digits(n, base).len() > 0,
        n > 0 ==> digits(n, base)[0] != '0',
        n < base ==> digits(n, base).len() == 1,
        forall|i: int|
            0 <= i < digits(n, base).len() ==> 0 <= digit_value(#[trigger] digits(n, base)[i])
                < base,
    decreases n,
{
    let s = digits(n, base);
    if n < base {
        lemma_digit_characters(n);
        assert(s.drop_last().len() == 0);
        assert(digits_value(s.drop_last(), base) == 0);
    } else {
        assert(n / base < n && n / base > 0 && n % base < base && n == n / base * base + n % base)
            by (nonlinear_arith)
            requires
                n >= base >= 2,
        ;
        lemma_digits_stand_for_the_number(n / base, base);
        lemma_digit_characters(n % base);
        let more = digits(n / base, base);
        assert(s.drop_last() =~= more);
        assert(s.last() == digit_char(n % base));
        assert forall|i: int| 0 <= i < s.len() implies 0 <= digit_value(#[trigger] s[i]) < base by {
            if i < more.len() {
                assert(s[i] == more[i]);
            }
        }
        assert(s[0] == more[0]);
    }
}

/// A text that is padded is as wide as was asked for, or as long as it was
/// before; it ends in the text, with nothing but the fill in front.
pub proof fn lemma_padding_goes_in_front(s: Seq<char>, width: nat, fill: char)
    ensures
        ({
            let p = padded(s, width, fill);
            &&& s.len() >= width ==> p == s
            &&& s.len() < width ==> p.len() == width
            &&& p.len() >= s.len()
            &&& p.skip(p.len() - s.len()) == s
            &&& forall|i: int| 0 <= i < p.len() - s.len() ==> p[i] == fill
        }),
{
    let p = padded(s, width, fill);
    assert(p.skip(p.len() - s.len()) =~= s);
}

/// Leading zeros do not change a number.
proof fn lemma_leading_zeros(s: Seq<char>, width: nat, base: nat)
    requires
        s.len() > 0,
    ensures
        digits_value(padded(s, width, '0'), base) == digits_value(s, base),
    decreases s.len(),
{
    let p = padded(s, width, '0');
    if s.len() < width {
        let zeros = Seq::new((width - s.len()) as nat, |i: int| '0');
        if s.len() == 1 {
            assert(p.drop_last() =~= zeros);
            lemma_zeros(zeros, base);
            assert(s.drop_last().len() == 0);
            assert(digits_value(s.drop_last(), base) == 0);
        } else {
            lemma_leading_zeros(s.drop_last(), (width - 1) as nat, base);
            assert(p.drop_last() =~= padded(s.drop_last(), (width - 1) as nat, '0'));
        }
        assert(p.last() == s.last());
        assert(digits_value(p.drop_last(), base) == digits_value(s.drop_last(), base));
        assert(p.len() > 0);
    }
}

proof fn lemma_zeros(zeros: Seq<char>, base: nat)
    requires
        forall|i: int| 0 <= i < zeros.len() ==> zeros[i] == '0',
    ensures
        digits_value(zeros, base) == 0,
    decreases zeros.len(),
{
    if zeros.len() > 0 {
        lemma_zeros(zeros.drop_last(), base);
    }
}

/// How many digits a number takes.
proof fn lemma_digit_count(n: nat, base: nat, count: nat)
    requires
        2 <= base <= 16,
        count > 0,
        n < vstd::arithmetic::power::pow(base as int, count),
    ensures
        digits(n, base).len() <= count,
    decreases count,
{
    vstd::arithmetic::power::lemma_pow1(base as int);
    if n >= base {
        if count == 1 {
        } else {
            vstd::arithmetic::power::lemma_pow_adds(base as int, 1, (count - 1) as nat);
            let less = vstd::arithmetic::power::pow(base as int, (count - 1) as nat);
            assert(n / base < less) by (nonlinear_arith)
                requires
                    n < base * less,
                    base >= 2,
            ;
            lemma_digit_count(n / base, base, (count - 1) as nat);
        }
    }
}

/// A number that fits into so many hexadecimal digits is written with exactly
/// that many, and can be read back.
pub proof fn lemma_hex_field(n: nat, width: nat)
    requires
        width > 0,
        n < vstd::arithmetic::power::pow(16, width),
    ensures
        hex_padded(n, width).len() == width,
        digits_value(hex_padded(n, width), 16) == n,
{
    lemma_digits_stand_for_the_number(n, 16);
    lemma_digit_count(n, 16, width);
    lemma_leading_zeros(digits(n, 16), width, 16);
}

} // verus!
