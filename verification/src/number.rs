//! Numbers written in digits.
#[allow(unused_imports)]
use vstd::arithmetic::power::pow;
use vstd::prelude::*;

verus! {

/// What a character stands for as a digit, up to the sixteen of hexadecimal
/// in either case; -1 where it is none of them.
pub open spec fn digit_value(c: char) -> int {
    if '0' <= c && c <= '9' {
        c as int - '0' as int
    } else if 'a' <= c && c <= 'f' {
        c as int - 'a' as int + 10
    } else if 'A' <= c && c <= 'F' {
        c as int - 'A' as int + 10
    } else {
        -1
    }
}

/// Whether `s` is made of digits of the radix alone, at least one of them.
pub open spec fn is_digits(s: Seq<char>, radix: int) -> bool {
    &&& s.len() > 0
    &&& forall|i: int| 0 <= i < s.len() ==> 0 <= digit_value(#[trigger] s[i]) < radix
}

/// The positional value of `s` in the radix, the most significant digit first.
pub open spec fn positional(s: Seq<char>, radix: int) -> int
    decreases s.len(),
{
    if s.len() == 0 {
        0
    } else {
        positional(s.drop_last(), radix) * radix + digit_value(s.last())
    }
}

/// The number that `s` writes in the radix, where it is no more than `max`.
/// Leading zeros are allowed and any number of digits is.
pub open spec fn number(s: Seq<char>, radix: int, max: int) -> Option<int> {
    if is_digits(s, radix) && positional(s, radix) <= max {
        Some(positional(s, radix))
    } else {
        None
    }
}

/// The digit of a value below sixteen, in lower case.
pub open spec fn digit(d: int) -> char {
    if d < 10 {
        ('0' as int + d) as char
    } else {
        ('a' as int + (d - 10)) as char
    }
}

/// The shortest text of a natural number in a radix of at most sixteen.
pub open spec fn digits(n: nat, radix: nat) -> Seq<char>
    decreases n,
{
    if radix < 2 || n < radix {
        seq![digit(n as int)]
    } else {
        proof {
            assert(n / radix < n) by (nonlinear_arith)
                requires
                    radix >= 2,
                    n >= radix,
            ;
        }
        digits(n / radix, radix).push(digit((n % radix) as int))
    }
}

/// The shortest decimal text of an integer: a minus sign before the digits
/// where it is negative, and no plus sign.
pub open spec fn signed_decimal(n: int) -> Seq<char> {
    if n < 0 {
        seq!['-'] + digits((-n) as nat, 10)
    } else {
        digits(n as nat, 10)
    }
}

/// More digits never make a number smaller.
pub proof fn lemma_positional_grows(s: Seq<char>, radix: int, i: int)
    requires
        radix >= 1,
        0 <= i <= s.len(),
        forall|j: int| 0 <= j < s.len() ==> 0 <= digit_value(#[trigger] s[j]),
    ensures
        0 <= positional(s.take(i), radix) <= positional(s, radix),
    decreases s.len(),
{
    if s.len() == 0 {
        assert(s.take(i) =~= s);
    } else {
        let t = s.drop_last();
        assert forall|j: int| 0 <= j < t.len() implies 0 <= digit_value(#[trigger] t[j]) by {
            assert(t[j] == s[j]);
        }
        lemma_positional_grows(t, radix, if i < s.len() { i } else { i - 1 });
        assert(0 <= positional(t, radix)) by {
            lemma_positional_grows(t, radix, 0);
        }
        assert(positional(t, radix) * radix >= positional(t, radix)) by (nonlinear_arith)
            requires
                radix >= 1,
                positional(t, radix) >= 0,
        ;
        assert(digit_value(s.last()) >= 0);
        if i < s.len() {
            assert(s.take(i) =~= t.take(i));
        } else {
            assert(s.take(i) =~= s);
        }
    }
}

/// The text of a number reads back as the number, and starts with a zero only
/// where it is the number zero.
pub proof fn lemma_digits_read_back(n: nat, radix: nat)
    requires
        radix == 10 || radix == 16,
    ensures
        is_digits(digits(n, radix), radix as int),
        positional(digits(n, radix), radix as int) == n,
        digits(n, radix)[0] == '0' <==> n == 0,
        n < radix ==> digits(n, radix).len() == 1,
        n >= radix ==> digits(n, radix).len() == digits(n / radix, radix).len() + 1,
    decreases n,
{
    let s = digits(n, radix);
    if n < radix {
        assert(digit_value(s[0]) == n);
        assert(s.drop_last() =~= seq![]);
        assert(positional(s.drop_last(), radix as int) == 0);
        assert(s.last() == s[0]);
    } else {
        assert(0 < n / radix < n && n == n / radix * radix + n % radix) by (nonlinear_arith)
            requires
                radix == 10 || radix == 16,
                n >= radix,
        ;
        let t = digits(n / radix, radix);
        let d = (n % radix) as int;
        lemma_digits_read_back(n / radix, radix);
        assert(s.drop_last() =~= t);
        assert(s.last() == digit(d));
        assert(digit_value(digit(d)) == d);
        assert forall|i: int| 0 <= i < s.len() implies 0 <= digit_value(#[trigger] s[i])
            < radix by {
            if i < t.len() {
                assert(s[i] == t[i]);
            }
        }
        assert(s[0] == t[0]);
    }
}

/// How many digits a small number takes.
pub proof fn lemma_digits_len(n: nat, radix: nat)
    requires
        radix == 10 || radix == 16,
    ensures
        radix == 10 && n < 1000 ==> digits(n, radix).len() <= 3,
        radix == 16 && n < 0x1_0000 ==> digits(n, radix).len() <= 4,
{
    lemma_digits_read_back(n, radix);
    lemma_digits_read_back(n / radix, radix);
    lemma_digits_read_back(n / radix / radix, radix);
    lemma_digits_read_back(n / radix / radix / radix, radix);
    if radix == 10 && n < 1000 {
        assert(n / 10 < 100 && n / 10 / 10 < 10);
    }
    if radix == 16 && n < 0x1_0000 {
        assert(n / 16 < 4096 && n / 16 / 16 < 256 && n / 16 / 16 / 16 < 16);
    }
}

/// Digits hold no character but digits.
pub proof fn lemma_digits_avoid(s: Seq<char>, radix: int, c: char)
    requires
        is_digits(s, radix),
        digit_value(c) < 0,
    ensures
        !s.contains(c),
{
}

/// Different numbers have different decimal texts.
pub proof fn lemma_signed_decimal_injective(a: int, b: int)
    requires
        signed_decimal(a) == signed_decimal(b),
    ensures
        a == b,
{
    let x = if a < 0 { (-a) as nat } else { a as nat };
    let y = if b < 0 { (-b) as nat } else { b as nat };
    lemma_digits_read_back(x, 10);
    lemma_digits_read_back(y, 10);
    assert(digit_value(digits(x, 10)[0]) >= 0);
    assert(digit_value(digits(y, 10)[0]) >= 0);
    assert(digit_value('-') == -1);
    if a < 0 {
        assert(signed_decimal(a)[0] == '-');
    }
    if b < 0 {
        assert(signed_decimal(b)[0] == '-');
    }
    if a < 0 && b < 0 {
        assert(signed_decimal(a).skip(1) =~= digits(x, 10));
        assert(signed_decimal(b).skip(1) =~= digits(y, 10));
    }
}

/// Reads one digit of hexadecimal.
fn read_digit(c: char) -> (d: Option<u64>)
    ensures
        d is Some <==> digit_value(c) >= 0,
        d matches Some(v) ==> v == digit_value(c),
{
    if '0' <= c && c <= '9' {
        Some(c as u64 - '0' as u64)
    } else if 'a' <= c && c <= 'f' {
        Some(c as u64 - 'a' as u64 + 10)
    } else if 'A' <= c && c <= 'F' {
        Some(c as u64 - 'A' as u64 + 10)
    } else {
        None
    }
}

/// Reads a number of at most `max`.
pub fn read_number(s: &[char], radix: u64, max: u32) -> (n: Option<u32>)
    requires
        radix == 10 || radix == 16,
    ensures
        n is Some <==> number(s@, radix as int, max as int) is Some,
        n matches Some(v) ==> number(s@, radix as int, max as int) == Some(v as int),
{
    let len: usize = s.len();
    if len == 0 {
        return None;
    }
    let mut over = false;
    let mut value: u64 = 0;
    let mut i: usize = 0;
    assert(s@.take(0) =~= seq![]);
    while i < len
        invariant
            i <= len,
            len == s@.len(),
            radix == 10 || radix == 16,
            forall|j: int| 0 <= j < i ==> 0 <= digit_value(#[trigger] s@[j]) < radix,
            !over ==> value == positional(s@.take(i as int), radix as int),
            !over ==> value <= max,
            over ==> positional(s@.take(i as int), radix as int) > max,
        decreases len - i,
    {
        let d: u64 = match read_digit(s[i]) {
            Some(d) if d < radix => d,
            _ => {
                assert(!(0 <= digit_value(s@[i as int]) < radix));
                return None;
            },
        };
        proof {
            let t = s@.take(i + 1);
            assert(t.drop_last() =~= s@.take(i as int));
            assert(t.last() == s@[i as int]);
            assert forall|j: int| 0 <= j < t.len() implies 0 <= digit_value(#[trigger] t[j]) by {
                assert(t[j] == s@[j]);
            }
            lemma_positional_grows(t, radix as int, i as int);
            assert(t.take(i as int) =~= s@.take(i as int));
        }
        if !over {
            let next: u64 = if radix == 10 { value * 10 + d } else { value * 16 + d };
            if next > max as u64 {
                over = true;
            } else {
                value = next;
            }
        }
        i += 1;
    }
    assert(s@.take(len as int) =~= s@);
    if over {
        None
    } else {
        Some(value as u32)
    }
}

/// The digits are `0` to `9` and, in either case, `a` to `f`, each with its
/// place in that order as its value. No other character is a digit.
pub proof fn the_digits_are_these(c: char, v: int)
    ensures
        0 <= v < 16 ==> digit_value("0123456789abcdef"@[v]) == v && digit_value(
            "0123456789ABCDEF"@[v],
        ) == v,
        0 <= digit_value(c) <==> "0123456789abcdefABCDEF"@.contains(c),
        0 <= digit_value(c) < 10 <==> "0123456789"@.contains(c),
        digit_value(c) < 16,
{
    lemma_digit_tables();
    let lower = "0123456789abcdef"@;
    let upper = "0123456789ABCDEF"@;
    if 0 <= v < 16 {
        lemma_table_value(v);
    }
    let all = "0123456789abcdefABCDEF"@;
    let decimal = "0123456789"@;
    let d = digit_value(c);
    if 0 <= d < 10 {
        lemma_table_value(d);
        assert(decimal[d] == c);
        assert(all[d] == c);
    } else if 'a' <= c && c <= 'f' {
        lemma_table_value(d);
        assert(all[d] == c);
    } else if 'A' <= c && c <= 'F' {
        lemma_table_value(d);
        assert(all[d + 6] == c);
    }
    if decimal.contains(c) {
        let i = choose|i: int| 0 <= i < decimal.len() && decimal[i] == c;
        lemma_table_value(i);
    }
    if all.contains(c) {
        let i = choose|i: int| 0 <= i < all.len() && all[i] == c;
        if i < 16 {
            lemma_table_value(i);
        } else {
            lemma_table_value(i - 6);
        }
    }
}

proof fn lemma_digit_tables()
    ensures
        "0123456789"@.len() == 10,
        "0123456789abcdef"@.len() == 16,
        "0123456789ABCDEF"@.len() == 16,
        "0123456789abcdefABCDEF"@.len() == 22,
        forall|i: int| 0 <= i < 10 ==> "0123456789"@[i] == #[trigger] "0123456789abcdef"@[i],
        forall|i: int|
            0 <= i < 16 ==> "0123456789abcdefABCDEF"@[i] == #[trigger] "0123456789abcdef"@[i],
        forall|i: int|
            10 <= i < 16 ==> "0123456789abcdefABCDEF"@[i + 6]
                == #[trigger] "0123456789ABCDEF"@[i],
{
    reveal_strlit("0123456789");
    reveal_strlit("0123456789abcdef");
    reveal_strlit("0123456789ABCDEF");
    reveal_strlit("0123456789abcdefABCDEF");
}

proof fn lemma_table_value(v: int)
    requires
        0 <= v < 16,
    ensures
        "0123456789abcdef"@[v] as int == if v < 10 {
            '0' as int + v
        } else {
            'a' as int + v - 10
        },
        "0123456789ABCDEF"@[v] as int == if v < 10 {
            '0' as int + v
        } else {
            'A' as int + v - 10
        },
{
    reveal_strlit("0123456789abcdef");
    reveal_strlit("0123456789ABCDEF");
}

/// A decimal number is a run of decimal digits whose value is within bounds,
/// and a hexadecimal one a run of hexadecimal digits. Nothing else is.
pub proof fn numbers_are_runs_of_digits(s: Seq<char>, max: int, v: int)
    ensures
        number(s, 10, max) == Some(v) <==> {
            &&& s.len() > 0
            &&& forall|i: int| 0 <= i < s.len() ==> "0123456789"@.contains(#[trigger] s[i])
            &&& v == positional(s, 10) <= max
        },
        number(s, 16, max) == Some(v) <==> {
            &&& s.len() > 0
            &&& forall|i: int|
                0 <= i < s.len() ==> "0123456789abcdefABCDEF"@.contains(#[trigger] s[i])
            &&& v == positional(s, 16) <= max
        },
{
    assert forall|i: int| 0 <= i < s.len() implies ("0123456789"@.contains(#[trigger] s[i]) <==> 0
        <= digit_value(s[i]) < 10) && ("0123456789abcdefABCDEF"@.contains(s[i]) <==> 0
        <= digit_value(s[i]) < 16) by {
        the_digits_are_these(s[i], 0);
    }
}

/// The first of several digits weighs as much as the radix to the power of how
/// many follow it.
pub proof fn the_first_digit_weighs_most(c: char, s: Seq<char>, radix: int)
    ensures
        positional(seq![], radix) == 0,
        positional(seq![c] + s, radix) == digit_value(c) * pow(radix, s.len()) + positional(
            s,
            radix,
        ),
    decreases s.len(),
{
    reveal(pow);
    let all = seq![c] + s;
    if s.len() == 0 {
        assert(all.drop_last() =~= seq![]);
        assert(all.last() == c);
        assert(positional(seq![], radix) == 0);
        assert(0 * radix == 0);
        assert(digit_value(c) * pow(radix, 0) == digit_value(c)) by (nonlinear_arith)
            requires
                pow(radix, 0) == 1,
        ;
    } else {
        let t = s.drop_last();
        the_first_digit_weighs_most(c, t, radix);
        assert(all.drop_last() =~= seq![c] + t);
        assert(all.last() == s.last());
        let d = digit_value(c);
        let w = pow(radix, t.len());
        let p = positional(t, radix);
        assert(pow(radix, s.len()) == radix * w);
        assert((d * w + p) * radix == d * (radix * w) + p * radix) by (nonlinear_arith);
    }
}

/// Zeros before a number change nothing.
pub proof fn leading_zeros_change_nothing(s: Seq<char>, max: int)
    requires
        s.len() > 0,
    ensures
        number(seq!['0'] + s, 10, max) == number(s, 10, max),
        number(seq!['0'] + s, 16, max) == number(s, 16, max),
{
    let t = seq!['0'] + s;
    the_first_digit_weighs_most('0', s, 10);
    the_first_digit_weighs_most('0', s, 16);
    assert(digit_value('0') == 0);
    assert(0 * pow(10, s.len()) == 0 && 0 * pow(16, s.len()) == 0);
    assert forall|i: int| 0 <= i < s.len() implies #[trigger] s[i] == t[i + 1] by {}
    assert forall|i: int| 1 <= i < t.len() implies #[trigger] t[i] == s[i - 1] by {}
    assert(is_digits(t, 10) == is_digits(s, 10));
    assert(is_digits(t, 16) == is_digits(s, 16));
}

/// The text of a number below the radix is its digit, and one more digit
/// behind the text of a number gives the text of the radix times that number
/// and the digit.
pub proof fn numbers_are_written_digit_by_digit(n: nat, d: nat, radix: nat)
    requires
        radix == 10 || radix == 16,
        d < radix,
    ensures
        digits(d, radix) == seq!["0123456789abcdef"@[d as int]],
        n > 0 ==> digits(n * radix + d, radix) == digits(n, radix).push(
            "0123456789abcdef"@[d as int],
        ),
        digits(n, radix).len() > 0,
{
    lemma_table_value(d as int);
    assert(digit(d as int) == "0123456789abcdef"@[d as int]);
    if n > 0 {
        let m = n * radix + d;
        assert(m >= radix && m / radix == n && m % radix == d) by (nonlinear_arith)
            requires
                n > 0,
                d < radix,
                radix == 10 || radix == 16,
                m == n * radix + d,
        ;
    }
}

/// A number's decimal text is the one run of decimal digits with its value
/// that has no zero before another digit.
pub proof fn the_shortest_text_is_unique(s: Seq<char>, n: nat)
    ensures
        s == digits(n, 10) <==> {
            &&& s.len() > 0
            &&& forall|i: int| 0 <= i < s.len() ==> "0123456789"@.contains(#[trigger] s[i])
            &&& s.len() > 1 ==> s[0] != '0'
            &&& positional(s, 10) == n
        },
{
    lemma_digits_read_back(n, 10);
    lemma_shortest_length(n);
    numbers_are_runs_of_digits(digits(n, 10), n as int, n as int);
    assert(digits(n, 10).len() > 1 ==> digits(n, 10)[0] != '0');
    numbers_are_runs_of_digits(s, n as int, n as int);
    if number(s, 10, n as int) == Some(n as int) && (s.len() > 1 ==> s[0] != '0') {
        lemma_shortest_text(s);
    }
}

proof fn lemma_shortest_length(n: nat)
    ensures
        n < 10 <==> digits(n, 10).len() == 1,
{
    lemma_digits_read_back(n, 10);
    if n >= 10 {
        lemma_digits_read_back(n / 10, 10);
    }
}

/// Digits without a zero before another digit are the shortest text of their
/// value.
pub proof fn lemma_shortest_text(s: Seq<char>)
    requires
        is_digits(s, 10),
        s.len() > 1 ==> s[0] != '0',
    ensures
        positional(s, 10) >= 0,
        s == digits(positional(s, 10) as nat, 10),
    decreases s.len(),
{
    let t = s.drop_last();
    let d = digit_value(s.last());
    assert(0 <= digit_value(s[s.len() - 1]) < 10);
    assert(s.last() == digit(d));
    if s.len() == 1 {
        assert(t =~= seq![]);
        assert(positional(t, 10) == 0);
        assert(s =~= seq![digit(d)]);
    } else {
        assert forall|i: int| 0 <= i < t.len() implies 0 <= digit_value(#[trigger] t[i]) < 10 by {
            assert(t[i] == s[i]);
        }
        assert(t[0] == s[0]);
        lemma_shortest_text(t);
        let n = positional(t, 10) as nat;
        lemma_digits_read_back(n, 10);
        assert(n > 0);
        assert((n * 10 + d) / 10 == n && (n * 10 + d) % 10 == d);
        assert(s =~= t.push(s.last()));
    }
}

/// A negative integer is written as its opposite with a minus sign before it,
/// any other as its digits.
pub proof fn negative_numbers_have_a_minus_sign(n: int)
    ensures
        n >= 0 ==> signed_decimal(n) == digits(n as nat, 10),
        n > 0 ==> signed_decimal(-n) == seq!['-'] + signed_decimal(n),
{
}

} // verus!
