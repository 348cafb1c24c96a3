//! Numbers as text.

use vstd::prelude::*;
use vstd::string::{StrSliceExecFns, StringExecFns};

verus! {

/// The digit for `d < 16`, letters in lower case.
pub open spec fn digit_char(d: nat) -> char {
    if d == 0 {
        '0'
    } else if d == 1 {
        '1'
    } else if d == 2 {
        '2'
    } else if d == 3 {
        '3'
    } else if d == 4 {
        '4'
    } else if d == 5 {
        '5'
    } else if d == 6 {
        '6'
    } else if d == 7 {
        '7'
    } else if d == 8 {
        '8'
    } else if d == 9 {
        '9'
    } else if d == 10 {
        'a'
    } else if d == 11 {
        'b'
    } else if d == 12 {
        'c'
    } else if d == 13 {
        'd'
    } else if d == 14 {
        'e'
    } else {
        'f'
    }
}

/// What a character counts as a digit, letters in either case.
pub open spec fn digit_value(c: char) -> Option<nat> {
    if '0' as u32 <= c as u32 <= '9' as u32 {
        Some((c as u32 - '0' as u32) as nat)
    } else if 'a' as u32 <= c as u32 <= 'f' as u32 {
        Some((c as u32 - 'a' as u32 + 10) as nat)
    } else if 'A' as u32 <= c as u32 <= 'F' as u32 {
        Some((c as u32 - 'A' as u32 + 10) as nat)
    } else {
        None
    }
}

/// The number in decimal, without leading zeros.
pub open spec fn decimal(n: nat) -> Seq<char>
    decreases n,
{
    if n < 10 {
        seq![digit_char(n)]
    } else {
        decimal(n / 10).push(digit_char(n % 10))
    }
}

/// The number in decimal, with a minus sign where it is negative.
pub open spec fn signed_decimal(i: int) -> Seq<char> {
    if i < 0 {
        seq!['-'] + decimal((-i) as nat)
    } else {
        decimal(i as nat)
    }
}

/// The last `k` digits of the number in base 16.
pub open spec fn hex_digits(n: nat, k: nat) -> Seq<char>
    decreases k,
{
    if k == 0 {
        Seq::empty()
    } else {
        hex_digits(n / 16, (k - 1) as nat).push(digit_char(n % 16))
    }
}

/// The number that the digits stand for, if they are digits of that base.
pub open spec fn digits_value(s: Seq<char>, radix: nat) -> Option<nat>
    decreases s.len(),
{
    if s.len() == 0 {
        Some(0)
    } else {
        match (digits_value(s.drop_last(), radix), digit_value(s.last())) {
            (Some(v), Some(d)) => if d < radix {
                Some(v * radix + d)
            } else {
                None
            },
            _ => None,
        }
    }
}

/// What is left of the text without a leading plus sign.
pub open spec fn without_plus(s: Seq<char>) -> Seq<char> {
    if s.len() > 0 && s[0] == '+' {
        s.skip(1)
    } else {
        s
    }
}

/// The number up to `max` that the text holds: an optional plus sign and at least one
/// digit.
pub open spec fn parsed_unsigned(s: Seq<char>, radix: nat, max: nat) -> Option<nat> {
    let body = without_plus(s);
    match digits_value(body, radix) {
        Some(v) => if body.len() > 0 && v <= max {
            Some(v)
        } else {
            None
        },
        None => None,
    }
}

/// The signed 64-bit number that the text holds: an optional sign and at least one digit.
pub open spec fn parsed_signed(s: Seq<char>) -> Option<int> {
    if s.len() > 0 && s[0] == '-' {
        let body = s.skip(1);
        match digits_value(body, 10) {
            Some(v) => if body.len() > 0 && v <= 0x8000_0000_0000_0000 {
                Some(-(v as int))
            } else {
                None
            },
            None => None,
        }
    } else {
        match parsed_unsigned(s, 10, 0x7fff_ffff_ffff_ffff) {
            Some(v) => Some(v as int),
            None => None,
        }
    }
}

proof fn lemma_digit(d: nat)
    requires
        d < 16,
    ensures
        digit_value(digit_char(d)) == Some(d),
        digit_char(d) != '+',
        digit_char(d) != '-',
        digit_char(d) != ':',
{
}

pub proof fn lemma_decimal(n: nat)
    ensures
        digits_value(decimal(n), 10) == Some(n),
        decimal(n).len() > 0,
        forall|k: int| 0 <= k < decimal(n).len() ==> {
            &&& #[trigger] decimal(n)[k] != '+'
            &&& decimal(n)[k] != '-'
            &&& decimal(n)[k] != ':'
        },
    decreases n,
{
    lemma_digit(n % 10);
    reveal_with_fuel(digits_value, 2);
    if n < 10 {
        let s = decimal(n);
        assert(s.drop_last() =~= Seq::empty());
        assert(s.last() == digit_char(n));
    } else {
        lemma_decimal(n / 10);
        let s = decimal(n);
        assert(s.drop_last() =~= decimal(n / 10));
        assert(s.last() == digit_char(n % 10));
        assert((n / 10) * 10 + n % 10 == n);
    }
}

pub proof fn lemma_hex_digits(n: nat, k: nat)
    ensures
        digits_value(hex_digits(n, k), 16) == Some(n % vstd::arithmetic::power::pow(16, k) as nat),
        hex_digits(n, k).len() == k,
        forall|j: int| 0 <= j < k ==> #[trigger] hex_digits(n, k)[j] != '+',
    decreases k,
{
    use_pow(k);
    if k > 0 {
        lemma_digit(n % 16);
        lemma_hex_digits(n / 16, (k - 1) as nat);
        let s = hex_digits(n, k);
        assert(s.drop_last() =~= hex_digits(n / 16, (k - 1) as nat));
        assert(s.last() == digit_char(n % 16));
        let p = vstd::arithmetic::power::pow(16, (k - 1) as nat);
        assert(((n / 16) % p as nat) * 16 + n % 16 == n % (16 * p) as nat) by {
            vstd::arithmetic::div_mod::lemma_breakdown(n as int, 16, p);
        }
    } else {
        assert(n % 1 == 0);
    }
}

proof fn use_pow(k: nat)
    ensures
        vstd::arithmetic::power::pow(16, 0) == 1,
        k > 0 ==> vstd::arithmetic::power::pow(16, k) == 16 * vstd::arithmetic::power::pow(16, (k - 1) as nat),
        vstd::arithmetic::power::pow(16, k) > 0,
{
    vstd::arithmetic::power::lemma_pow0(16);
    vstd::arithmetic::power::lemma_pow_positive(16, k);
    if k > 0 {
        reveal(vstd::arithmetic::power::pow);
    }
}

/// Sixteen hexadecimal digits hold every 64-bit number.
pub proof fn lemma_hex16(n: u64)
    ensures
        parsed_unsigned(hex_digits(n as nat, 16), 16, u64::MAX as nat) == Some(n as nat),
{
    lemma_hex_digits(n as nat, 16);
    lemma_pow16_16();
    let s = hex_digits(n as nat, 16);
    assert(s[0] != '+');
    assert(without_plus(s) == s);
    vstd::arithmetic::div_mod::lemma_small_mod(n as nat, 0x1_0000_0000_0000_0000);
}

proof fn lemma_pow16_16()
    ensures
        vstd::arithmetic::power::pow(16, 16) == 0x1_0000_0000_0000_0000,
{
    use_pow(16);
    use_pow(15);
    use_pow(14);
    use_pow(13);
    use_pow(12);
    use_pow(11);
    use_pow(10);
    use_pow(9);
    use_pow(8);
    use_pow(7);
    use_pow(6);
    use_pow(5);
    use_pow(4);
    use_pow(3);
    use_pow(2);
    use_pow(1);
}

/// What was written in decimal is read back.
pub proof fn law_signed_decimal_reads_back(i: i64)
    ensures
        parsed_signed(signed_decimal(i as int)) == Some(i as int),
{
    let s = signed_decimal(i as int);
    if i < 0 {
        lemma_decimal((-i) as nat);
        assert(s.skip(1) =~= decimal((-i) as nat));
        assert(s[0] == '-');
    } else {
        lemma_decimal(i as nat);
        assert(decimal(i as nat)[0] != '-');
        assert(without_plus(s) == s);
    }
}

/// Different numbers have different decimals.
pub proof fn law_decimal_is_injective(a: nat, b: nat)
    requires
        decimal(a) == decimal(b),
    ensures
        a == b,
{
    lemma_decimal(a);
    lemma_decimal(b);
}

fn digit_text(d: u64) -> (s: &'static str)
    requires
        d < 16,
    ensures
        s@ == seq![digit_char(d as nat)],
{
    proof {
        reveal_strlit("0");
        reveal_strlit("1");
        reveal_strlit("2");
        reveal_strlit("3");
        reveal_strlit("4");
        reveal_strlit("5");
        reveal_strlit("6");
        reveal_strlit("7");
        reveal_strlit("8");
        reveal_strlit("9");
        reveal_strlit("a");
        reveal_strlit("b");
        reveal_strlit("c");
        reveal_strlit("d");
        reveal_strlit("e");
        reveal_strlit("f");
    }
    let s = if d == 0 {
        "0"
    } else if d == 1 {
        "1"
    } else if d == 2 {
        "2"
    } else if d == 3 {
        "3"
    } else if d == 4 {
        "4"
    } else if d == 5 {
        "5"
    } else if d == 6 {
        "6"
    } else if d == 7 {
        "7"
    } else if d == 8 {
        "8"
    } else if d == 9 {
        "9"
    } else if d == 10 {
        "a"
    } else if d == 11 {
        "b"
    } else if d == 12 {
        "c"
    } else if d == 13 {
        "d"
    } else if d == 14 {
        "e"
    } else {
        "f"
    };
    assert(s@ =~= seq![digit_char(d as nat)]);
    s
}

/// The number in decimal.
pub fn decimal_text(n: u64) -> (s: String)
    ensures
        s@ == decimal(n as nat),
    decreases n,
{
    if n < 10 {
        digit_text(n).to_owned()
    } else {
        let mut s = decimal_text(n / 10);
        s.append(digit_text(n % 10));
        assert(s@ =~= decimal((n / 10) as nat).push(digit_char((n % 10) as nat)));
        s
    }
}

/// The signed number in decimal.
pub fn signed_text(i: i64) -> (s: String)
    ensures
        s@ == signed_decimal(i as int),
{
    if i < 0 {
        let magnitude: u64 = (-(i + 1)) as u64 + 1;
        let mut s = "-".to_owned();
        s.append(decimal_text(magnitude).as_str());
        proof {
            reveal_strlit("-");
            assert(s@ =~= seq!['-'] + decimal((-i) as nat));
        }
        s
    } else {
        decimal_text(i as u64)
    }
}

fn hex_text_from(n: u64, k: usize) -> (s: String)
    ensures
        s@ == hex_digits(n as nat, k as nat),
    decreases k,
{
    if k == 0 {
        String::new()
    } else {
        let mut s = hex_text_from(n / 16, k - 1);
        s.append(digit_text(n % 16));
        assert(s@ =~= hex_digits((n / 16) as nat, (k - 1) as nat).push(digit_char((n % 16) as nat)));
        s
    }
}

/// The number in sixteen hexadecimal digits.
pub fn hex_text(n: u64) -> (s: String)
    ensures
        s@ == hex_digits(n as nat, 16),
{
    hex_text_from(n, 16)
}

fn value_of(c: char) -> (r: Option<u64>)
    ensures
        r is Some == digit_value(c) is Some,
        r is Some ==> r->Some_0 as nat == digit_value(c)->Some_0,
{
    let x: u32 = c as u32;
    if 48 <= x && x <= 57 {
        Some((x - 48) as u64)
    } else if 97 <= x && x <= 102 {
        Some((x - 97 + 10) as u64)
    } else if 65 <= x && x <= 70 {
        Some((x - 65 + 10) as u64)
    } else {
        None
    }
}

/// The value of the digits from position `from` on, if there are any, they are digits,
/// and the value is at most `max`.
fn parse_digits(s: &str, from: usize, radix: u64, max: u64) -> (r: Option<u64>)
    requires
        from <= s@.len(),
        2 <= radix <= 16,
    ensures
        ({
            let body = s@.skip(from as int);
            let v = digits_value(body, radix as nat);
            if body.len() > 0 && v is Some && v->Some_0 <= max {
                r is Some && r->Some_0 as nat == v->Some_0
            } else {
                r is None
            }
        }),
{
    let n: usize = s.unicode_len();
    let ghost body = s@.skip(from as int);
    if from == n {
        return None;
    }
    let mut acc: u128 = 0;
    let mut over = false;
    let mut i: usize = from;
    assert(body.take(0) =~= Seq::empty());
    while i < n
        invariant
            from <= i <= n,
            n == s@.len(),
            body == s@.skip(from as int),
            2 <= radix <= 16,
            digits_value(body.take(i - from), radix as nat) is Some,
            if over {
                digits_value(body.take(i - from), radix as nat)->Some_0 > max
            } else {
                acc <= max && digits_value(body.take(i - from), radix as nat)->Some_0 == acc
            },
        decreases n - i,
    {
        let c = s.get_char(i);
        let ghost head = body.take(i - from);
        let ghost next = body.take(i + 1 - from);
        proof {
            assert(next.drop_last() =~= head);
            assert(next.last() == c);
        }
        let bad = match value_of(c) {
            None => true,
            Some(d) => d >= radix,
        };
        if bad {
            assert(digits_value(next, radix as nat) is None);
            proof {
                lemma_bad_prefix(body, i + 1 - from, radix as nat);
            }
            return None;
        }
        match value_of(c) {
            None => {}
            Some(d) => {
                proof {
                    let v = digits_value(head, radix as nat)->Some_0;
                    assert(digits_value(next, radix as nat) == Some((v * radix + d) as nat));
                    assert(v * radix + d >= v) by (nonlinear_arith)
                        requires radix >= 2, v >= 0, d >= 0;
                    assert(!over ==> acc * radix + d <= 0xffff_ffff_ffff_ffff * 16 + 16) by (nonlinear_arith)
                        requires !over ==> acc <= max, max <= 0xffff_ffff_ffff_ffff, radix <= 16, d <= 16, acc >= 0;
                }
                if !over {
                    assert(acc * radix <= 0xffff_ffff_ffff_ffff * 16) by (nonlinear_arith)
                        requires acc <= max, max <= 0xffff_ffff_ffff_ffff, radix <= 16, acc >= 0;
                    acc = acc * (radix as u128) + (d as u128);
                    if acc > max as u128 {
                        over = true;
                    }
                }
            }
        }
        i = i + 1;
    }
    assert(body.take(n - from) =~= body);
    if over {
        None
    } else {
        Some(acc as u64)
    }
}

proof fn lemma_bad_prefix(s: Seq<char>, k: int, radix: nat)
    requires
        0 <= k <= s.len(),
        digits_value(s.take(k), radix) is None,
    ensures
        digits_value(s, radix) is None,
    decreases s.len() - k,
{
    if k == s.len() {
        assert(s.take(k) =~= s);
    } else {
        assert(s.take(k + 1).drop_last() =~= s.take(k));
        lemma_bad_prefix(s, k + 1, radix);
    }
}

/// Reads an unsigned 64-bit number in base `radix`.
pub fn parse_u64(s: &str, radix: u64) -> (r: Option<u64>)
    requires
        2 <= radix <= 16,
    ensures
        r is Some == parsed_unsigned(s@, radix as nat, u64::MAX as nat) is Some,
        r is Some ==> r->Some_0 as nat == parsed_unsigned(s@, radix as nat, u64::MAX as nat)->Some_0,
{
    assert(s@.skip(0) =~= s@);
    if s.unicode_len() > 0 && s.get_char(0) == '+' {
        parse_digits(s, 1, radix, u64::MAX)
    } else {
        parse_digits(s, 0, radix, u64::MAX)
    }
}

/// Reads an unsigned 32-bit number in decimal.
pub fn parse_u32(s: &str) -> (r: Option<u32>)
    ensures
        r is Some == parsed_unsigned(s@, 10, u32::MAX as nat) is Some,
        r is Some ==> r->Some_0 as nat == parsed_unsigned(s@, 10, u32::MAX as nat)->Some_0,
{
    assert(s@.skip(0) =~= s@);
    let v = if s.unicode_len() > 0 && s.get_char(0) == '+' {
        parse_digits(s, 1, 10, u32::MAX as u64)
    } else {
        parse_digits(s, 0, 10, u32::MAX as u64)
    };
    match v {
        None => None,
        Some(v) => Some(v as u32),
    }
}

/// Reads a signed 64-bit number in decimal.
pub fn parse_i64(s: &str) -> (r: Option<i64>)
    ensures
        r is Some == parsed_signed(s@) is Some,
        r is Some ==> r->Some_0 as int == parsed_signed(s@)->Some_0,
{
    assert(s@.skip(0) =~= s@);
    if s.unicode_len() > 0 && s.get_char(0) == '-' {
        match parse_digits(s, 1, 10, 0x8000_0000_0000_0000) {
            None => None,
            Some(v) => if v == 0x8000_0000_0000_0000 {
                Some(i64::MIN)
            } else {
                Some(-(v as i64))
            },
        }
    } else {
        let v = if s.unicode_len() > 0 && s.get_char(0) == '+' {
            parse_digits(s, 1, 10, 0x7fff_ffff_ffff_ffff)
        } else {
            parse_digits(s, 0, 10, 0x7fff_ffff_ffff_ffff)
        };
        match v {
            None => None,
            Some(v) => Some(v as i64),
        }
    }
}

/// The text as the numbers of its characters.
pub open spec fn codes_of(s: Seq<char>) -> Seq<int> {
    Seq::new(s.len(), |i: int| s[i] as int)
}

/// Different texts have different codes.
pub proof fn lemma_codes_differ(a: Seq<char>, b: Seq<char>)
    requires
        codes_of(a) == codes_of(b),
    ensures
        a == b,
{
    assert(codes_of(a).len() == a.len() && codes_of(b).len() == b.len());
    assert forall|i: int| 0 <= i < a.len() implies a[i] == b[i] by {
        assert(codes_of(a)[i] == a[i] as int);
        assert(codes_of(b)[i] == b[i] as int);
    }
    assert(a =~= b);
}

/// The numbers of the text's characters.
pub fn char_codes(s: &str) -> (r: Vec<i64>)
    ensures
        r@.map_values(|x: i64| x as int) == codes_of(s@),
{
    let n: usize = s.unicode_len();
    let mut r: Vec<i64> = Vec::new();
    let mut i: usize = 0;
    while i < n
        invariant
            i <= n,
            n == s@.len(),
            r@.len() == i,
            forall|k: int| 0 <= k < i ==> #[trigger] r@[k] == s@[k] as int,
        decreases n - i,
    {
        r.push(s.get_char(i) as u32 as i64);
        i = i + 1;
    }
    assert(r@.map_values(|x: i64| x as int) =~= codes_of(s@));
    r
}

/// Whether the text begins with the prefix.
pub fn has_prefix(s: &str, prefix: &str) -> (r: bool)
    ensures
        r == (prefix@.len() <= s@.len() && s@.take(prefix@.len() as int) == prefix@),
{
    let n: usize = prefix.unicode_len();
    if n > s.unicode_len() {
        return false;
    }
    let mut i: usize = 0;
    while i < n
        invariant
            i <= n,
            n == prefix@.len(),
            n <= s@.len(),
            forall|k: int| 0 <= k < i ==> s@[k] == #[trigger] prefix@[k],
        decreases n - i,
    {
        if s.get_char(i) != prefix.get_char(i) {
            assert(s@.take(n as int)[i as int] != prefix@[i as int]);
            return false;
        }
        i = i + 1;
    }
    assert(s@.take(n as int) =~= prefix@);
    true
}

/// The text behind its first `n` characters.
pub fn text_from(s: &str, n: usize) -> (r: String)
    requires
        n <= s@.len(),
    ensures
        r@ == s@.skip(n as int),
{
    let len: usize = s.unicode_len();
    let r = s.substring_char(n, len).to_owned();
    assert(r@ =~= s@.skip(n as int));
    r
}

pub fn texts_equal(a: &str, b: &str) -> (r: bool)
    ensures
        r == (a@ == b@),
{
    a.to_owned() == b.to_owned()
}

/// Two texts, one after the other.
pub fn joined(a: &str, b: &str) -> (r: String)
    ensures
        r@ == a@ + b@,
{
    let mut r = a.to_owned();
    r.append(b);
    r
}

/// Digits up to nine are the characters from `0` on, those above are the small letters from `a`
/// on. Capital letters count as the small ones, and no other character is a digit.
pub proof fn law_digits_go_in_order(d: nat, c: char)
    requires
        d < 16,
    ensures
        d < 10 ==> digit_char(d) as u32 == '0' as u32 + d,
        d >= 10 ==> digit_char(d) as u32 == 'a' as u32 + (d - 10),
        digit_value(c) == Some(d) <==> (d < 10 && c as u32 == '0' as u32 + d) || (d >= 10 && (c as u32 == 'a' as u32 + (d - 10) || c as u32 == 'A' as u32
            + (d - 10))),
{
}

/// A decimal text is made of the digits `0` to `9`, stands for its number, and starts with `0`
/// only where the number is 0.
pub proof fn law_decimal_has_no_leading_zero(n: nat, k: int)
    requires
        0 <= k < decimal(n).len(),
    ensures
        digits_value(decimal(n), 10) == Some(n),
        '0' as u32 <= decimal(n)[k] as u32 <= '9' as u32,
        n > 0 ==> decimal(n)[0] != '0',
        n == 0 ==> decimal(n) == seq!['0'],
    decreases n,
{
    lemma_decimal(n);
    if n >= 10 {
        lemma_decimal(n / 10);
        law_decimal_has_no_leading_zero(n / 10, 0);
        if k < decimal(n / 10).len() {
            law_decimal_has_no_leading_zero(n / 10, k);
        }
    }
}

/// A hexadecimal text has as many digits as asked for and stands for the low part of its number.
pub proof fn law_hexadecimal_stands_for_its_number(n: nat, k: nat)
    ensures
        hex_digits(n, k).len() == k,
        digits_value(hex_digits(n, k), 16) == Some(n % vstd::arithmetic::power::pow(16, k) as nat),
{
    lemma_hex_digits(n, k);
}

/// Further digits behind a text multiply what it stands for.
pub proof fn law_digits_count_by_place(a: Seq<char>, b: Seq<char>, radix: nat)
    requires
        digits_value(a, radix) is Some,
        digits_value(b, radix) is Some,
    ensures
        digits_value(a + b, radix) == Some(
            (digits_value(a, radix)->Some_0 * vstd::arithmetic::power::pow(radix as int, b.len()) + digits_value(b, radix)->Some_0) as nat,
        ),
        radix > 0 ==> vstd::arithmetic::power::pow(radix as int, b.len()) > 0,
    decreases b.len(),
{
    reveal(vstd::arithmetic::power::pow);
    if radix > 0 {
        vstd::arithmetic::power::lemma_pow_positive(radix as int, b.len());
    }
    let x = digits_value(a, radix)->Some_0 as int;
    if b.len() == 0 {
        assert(a + b =~= a);
        assert(x * 1 == x);
    } else {
        let c = b.drop_last();
        assert((a + b).drop_last() =~= a + c);
        assert((a + b).last() == b.last());
        law_digits_count_by_place(a, c, radix);
        let y = digits_value(c, radix)->Some_0 as int;
        let d = digit_value(b.last())->Some_0 as int;
        let r = radix as int;
        let p = vstd::arithmetic::power::pow(r, c.len());
        assert(radix > 0);
        assert(x * p >= 0) by (nonlinear_arith)
            requires
                x >= 0,
                p > 0,
        ;
        assert((x * p + y) * r + d == x * (r * p) + (y * r + d)) by (nonlinear_arith);
    }
}

/// A plus sign changes nothing, a minus sign turns the number around, and without a digit there
/// is no number.
pub proof fn law_signs_are_read(s: Seq<char>)
    requires
        s.len() > 0 ==> s[0] != '+' && s[0] != '-',
    ensures
        parsed_signed(seq!['+'] + s) == parsed_signed(s),
        parsed_signed(s) is Some ==> parsed_signed(seq!['-'] + s) == Some(-parsed_signed(s)->Some_0),
        parsed_signed(Seq::empty()) is None,
        parsed_signed(seq!['-']) is None,
        parsed_signed(seq!['+']) is None,
        parsed_signed(s) is Some ==> i64::MIN <= parsed_signed(s)->Some_0 <= i64::MAX,
{
    assert((seq!['+'] + s).skip(1) =~= s);
    assert((seq!['-'] + s).skip(1) =~= s);
    assert((seq!['+'] + s)[0] == '+');
    assert((seq!['-'] + s)[0] == '-');
    assert(without_plus(s) == s);
    assert(without_plus(seq!['+']).len() == 0);
    assert(seq!['-'].skip(1).len() == 0);
}

/// A number that is larger than asked for is not read, and every smaller one is.
pub proof fn law_numbers_are_read_up_to_the_maximum(n: nat, max: nat)
    ensures
        parsed_unsigned(decimal(n), 10, max) == if n <= max {
            Some(n)
        } else {
            None
        },
{
    lemma_decimal(n);
    assert(decimal(n)[0] != '+');
}

} // verus!
