//! Messages: decimal and hexadecimal numerals, and string building.
use vstd::prelude::*;
use vstd::string::*;

verus! {

/// Appends one character to a string (`String::push`): the string afterwards
/// is the string before followed by that character.
pub assume_specification[ String::push ](s: &mut String, ch: char)
    ensures
        final(s)@ == old(s)@.push(ch),
;

/// A result whose error is taken as the characters of its message.
pub open spec fn shown<T>(r: Result<T, String>) -> Result<T, Seq<char>> {
    match r {
        Ok(v) => Ok(v),
        Err(e) => Err(e@),
    }
}

/// A result taken by the view of its value and the characters of its message.
pub open spec fn shown_view<T: View>(r: Result<T, String>) -> Result<T::V, Seq<char>> {
    match r {
        Ok(v) => Ok(v@),
        Err(e) => Err(e@),
    }
}

/// The numeral of a digit below sixteen, in lower case.
pub open spec fn digit(d: int) -> char {
    if d == 0 {
        '0'
    } else if d == 1 {
        '1'
    } else if d == 2 {
        '2'
    } else if d == 3 {
        '3'
    } else if d == 4 {
        '4'
    } else if d == 5 {
        '5'
    } else if d == 6 {
        '6'
    } else if d == 7 {
        '7'
    } else if d == 8 {
        '8'
    } else if d == 9 {
        '9'
    } else if d == 10 {
        'a'
    } else if d == 11 {
        'b'
    } else if d == 12 {
        'c'
    } else if d == 13 {
        'd'
    } else if d == 14 {
        'e'
    } else {
        'f'
    }
}

/// The decimal numeral of a number, without leading zeros.
pub open spec fn dec(n: nat) -> Seq<char>
    decreases n,
{
    if n < 10 {
        seq![digit(n as int)]
    } else {
        dec(n / 10).push(digit((n % 10) as int))
    }
}

/// The hexadecimal numeral of `n` with exactly `width` digits.
pub open spec fn hex(n: nat, width: nat) -> Seq<char>
    decreases width,
{
    if width == 0 {
        Seq::empty()
    } else {
        hex(n / 16, (width - 1) as nat).push(digit((n % 16) as int))
    }
}

/// The two-digit hexadecimal numerals of a byte string, one after another.
pub open spec fn hex_bytes(s: Seq<u8>) -> Seq<char>
    decreases s.len(),
{
    if s.len() == 0 {
        Seq::empty()
    } else {
        hex_bytes(s.drop_last()) + hex(s.last() as nat, 2)
    }
}

/// The character of a digit below sixteen.
pub fn digit_char(d: u64) -> (c: char)
    requires
        d < 16,
    ensures
        c == digit(d as int),
{
    if d == 0 {
        '0'
    } else if d == 1 {
        '1'
    } else if d == 2 {
        '2'
    } else if d == 3 {
        '3'
    } else if d == 4 {
        '4'
    } else if d == 5 {
        '5'
    } else if d == 6 {
        '6'
    } else if d == 7 {
        '7'
    } else if d == 8 {
        '8'
    } else if d == 9 {
        '9'
    } else if d == 10 {
        'a'
    } else if d == 11 {
        'b'
    } else if d == 12 {
        'c'
    } else if d == 13 {
        'd'
    } else if d == 14 {
        'e'
    } else {
        'f'
    }
}

/// Appends the decimal numeral of `n`.
pub fn push_dec(s: &mut String, n: u64)
    ensures
        final(s)@ == old(s)@ + dec(n as nat),
    decreases n,
{
    if n < 10 {
        s.push(digit_char(n));
        assert(s@ =~= old(s)@ + dec(n as nat));
    } else {
        push_dec(s, n / 10);
        s.push(digit_char(n % 10));
        assert(s@ =~= old(s)@ + dec(n as nat));
    }
}

/// Appends the hexadecimal numeral of `n` with exactly `width` digits.
pub fn push_hex(s: &mut String, n: u64, width: usize)
    ensures
        final(s)@ == old(s)@ + hex(n as nat, width as nat),
    decreases width,
{
    if width == 0 {
        assert(s@ =~= old(s)@ + hex(n as nat, width as nat));
    } else {
        push_hex(s, n / 16, width - 1);
        s.push(digit_char(n % 16));
        assert(s@ =~= old(s)@ + hex(n as nat, width as nat));
    }
}

/// A string with the characters of `s`.
pub fn text(s: &str) -> (r: String)
    ensures
        r@ == s@,
{
    s.to_owned()
}

/// The text `a` followed by the text `b`.
pub fn concat2(a: &str, b: &str) -> (r: String)
    ensures
        r@ == a@ + b@,
{
    let mut r: String = a.to_owned();
    r.append(b);
    r
}

/// The text `a`, `b` and `c`, one after another.
pub fn concat3(a: &str, b: &str, c: &str) -> (r: String)
    ensures
        r@ == a@ + b@ + c@,
{
    let mut r: String = a.to_owned();
    r.append(b);
    r.append(c);
    r
}

/// The text `a` followed by the decimal numeral of `n` and by `b`.
pub fn with_number(a: &str, n: u64, b: &str) -> (r: String)
    ensures
        r@ == a@ + dec(n as nat) + b@,
{
    let mut r: String = a.to_owned();
    push_dec(&mut r, n);
    r.append(b);
    r
}

/// The text `a`, a number, `b`, a number.
pub fn with_numbers(a: &str, m: u64, b: &str, n: u64) -> (r: String)
    ensures
        r@ == a@ + dec(m as nat) + b@ + dec(n as nat),
{
    let mut r: String = with_number(a, m, b);
    push_dec(&mut r, n);
    r
}

/// Whether a string is the text `t`.
pub fn text_is(s: &str, t: &str) -> (r: bool)
    ensures
        r == (s@ == t@),
{
    let a: String = s.to_owned();
    let b: String = t.to_owned();
    a == b
}

// ---------------------------------------------------------------------------
// Reading decimal numerals.
// ---------------------------------------------------------------------------

/// The value of a decimal digit, if `c` is one.
pub open spec fn digit_value(c: char) -> Option<nat> {
    let v = c as int;
    if 48 <= v <= 57 {
        Some((v - 48) as nat)
    } else {
        None
    }
}

/// The number that a nonempty string of decimal digits stands for.
pub open spec fn digits_value(s: Seq<char>) -> Option<nat>
    decreases s.len(),
{
    if s.len() == 0 {
        None
    } else {
        match digit_value(s.last()) {
            None => None,
            Some(d) => if s.len() == 1 {
                Some(d)
            } else {
                match digits_value(s.drop_last()) {
                    None => None,
                    Some(n) => Some(10 * n + d),
                }
            },
        }
    }
}

/// An unsigned decimal number no greater than `max`: digits, after at most one
/// leading plus sign.
pub open spec fn parsed_uint(s: Seq<char>, max: nat) -> Option<nat> {
    let body = if s.len() > 0 && s[0] == '+' {
        s.subrange(1, s.len() as int)
    } else {
        s
    };
    match digits_value(body) {
        Some(n) => if n <= max {
            Some(n)
        } else {
            None
        },
        None => None,
    }
}

proof fn lemma_digits_grow(s: Seq<char>, k: int)
    requires
        0 < k <= s.len(),
        digits_value(s) is Some,
    ensures
        digits_value(s.subrange(0, k)) is Some,
        digits_value(s.subrange(0, k))->Some_0 <= digits_value(s)->Some_0,
    decreases s.len(),
{
    if k < s.len() {
        lemma_digits_grow(s.drop_last(), k);
        assert(s.drop_last().subrange(0, k) =~= s.subrange(0, k));
    } else {
        assert(s.subrange(0, k) =~= s);
    }
}

/// Reads an unsigned decimal number no greater than `max`.
pub fn parse_uint(s: &str, max: u64) -> (r: Option<u64>)
    ensures
        r is Some <==> parsed_uint(s@, max as nat) is Some,
        r is Some ==> r->Some_0 == parsed_uint(s@, max as nat)->Some_0,
{
    let n: usize = s.unicode_len();
    let mut start: usize = 0;
    if n > 0 && s.get_char(0) == '+' {
        start = 1;
    }
    let ghost body = s@.subrange(start as int, s@.len() as int);
    proof {
        if start == 0 {
            assert(body =~= s@);
        }
    }
    if start == n {
        return None;
    }
    let mut value: u64 = 0;
    let mut i: usize = start;
    while i < n
        invariant
            start <= i <= n,
            n == s@.len(),
            start < n,
            body == s@.subrange(start as int, s@.len() as int),
            body == (if s@.len() > 0 && s@[0] == '+' {
                s@.subrange(1, s@.len() as int)
            } else {
                s@
            }),
            value <= max,
            i > start ==> digits_value(body.subrange(0, i - start)) == Some(value as nat),
            i == start ==> value == 0,
        decreases n - i,
    {
        let c: char = s.get_char(i);
        let ghost now = body.subrange(0, i - start + 1);
        proof {
            assert(now.drop_last() =~= body.subrange(0, i - start));
            assert(now.last() == c);
            if digits_value(body) is Some {
                lemma_digits_grow(body, i - start + 1);
            }
        }
        let v: u32 = c as u32;
        if v < 48 || v > 57 {
            return None;
        }
        let d: u64 = (v - 48) as u64;
        if value > max / 10 {
            return None;
        }
        let scaled: u64 = value * 10;
        if d > max - scaled {
            return None;
        }
        value = scaled + d;
        i = i + 1;
    }
    assert(body.subrange(0, n - start) =~= body);
    Some(value)
}

// ---------------------------------------------------------------------------
// Reading numerals with a sign and a base.
// ---------------------------------------------------------------------------

/// Why a numeral is refused.
#[derive(Clone, Copy, Debug, PartialEq, Eq, Structural)]
pub enum NumberFault {
    Empty,
    InvalidDigit,
    TooLarge,
}

/// The words on a refused numeral.
pub open spec fn fault_words(fault: NumberFault) -> Seq<char> {
    match fault {
        NumberFault::Empty => "cannot parse integer from empty string"@,
        NumberFault::InvalidDigit => "invalid digit found in string"@,
        NumberFault::TooLarge => "number too large to fit in target type"@,
    }
}

pub fn fault_text(fault: NumberFault) -> (r: &'static str)
    ensures
        r@ == fault_words(fault),
{
    match fault {
        NumberFault::Empty => "cannot parse integer from empty string",
        NumberFault::InvalidDigit => "invalid digit found in string",
        NumberFault::TooLarge => "number too large to fit in target type",
    }
}

/// The value of a digit in a base of at most sixteen.
pub open spec fn digit_in(c: char, base: nat) -> Option<nat> {
    let v = if '0' <= c && c <= '9' {
        (c as u32 - '0' as u32) as nat
    } else if 'a' <= c && c <= 'f' {
        (c as u32 - 'a' as u32 + 10) as nat
    } else if 'A' <= c && c <= 'F' {
        (c as u32 - 'A' as u32 + 10) as nat
    } else {
        16
    };
    if v < base {
        Some(v)
    } else {
        None
    }
}

/// The number that the digits from number `i` on make of `acc`. The first fault
/// decides.
pub open spec fn number_from(s: Seq<char>, base: nat, max: nat, i: int, acc: nat) -> Result<
    nat,
    NumberFault,
>
    decreases s.len() - i,
{
    if i < 0 || i >= s.len() {
        Ok(acc)
    } else {
        match digit_in(s[i], base) {
            None => Err(NumberFault::InvalidDigit),
            Some(d) => if acc * base + d > max {
                Err(NumberFault::TooLarge)
            } else {
                number_from(s, base, max, i + 1, acc * base + d)
            },
        }
    }
}

/// The number that a numeral with an optional plus sign stands for.
pub open spec fn parsed_number(s: Seq<char>, base: nat, max: nat) -> Result<nat, NumberFault> {
    if s.len() == 0 {
        Err(NumberFault::Empty)
    } else if s[0] == '+' && s.len() > 1 {
        number_from(s, base, max, 1, 0)
    } else {
        number_from(s, base, max, 0, 0)
    }
}

fn digit_of(c: char, base: u64) -> (r: Option<u64>)
    requires
        base <= 16,
    ensures
        r is Some == digit_in(c, base as nat) is Some,
        r is Some ==> r->Some_0 == digit_in(c, base as nat)->Some_0,
{
    let v: u64 = if '0' <= c && c <= '9' {
        (c as u32 - '0' as u32) as u64
    } else if 'a' <= c && c <= 'f' {
        (c as u32 - 'a' as u32 + 10) as u64
    } else if 'A' <= c && c <= 'F' {
        (c as u32 - 'A' as u32 + 10) as u64
    } else {
        16
    };
    if v < base {
        Some(v)
    } else {
        None
    }
}

/// Reads a numeral with an optional plus sign.
pub fn parse_number(s: &[char], base: u64, max: u64) -> (r: Result<u64, NumberFault>)
    requires
        0 < base <= 16,
    ensures
        match parsed_number(s@, base as nat, max as nat) {
            Ok(n) => r is Ok && r->Ok_0 == n,
            Err(f) => r == Err::<u64, NumberFault>(f),
        },
{
    if s.len() == 0 {
        return Err(NumberFault::Empty);
    }
    let mut i: usize = if s[0] == '+' && s.len() > 1 {
        1
    } else {
        0
    };
    let mut acc: u64 = 0;
    while i < s.len()
        invariant
            i <= s@.len(),
            0 < base <= 16,
            acc <= max,
            parsed_number(s@, base as nat, max as nat) == number_from(
                s@,
                base as nat,
                max as nat,
                i as int,
                acc as nat,
            ),
        decreases s@.len() - i,
    {
        match digit_of(s[i], base) {
            None => {
                return Err(NumberFault::InvalidDigit);
            },
            Some(d) => {
                proof {
                    assert(acc * base <= u64::MAX * 16) by (nonlinear_arith)
                        requires
                            0 <= acc <= u64::MAX,
                            0 <= base <= 16,
                    ;
                }
                let sum: u128 = acc as u128 * base as u128 + d as u128;
                if sum > max as u128 {
                    return Err(NumberFault::TooLarge);
                }
                acc = sum as u64;
            },
        }
        i = i + 1;
    }
    Ok(acc)
}

/// White space, as Unicode defines it.
pub open spec fn is_space(c: char) -> bool {
    let v = c as u32;
    ||| 0x9 <= v <= 0xd
    ||| v == 0x20
    ||| v == 0x85
    ||| v == 0xa0
    ||| v == 0x1680
    ||| 0x2000 <= v <= 0x200a
    ||| v == 0x2028
    ||| v == 0x2029
    ||| v == 0x202f
    ||| v == 0x205f
    ||| v == 0x3000
}

fn space(c: char) -> (r: bool)
    ensures
        r == is_space(c),
{
    let v: u32 = c as u32;
    0x9 <= v && v <= 0xd || v == 0x20 || v == 0x85 || v == 0xa0 || v == 0x1680 || 0x2000 <= v && v
        <= 0x200a || v == 0x2028 || v == 0x2029 || v == 0x202f || v == 0x205f || v == 0x3000
}

/// A text without white space at its ends.
pub open spec fn trimmed(s: Seq<char>) -> Seq<char>
    decreases s.len(),
{
    if s.len() > 0 && is_space(s[0]) {
        trimmed(s.drop_first())
    } else if s.len() > 0 && is_space(s.last()) {
        trimmed(s.drop_last())
    } else {
        s
    }
}

/// The characters of a text.
pub fn chars_of(s: &str) -> (r: Vec<char>)
    ensures
        r@ == s@,
{
    let n: usize = s.unicode_len();
    let mut out: Vec<char> = Vec::new();
    let mut i: usize = 0;
    while i < n
        invariant
            i <= n,
            n == s@.len(),
            out@ == s@.take(i as int),
        decreases n - i,
    {
        out.push(s.get_char(i));
        i = i + 1;
        assert(out@ =~= s@.take(i as int));
    }
    assert(s@.take(n as int) =~= s@);
    out
}

/// A text without white space at its ends.
pub fn trim(s: &[char]) -> (r: Vec<char>)
    ensures
        r@ == trimmed(s@),
{
    let mut start: usize = 0;
    let mut end: usize = s.len();
    assert(s@.subrange(0, s@.len() as int) =~= s@);
    while start < end && space(s[start])
        invariant
            start <= end <= s@.len(),
            trimmed(s@) == trimmed(s@.subrange(start as int, end as int)),
        decreases end - start,
    {
        assert(s@.subrange(start as int, end as int).drop_first() =~= s@.subrange(
            start + 1,
            end as int,
        ));
        start = start + 1;
    }
    while start < end && space(s[end - 1])
        invariant
            start <= end <= s@.len(),
            start < end ==> !is_space(s@[start as int]),
            trimmed(s@) == trimmed(s@.subrange(start as int, end as int)),
        decreases end - start,
    {
        assert(s@.subrange(start as int, end as int).drop_last() =~= s@.subrange(
            start as int,
            end - 1,
        ));
        end = end - 1;
    }
    let mut out: Vec<char> = Vec::new();
    let mut i: usize = start;
    while i < end
        invariant
            start <= i <= end <= s@.len(),
            out@ == s@.subrange(start as int, i as int),
        decreases end - i,
    {
        out.push(s[i]);
        i = i + 1;
        assert(out@ =~= s@.subrange(start as int, i as int));
    }
    out
}

// ---------------------------------------------------------------------------
// Laws.
// ---------------------------------------------------------------------------

proof fn lemma_digits_value(s: Seq<char>)
    requires
        s.len() > 0,
    ensures
        digits_value(s) is Some <==> forall|i: int| 0 <= i < s.len() ==> '0' <= #[trigger] s[i] <= '9',
        digits_value(s) matches Some(n) ==> n == s.fold_left(
            0int,
            |n: int, c: char| 10 * n + (c as int - '0' as int),
        ),
    decreases s.len(),
{
    let f = |n: int, c: char| 10 * n + (c as int - '0' as int);
    let rest = s.drop_last();
    reveal_with_fuel(Seq::fold_left, 2);
    assert(s.last() == s[s.len() - 1]);
    if s.len() > 1 {
        lemma_digits_value(rest);
        if digits_value(s) is Some {
            assert forall|i: int| 0 <= i < s.len() implies '0' <= #[trigger] s[i] <= '9' by {
                if i < s.len() - 1 {
                    assert(rest[i] == s[i]);
                }
            }
        }
        if forall|i: int| 0 <= i < s.len() ==> '0' <= #[trigger] s[i] <= '9' {
            assert forall|i: int| 0 <= i < rest.len() implies '0' <= #[trigger] rest[i] <= '9' by {
                assert(rest[i] == s[i]);
            }
        }
    } else {
        assert(rest.len() == 0);
        assert(rest.fold_left(0int, f) == 0);
        assert(s[0] == s.last());
    }
}

/// A number is read from a text exactly if the text is one or more decimal digits and the
/// number that they make in base ten is no larger than the largest one allowed. It is that
/// number. One plus sign before the digits makes no difference.
pub proof fn law_number_is_read_from_its_digits(s: Seq<char>, max: nat)
    ensures
        s.len() > 0 && s[0] == '+' ==> parsed_uint(s, max) == (if s.len() > 1 && s[1] == '+' {
            None
        } else {
            parsed_uint(s.skip(1), max)
        }),
        !(s.len() > 0 && s[0] == '+') ==> (parsed_uint(s, max) is Some <==> {
            &&& s.len() > 0
            &&& forall|i: int| 0 <= i < s.len() ==> '0' <= #[trigger] s[i] <= '9'
            &&& s.fold_left(0int, |n: int, c: char| 10 * n + (c as int - '0' as int)) <= max
        }),
        !(s.len() > 0 && s[0] == '+') ==> (parsed_uint(s, max) matches Some(n) ==> n == s.fold_left(
            0int,
            |n: int, c: char| 10 * n + (c as int - '0' as int),
        )),
{
    if s.len() > 0 {
        lemma_digits_value(s);
        if s[0] == '+' {
            let body = s.skip(1);
            assert(body =~= s.subrange(1, s.len() as int));
            if s.len() > 1 {
                lemma_digits_value(body);
                assert(body[0] == s[1]);
            }
        }
    }
}

/// A number that is written is read back, and only where it is no larger than the largest
/// one allowed.
pub proof fn law_written_number_is_read_back(n: nat, max: nat)
    ensures
        parsed_uint(dec(n), max) == (if n <= max {
            Some(n)
        } else {
            None::<nat>
        }),
        dec(n).len() > 0,
        n > 0 ==> dec(n)[0] != '0',
{
    lemma_dec(n);
    assert(dec(n)[0] != '+');
}

proof fn lemma_dec(n: nat)
    ensures
        dec(n).len() > 0,
        digits_value(dec(n)) == Some(n),
        '0' <= dec(n)[0] <= '9',
        n > 0 ==> dec(n)[0] != '0',
    decreases n,
{
    if n >= 10 {
        lemma_dec(n / 10);
        let front = dec(n / 10);
        assert(dec(n).drop_last() =~= front);
        assert(dec(n)[0] == front[0]);
    } else {
        assert(dec(n).last() == digit(n as int));
    }
}

/// Two numbers are written alike only if they are the same.
pub proof fn law_numerals_differ(m: nat, n: nat)
    requires
        dec(m) == dec(n),
    ensures
        m == n,
{
    lemma_dec(m);
    lemma_dec(n);
}

/// Bytes in hexadecimal: two digits for each byte, of which the first is the upper half of
/// it and the second the lower half.
pub proof fn law_hex_spells_the_bytes(s: Seq<u8>)
    ensures
        hex_bytes(s).len() == 2 * s.len(),
        forall|i: int|
            0 <= i < s.len() ==> {
                &&& digit_in(hex_bytes(s)[2 * i], 16) == Some((#[trigger] s[i]) as nat / 16)
                &&& digit_in(hex_bytes(s)[2 * i + 1], 16) == Some((s[i] as nat) % 16)
            },
    decreases s.len(),
{
    if s.len() > 0 {
        let rest = s.drop_last();
        let last = s.last() as nat;
        law_hex_spells_the_bytes(rest);
        reveal_with_fuel(hex, 3);
        assert(hex(last, 2) =~= seq![digit((last / 16 % 16) as int), digit((last % 16) as int)]);
        assert forall|i: int| 0 <= i < s.len() implies {
            &&& digit_in(hex_bytes(s)[2 * i], 16) == Some((#[trigger] s[i]) as nat / 16)
            &&& digit_in(hex_bytes(s)[2 * i + 1], 16) == Some((s[i] as nat) % 16)
        } by {
            if i < s.len() - 1 {
                assert(rest[i] == s[i]);
                assert(hex_bytes(s)[2 * i] == hex_bytes(rest)[2 * i]);
                assert(hex_bytes(s)[2 * i + 1] == hex_bytes(rest)[2 * i + 1]);
            }
        }
    }
}

proof fn lemma_number_from(s: Seq<char>, base: nat, max: nat, i: int, acc: nat)
    requires
        0 <= i <= s.len(),
        0 < base <= 16,
        acc <= max,
    ensures
        ({
            let f = |n: int, c: char| base * n + digit_in(c, base)->Some_0;
            let value = s.skip(i).fold_left(acc as int, f);
            let good = forall|k: int| i <= k < s.len() ==> digit_in(#[trigger] s[k], base) is Some;
            &&& number_from(s, base, max, i, acc) is Ok <==> good && value <= max
            &&& number_from(s, base, max, i, acc) matches Ok(n) ==> n == value
            &&& good ==> value >= acc
        }),
    decreases s.len() - i,
{
    let f = |n: int, c: char| base * n + digit_in(c, base)->Some_0;
    let t = s.skip(i);
    if i < s.len() {
        let rest = s.skip(i + 1);
        assert(t =~= seq![s[i]] + rest);
        t.lemma_fold_left_split(acc as int, f, 1);
        assert(t.subrange(0, 1) =~= seq![s[i]]);
        assert(t.subrange(1, t.len() as int) =~= rest);
        reveal_with_fuel(Seq::fold_left, 2);
        assert(seq![s[i]].drop_last().len() == 0);
        assert(seq![s[i]].fold_left(acc as int, f) == f(acc as int, s[i]));
        if let Some(d) = digit_in(s[i], base) {
            let next = acc * base + d;
            assert(f(acc as int, s[i]) == next) by (nonlinear_arith)
                requires
                    next == acc * base + d,
                    f(acc as int, s[i]) == base * acc + d,
            ;
            assert(next >= acc) by (nonlinear_arith)
                requires
                    next == acc * base + d,
                    base > 0,
            ;
            if next <= max {
                lemma_number_from(s, base, max, i + 1, next);
            } else if forall|k: int| i <= k < s.len() ==> digit_in(#[trigger] s[k], base) is Some {
                lemma_number_from(s, base, next, i + 1, next);
            }
        }
    } else {
        assert(t =~= Seq::<char>::empty());
        assert(t.fold_left(acc as int, f) == acc);
    }
}

/// A number in a base is read from a text exactly if the text is one or more digits of the
/// base and the number that they make is no larger than the largest one allowed. It is
/// that number. One plus sign before the digits makes no difference.
pub proof fn law_number_in_a_base(s: Seq<char>, base: nat, max: nat)
    requires
        0 < base <= 16,
    ensures
        s.len() > 1 && s[0] == '+' && s[1] != '+' ==> parsed_number(s, base, max) == parsed_number(
            s.skip(1),
            base,
            max,
        ),
        !(s.len() > 1 && s[0] == '+') ==> (parsed_number(s, base, max) is Ok <==> {
            &&& s.len() > 0
            &&& forall|i: int| 0 <= i < s.len() ==> digit_in(#[trigger] s[i], base) is Some
            &&& s.fold_left(0int, |n: int, c: char| base * n + digit_in(c, base)->Some_0) <= max
        }),
        !(s.len() > 1 && s[0] == '+') ==> (parsed_number(s, base, max) matches Ok(n) ==> n
            == s.fold_left(0int, |n: int, c: char| base * n + digit_in(c, base)->Some_0)),
{
    lemma_number_from(s, base, max, 0, 0);
    assert(s.skip(0) =~= s);
    if s.len() > 1 && s[0] == '+' {
        let body = s.skip(1);
        lemma_number_shifted(s, base, max, 1, 0);
        assert(body[0] == s[1]);
    }
}

proof fn lemma_number_shifted(s: Seq<char>, base: nat, max: nat, i: int, acc: nat)
    requires
        1 <= i <= s.len(),
    ensures
        number_from(s, base, max, i, acc) == number_from(s.skip(1), base, max, i - 1, acc),
    decreases s.len() - i,
{
    if i < s.len() {
        assert(s.skip(1)[i - 1] == s[i]);
        if let Some(d) = digit_in(s[i], base) {
            if acc * base + d <= max {
                lemma_number_shifted(s, base, max, i + 1, acc * base + d);
            }
        }
    }
}

/// The value of a digit: the decimal digits count from nought, and the letters from ten,
/// in either case, as far as the base goes.
pub proof fn law_digits_count_up(c: char, base: nat)
    requires
        base <= 16,
    ensures
        '0' <= c <= '9' ==> digit_in(c, base) == (if c as int - '0' as int >= base as int {
            None::<nat>
        } else {
            Some((c as int - '0' as int) as nat)
        }),
        'a' <= c <= 'f' ==> digit_in(c, base) == (if c as int - 'a' as int + 10 >= base as int {
            None::<nat>
        } else {
            Some((c as int - 'a' as int + 10) as nat)
        }),
        'A' <= c <= 'F' ==> digit_in(c, base) == (if c as int - 'A' as int + 10 >= base as int {
            None::<nat>
        } else {
            Some((c as int - 'A' as int + 10) as nat)
        }),
        !('0' <= c <= '9') && !('a' <= c <= 'f') && !('A' <= c <= 'F') ==> digit_in(c, base) is None,
{
}

/// A trimmed text is what is left when the white space at both ends is gone: it starts and
/// ends with something else, and only white space was taken away.
pub proof fn law_trimmed(s: Seq<char>) -> (ends: (int, int))
    ensures
        0 <= ends.0 <= ends.1 <= s.len(),
        trimmed(s) == s.subrange(ends.0, ends.1),
        forall|i: int| 0 <= i < ends.0 ==> is_space(#[trigger] s[i]),
        forall|i: int| ends.1 <= i < s.len() ==> is_space(#[trigger] s[i]),
        trimmed(s).len() > 0 ==> !is_space(trimmed(s)[0]) && !is_space(trimmed(s).last()),
    decreases s.len(),
{
    if s.len() > 0 && is_space(s[0]) {
        let rest = s.drop_first();
        let (a, b) = law_trimmed(rest);
        assert(s.subrange(a + 1, b + 1) =~= rest.subrange(a, b));
        assert forall|i: int| 0 <= i < a + 1 implies is_space(#[trigger] s[i]) by {
            if i > 0 {
                assert(rest[i - 1] == s[i]);
            }
        }
        assert forall|i: int| b + 1 <= i < s.len() implies is_space(#[trigger] s[i]) by {
            assert(rest[i - 1] == s[i]);
        }
        (a + 1, b + 1)
    } else if s.len() > 0 && is_space(s.last()) {
        let rest = s.drop_last();
        let (a, b) = law_trimmed(rest);
        assert(s.subrange(a, b) =~= rest.subrange(a, b));
        assert forall|i: int| 0 <= i < a implies is_space(#[trigger] s[i]) by {
            assert(rest[i] == s[i]);
        }
        assert forall|i: int| b <= i < s.len() implies is_space(#[trigger] s[i]) by {
            if i < s.len() - 1 {
                assert(rest[i] == s[i]);
            }
        }
        (a, b)
    } else {
        assert(s.subrange(0, s.len() as int) =~= s);
        (0, s.len() as int)
    }
}

} // verus!
