//! Reading numbers from text and writing them.
use vstd::prelude::*;
use vstd::string::StrSliceExecFns;
use vstd::string::StringExecFns;

verus! {

// ---- Comparing ----------------------------------------------------------------------------------
/// Whether two texts are the same.
pub fn same_text(a: &str, b: &str) -> (same: bool)
    ensures
        same == (a@ == b@),
{
    let n: usize = a.unicode_len();
    if n != b.unicode_len() {
        return false;
    }
    for i in 0..n
        invariant
            n == a@.len(),
            n == b@.len(),
            a@.take(i as int) =~= b@.take(i as int),
    {
        if a.get_char(i) != b.get_char(i) {
            assert(a@[i as int] != b@[i as int]);
            return false;
        }
    }
    assert(a@.take(n as int) =~= a@);
    assert(b@.take(n as int) =~= b@);
    true
}

/// `text` ends with `tail`.
pub open spec fn ends_with(text: Seq<char>, tail: Seq<char>) -> bool {
    tail.len() <= text.len() && text.skip(text.len() - tail.len()) == tail
}

/// Whether `text` ends with `tail`.
pub fn has_suffix(text: &str, tail: &str) -> (yes: bool)
    ensures
        yes == ends_with(text@, tail@),
{
    let n: usize = text.unicode_len();
    let m: usize = tail.unicode_len();
    if m > n {
        return false;
    }
    let end = text.substring_char(n - m, n);
    assert(end@ =~= text@.skip(n - m));
    same_text(end, tail)
}

// ---- Integers -----------------------------------------------------------------------------------
/// A decimal digit.
pub open spec fn is_digit(c: char) -> bool {
    '0' <= c && c <= '9'
}

/// The value of a decimal digit.
pub open spec fn digit_value(c: char) -> int {
    c as int - '0' as int
}

/// Every character is a decimal digit.
pub open spec fn all_digits(s: Seq<char>) -> bool {
    forall|i: int| 0 <= i < s.len() ==> is_digit(#[trigger] s[i])
}

/// The number that decimal digits spell.
pub open spec fn decimal_value(s: Seq<char>) -> int
    decreases s.len(),
{
    if s.len() == 0 {
        0
    } else {
        10 * decimal_value(s.drop_last()) + digit_value(s.last())
    }
}

/// A number in decimal digits that is at most `max`.
pub open spec fn natural(s: Seq<char>, max: int) -> Option<int> {
    if s.len() > 0 && all_digits(s) && decimal_value(s) <= max {
        Some(decimal_value(s))
    } else {
        None
    }
}

/// An unsigned number as text: a plus sign or nothing, then decimal digits.
pub open spec fn unsigned_number(s: Seq<char>, max: int) -> Option<int> {
    if s.len() > 0 && s[0] == '+' {
        natural(s.skip(1), max)
    } else {
        natural(s, max)
    }
}

/// A signed number as text: a sign or nothing, then decimal digits.
pub open spec fn signed_number(s: Seq<char>, min: int, max: int) -> Option<int> {
    if s.len() > 0 && s[0] == '-' {
        match natural(s.skip(1), -min) {
            Some(v) => Some(-v),
            None => None,
        }
    } else {
        unsigned_number(s, max)
    }
}

/// More digits never make a number smaller.
proof fn lemma_decimal_grows(s: Seq<char>, n: int)
    requires
        all_digits(s),
        0 <= n <= s.len(),
    ensures
        0 <= decimal_value(s.take(n)) <= decimal_value(s),
    decreases s.len() - n, n,
{
    if n < s.len() {
        lemma_decimal_grows(s, n + 1);
        assert(s.take(n + 1).drop_last() =~= s.take(n));
        assert(is_digit(s[n]));
        lemma_decimal_nonnegative(s.take(n));
    } else {
        assert(s.take(n) =~= s);
        lemma_decimal_nonnegative(s);
    }
}

proof fn lemma_decimal_nonnegative(s: Seq<char>)
    requires
        all_digits(s),
    ensures
        0 <= decimal_value(s),
    decreases s.len(),
{
    if s.len() > 0 {
        assert forall|i: int| 0 <= i < s.drop_last().len() implies is_digit(
            #[trigger] s.drop_last()[i],
        ) by {
            assert(is_digit(s[i]));
        }
        assert(is_digit(s[s.len() - 1]));
        lemma_decimal_nonnegative(s.drop_last());
    }
}

/// The value of a decimal digit.
fn digit_of(c: char) -> (d: u64)
    requires
        is_digit(c),
    ensures
        d == digit_value(c),
        d <= 9,
{
    match c {
        '0' => 0,
        '1' => 1,
        '2' => 2,
        '3' => 3,
        '4' => 4,
        '5' => 5,
        '6' => 6,
        '7' => 7,
        '8' => 8,
        _ => 9,
    }
}

/// Reads decimal digits from place `from` on, up to the number `max`.
fn read_natural(s: &str, from: usize, max: u64) -> (value: Option<u64>)
    requires
        from <= s@.len(),
    ensures
        match value {
            Some(v) => natural(s@.skip(from as int), max as int) == Some(v as int),
            None => natural(s@.skip(from as int), max as int) is None,
        },
{
    let n: usize = s.unicode_len();
    let ghost rest = s@.skip(from as int);
    if from == n {
        return None;
    }
    let mut v: u64 = 0;
    let mut i: usize = from;
    while i < n
        invariant
            from <= i <= n,
            n == s@.len(),
            rest == s@.skip(from as int),
            all_digits(rest.take(i - from)),
            v == decimal_value(rest.take(i - from)),
            v <= max,
        decreases n - i,
    {
        let c = s.get_char(i);
        let ghost k = i - from;
        assert(rest[k] == c);
        assert(rest.take(k + 1).drop_last() =~= rest.take(k));
        assert(rest.take(k + 1).last() == c);
        if !('0' <= c && c <= '9') {
            assert(!is_digit(rest[k]));
            return None;
        }
        let d: u64 = digit_of(c);
        if d > max || v > max / 10 || 10 * v > max - d {
            proof {
                if all_digits(rest) {
                    assert(decimal_value(rest.take(k + 1)) == 10 * v + d);
                    lemma_decimal_grows(rest, k + 1);
                    assert(10 * v + d > max);
                }
            }
            return None;
        }
        v = 10 * v + d;
        assert forall|j: int| 0 <= j < k + 1 implies is_digit(#[trigger] rest.take(k + 1)[j]) by {
            if j < k {
                assert(is_digit(rest.take(k)[j]));
            }
        }
        i = i + 1;
    }
    assert(rest.take(n - from) =~= rest);
    Some(v)
}

/// Reads an unsigned number of at most `max`.
pub fn parse_unsigned(s: &str, max: u64) -> (value: Option<u64>)
    ensures
        match value {
            Some(v) => unsigned_number(s@, max as int) == Some(v as int),
            None => unsigned_number(s@, max as int) is None,
        },
{
    assert(s@.skip(0) =~= s@);
    if s.unicode_len() > 0 && s.get_char(0) == '+' {
        read_natural(s, 1, max)
    } else {
        read_natural(s, 0, max)
    }
}

/// Reads a signed number of 32 bits.
pub fn parse_signed(s: &str) -> (value: Option<i32>)
    ensures
        match value {
            Some(v) => signed_number(s@, i32::MIN as int, i32::MAX as int) == Some(v as int),
            None => signed_number(s@, i32::MIN as int, i32::MAX as int) is None,
        },
{
    if s.unicode_len() > 0 && s.get_char(0) == '-' {
        match read_natural(s, 1, 0x8000_0000) {
            Some(v) => Some((0 - v as i64) as i32),
            None => None,
        }
    } else {
        match parse_unsigned(s, 0x7fff_ffff) {
            Some(v) => Some(v as i32),
            None => None,
        }
    }
}

// ---- Numbers with a fraction --------------------------------------------------------------------
/// The text without a sign in front.
pub open spec fn unsigned_part(s: Seq<char>) -> Seq<char> {
    if s.len() > 0 && (s[0] == '+' || s[0] == '-') {
        s.skip(1)
    } else {
        s
    }
}

/// The letter `c`, small or capital.
pub open spec fn is_letter(c: char, small: char, capital: char) -> bool {
    c == small || c == capital
}

/// The place of the first character from `i` on that is one of two, or the length of the text.
pub open spec fn place_of(s: Seq<char>, a: char, b: char, i: nat) -> int
    decreases s.len() - i,
{
    if i >= s.len() {
        s.len() as int
    } else if is_letter(s[i as int], a, b) {
        i as int
    } else {
        place_of(s, a, b, i + 1)
    }
}

/// Digits with at most one point among them, and at least one digit.
pub open spec fn is_mantissa(s: Seq<char>) -> bool {
    let point = place_of(s, '.', '.', 0);
    if point < s.len() {
        all_digits(s.take(point)) && all_digits(s.skip(point + 1)) && s.len() > 1
    } else {
        all_digits(s) && s.len() > 0
    }
}

/// A decimal number, with an exponent if an `e` says so.
pub open spec fn is_decimal(s: Seq<char>) -> bool {
    let e = place_of(s, 'e', 'E', 0);
    if e < s.len() {
        let exponent = unsigned_part(s.skip(e + 1));
        is_mantissa(s.take(e)) && all_digits(exponent) && exponent.len() > 0
    } else {
        is_mantissa(s)
    }
}

/// `inf`, in any mix of small and capital letters.
pub open spec fn is_inf(s: Seq<char>) -> bool {
    &&& s.len() >= 3
    &&& is_letter(s[0], 'i', 'I')
    &&& is_letter(s[1], 'n', 'N')
    &&& is_letter(s[2], 'f', 'F')
}

/// `inf` or `infinity`, in any mix of small and capital letters.
pub open spec fn is_infinity(s: Seq<char>) -> bool {
    &&& is_inf(s)
    &&& s.len() == 3 || {
        &&& s.len() == 8
        &&& is_letter(s[3], 'i', 'I')
        &&& is_letter(s[4], 'n', 'N')
        &&& is_letter(s[5], 'i', 'I')
        &&& is_letter(s[6], 't', 'T')
        &&& is_letter(s[7], 'y', 'Y')
    }
}

/// `nan`, in any mix of small and capital letters.
pub open spec fn is_nan(s: Seq<char>) -> bool {
    &&& s.len() == 3
    &&& is_letter(s[0], 'n', 'N')
    &&& is_letter(s[1], 'a', 'A')
    &&& is_letter(s[2], 'n', 'N')
}

/// A text that spells a floating-point number: a sign or nothing, then a decimal number, an
/// infinity or no number at all.
pub open spec fn is_real(s: Seq<char>) -> bool {
    let body = unsigned_part(s);
    is_decimal(body) || is_infinity(body) || is_nan(body)
}

/// What the place of a character is.
proof fn lemma_place_of(s: Seq<char>, a: char, b: char, i: nat)
    requires
        i <= s.len(),
    ensures
        i <= place_of(s, a, b, i) <= s.len(),
    decreases s.len() - i,
{
    if i < s.len() && !is_letter(s[i as int], a, b) {
        lemma_place_of(s, a, b, i + 1);
    }
}

/// The place of the first character that is one of two, or the length of the text.
fn find(s: &str, a: char, b: char) -> (at: usize)
    ensures
        at == place_of(s@, a, b, 0),
        at <= s@.len(),
{
    let n: usize = s.unicode_len();
    let mut i: usize = 0;
    while i < n
        invariant
            i <= n,
            n == s@.len(),
            place_of(s@, a, b, 0) == place_of(s@, a, b, i as nat),
        decreases n - i,
    {
        let c = s.get_char(i);
        if c == a || c == b {
            return i;
        }
        i = i + 1;
    }
    n
}

/// Whether every character is a decimal digit.
fn only_digits(s: &str) -> (yes: bool)
    ensures
        yes == all_digits(s@),
{
    let n: usize = s.unicode_len();
    for i in 0..n
        invariant
            n == s@.len(),
            forall|j: int| 0 <= j < i ==> is_digit(#[trigger] s@[j]),
    {
        let c = s.get_char(i);
        if !('0' <= c && c <= '9') {
            assert(!is_digit(s@[i as int]));
            return false;
        }
    }
    true
}

/// The text without a sign in front.
fn without_sign(s: &str) -> (rest: &str)
    ensures
        rest@ == unsigned_part(s@),
{
    let n: usize = s.unicode_len();
    if n > 0 && (s.get_char(0) == '+' || s.get_char(0) == '-') {
        let rest = s.substring_char(1, n);
        assert(rest@ =~= s@.skip(1));
        rest
    } else {
        s
    }
}

/// Whether the text has digits with at most one point among them.
fn mantissa(s: &str) -> (yes: bool)
    ensures
        yes == is_mantissa(s@),
{
    let n: usize = s.unicode_len();
    let point: usize = find(s, '.', '.');
    if point < n {
        let whole = s.substring_char(0, point);
        let fraction = s.substring_char(point + 1, n);
        assert(whole@ =~= s@.take(point as int));
        assert(fraction@ =~= s@.skip(point + 1));
        only_digits(whole) && only_digits(fraction) && n > 1
    } else {
        only_digits(s) && n > 0
    }
}

/// Whether the text is a decimal number.
fn decimal(s: &str) -> (yes: bool)
    ensures
        yes == is_decimal(s@),
{
    let n: usize = s.unicode_len();
    let e: usize = find(s, 'e', 'E');
    if e < n {
        let front = s.substring_char(0, e);
        let back = s.substring_char(e + 1, n);
        assert(front@ =~= s@.take(e as int));
        assert(back@ =~= s@.skip(e + 1));
        let exponent = without_sign(back);
        mantissa(front) && only_digits(exponent) && exponent.unicode_len() > 0
    } else {
        mantissa(s)
    }
}

/// Whether character `i` is a letter, small or capital.
fn letter_at(s: &str, i: usize, small: char, capital: char) -> (yes: bool)
    requires
        i < s@.len(),
    ensures
        yes == is_letter(s@[i as int], small, capital),
{
    let c = s.get_char(i);
    c == small || c == capital
}

/// Whether the text spells a floating-point number.
pub fn spells_real(s: &str) -> (yes: bool)
    ensures
        yes == is_real(s@),
{
    let body = without_sign(s);
    let n: usize = body.unicode_len();
    let inf = n >= 3 && letter_at(body, 0, 'i', 'I') && letter_at(body, 1, 'n', 'N') && letter_at(
        body,
        2,
        'f',
        'F',
    );
    let inity = n == 8 && letter_at(body, 3, 'i', 'I') && letter_at(body, 4, 'n', 'N') && letter_at(
        body,
        5,
        'i',
        'I',
    ) && letter_at(body, 6, 't', 'T') && letter_at(body, 7, 'y', 'Y');
    let nan = n == 3 && letter_at(body, 0, 'n', 'N') && letter_at(body, 1, 'a', 'A') && letter_at(
        body,
        2,
        'n',
        'N',
    );
    decimal(body) || (inf && (n == 3 || inity)) || nan
}

// ---- Writing ------------------------------------------------------------------------------------
/// The digit of a value below ten.
pub open spec fn digit_char(d: int) -> char {
    if d == 0 {
        '0'
    } else if d == 1 {
        '1'
    } else if d == 2 {
        '2'
    } else if d == 3 {
        '3'
    } else if d == 4 {
        '4'
    } else if d == 5 {
        '5'
    } else if d == 6 {
        '6'
    } else if d == 7 {
        '7'
    } else if d == 8 {
        '8'
    } else {
        '9'
    }
}

/// A number in decimal digits, without leading zeros.
pub open spec fn decimal_text(n: nat) -> Seq<char>
    decreases n,
{
    if n < 10 {
        seq![digit_char(n as int)]
    } else {
        decimal_text(n / 10).push(digit_char(n as int % 10))
    }
}

/// Text filled up with zeros in front to `width` characters.
pub open spec fn padded(s: Seq<char>, width: nat) -> Seq<char> {
    if s.len() >= width {
        s
    } else {
        Seq::new((width - s.len()) as nat, |i: int| '0') + s
    }
}

/// The digit of a value below ten, as text.
fn digit_text(d: u64) -> (s: &'static str)
    requires
        d < 10,
    ensures
        s@ == seq![digit_char(d as int)],
{
    proof {
        reveal_strlit("0");
        reveal_strlit("1");
        reveal_strlit("2");
        reveal_strlit("3");
        reveal_strlit("4");
        reveal_strlit("5");
        reveal_strlit("6");
        reveal_strlit("7");
        reveal_strlit("8");
        reveal_strlit("9");
    }
    let s = match d {
        0 => "0",
        1 => "1",
        2 => "2",
        3 => "3",
        4 => "4",
        5 => "5",
        6 => "6",
        7 => "7",
        8 => "8",
        _ => "9",
    };
    assert(s@ =~= seq![digit_char(d as int)]);
    s
}

/// Writes a number in decimal digits.
pub fn number_text(n: u64) -> (s: String)
    ensures
        s@ == decimal_text(n as nat),
    decreases n,
{
    if n < 10 {
        String::from_str(digit_text(n))
    } else {
        let mut s = number_text(n / 10);
        s.append(digit_text(n % 10));
        assert(s@ =~= decimal_text(n as nat));
        s
    }
}

/// Writes a number in decimal digits, filled up with zeros in front to `width` characters.
pub fn padded_number_text(n: u64, width: usize) -> (s: String)
    ensures
        s@ == padded(decimal_text(n as nat), width as nat),
{
    let digits = number_text(n);
    let len: usize = digits.as_str().unicode_len();
    let mut s = String::new();
    if len < width {
        proof {
            reveal_strlit("0");
        }
        for i in 0..width - len
            invariant
                s@ =~= Seq::new(i as nat, |j: int| '0'),
                "0"@ =~= seq!['0'],
        {
            s.append("0");
        }
    }
    s.append(digits.as_str());
    assert(s@ =~= padded(decimal_text(n as nat), width as nat));
    s
}

/// Written numbers are digits only, and reading one gives the number back.
pub proof fn law_numbers_read_back(n: nat)
    ensures
        all_digits(decimal_text(n)),
        decimal_text(n).len() > 0,
        decimal_value(decimal_text(n)) == n,
    decreases n,
{
    if n >= 10 {
        law_numbers_read_back(n / 10);
        assert(decimal_text(n).drop_last() =~= decimal_text(n / 10));
        assert(decimal_text(n).last() == digit_char(n as int % 10));
        assert forall|i: int| 0 <= i < decimal_text(n).len() implies is_digit(
            #[trigger] decimal_text(n)[i],
        ) by {
            if i < decimal_text(n / 10).len() {
                assert(decimal_text(n)[i] == decimal_text(n / 10)[i]);
            }
        }
    } else {
        let s = decimal_text(n);
        assert(s.drop_last() =~= Seq::empty());
        assert(decimal_value(s.drop_last()) == 0);
        assert(s.last() == digit_char(n as int));
    }
}

/// A number read from its own text is the number that was written, as long as it fits.
pub proof fn law_written_numbers_parse(n: nat, max: int)
    requires
        n <= max,
    ensures
        unsigned_number(decimal_text(n), max) == Some(n as int),
{
    law_numbers_read_back(n);
    assert(is_digit(decimal_text(n)[0]));
}

/// A number that does not fit is refused, a plus sign changes nothing, and a minus sign gives the
/// opposite number, as long as that fits.
pub proof fn law_signs_are_read(n: nat, min: int, max: int)
    ensures
        n > max ==> unsigned_number(decimal_text(n), max) is None,
        unsigned_number(seq!['+'] + decimal_text(n), max) == unsigned_number(decimal_text(n), max),
        signed_number(decimal_text(n), min, max) == unsigned_number(decimal_text(n), max),
        signed_number(seq!['+'] + decimal_text(n), min, max) == unsigned_number(
            decimal_text(n),
            max,
        ),
        n <= -min ==> signed_number(seq!['-'] + decimal_text(n), min, max) == Some(-(n as int)),
        n > -min ==> signed_number(seq!['-'] + decimal_text(n), min, max) is None,
        unsigned_number(seq!['-'] + decimal_text(n), max) is None,
{
    law_numbers_read_back(n);
    let s = decimal_text(n);
    assert(is_digit(s[0]));
    assert((seq!['+'] + s).skip(1) =~= s);
    assert((seq!['-'] + s).skip(1) =~= s);
    let m = seq!['-'] + s;
    assert(m[0] == '-');
    assert(!is_digit(m[0]));
}

/// Numbers are read digit by digit: one more digit makes ten times the number and the digit, if
/// that fits, and anything else makes it no number.
pub proof fn law_numbers_are_read_digit_by_digit(s: Seq<char>, c: char, max: int)
    ensures
        unsigned_number(s, max) matches Some(v) ==> 0 <= v <= max,
        unsigned_number(s, max) matches Some(v) ==> is_digit(c) ==> unsigned_number(
            s.push(c),
            max,
        ) == if 10 * v + digit_value(c) <= max {
            Some(10 * v + digit_value(c))
        } else {
            None
        },
        s.len() > 0 && !is_digit(c) ==> unsigned_number(s.push(c), max) is None,
        unsigned_number(Seq::empty(), max) is None,
        unsigned_number(seq!['+'], max) is None,
{
    let plus = s.len() > 0 && s[0] == '+';
    let body = if plus {
        s.skip(1)
    } else {
        s
    };
    if unsigned_number(s, max) is Some {
        lemma_decimal_nonnegative(body);
        assert(body.len() > 0);
        assert(s.push(c)[0] == s[0]);
        let longer = if plus {
            s.push(c).skip(1)
        } else {
            s.push(c)
        };
        assert(longer =~= body.push(c));
        assert(longer.drop_last() =~= body);
        if is_digit(c) {
            assert forall|i: int| 0 <= i < longer.len() implies is_digit(#[trigger] longer[i]) by {
                if i < body.len() {
                    assert(is_digit(body[i]));
                }
            }
        }
    }
    if s.len() > 0 && !is_digit(c) {
        let t = s.push(c);
        assert(!is_digit(t[t.len() - 1]));
        assert(t.skip(1)[t.len() - 2] == c);
    }
    assert(seq!['+'].skip(1) =~= Seq::<char>::empty());
}

/// The characters of a decimal digit, its value and the text of its value belong together.
pub proof fn law_digits_are_themselves(c: char)
    requires
        is_digit(c),
    ensures
        0 <= digit_value(c) <= 9,
        decimal_text(digit_value(c) as nat) == seq![c],
        digit_value('0') == 0,
        digit_value('9') == 9,
{
}

/// Padding puts zeros in front until the text is wide enough and cuts nothing off.
pub proof fn law_padding_goes_in_front(s: Seq<char>, width: nat, i: int)
    ensures
        padded(s, width).len() == if s.len() < width {
            width
        } else {
            s.len()
        },
        ends_with(padded(s, width), s),
        0 <= i < padded(s, width).len() - s.len() ==> padded(s, width)[i] == '0',
{
    let p = padded(s, width);
    assert(p.skip(p.len() - s.len()) =~= s);
}

/// A text ends with each of its tails and with no other text of that length.
pub proof fn law_endings(text: Seq<char>, tail: Seq<char>, other: Seq<char>)
    ensures
        ends_with(text + tail, tail),
        ends_with(text, text),
        ends_with(text, Seq::empty()),
        ends_with(text + tail, other) && other.len() == tail.len() ==> other == tail,
        other.len() > text.len() ==> !ends_with(text, other),
{
    assert((text + tail).skip(text.len() as int) =~= tail);
    assert(text.skip(0) =~= text);
    assert(text.skip(text.len() as int) =~= Seq::<char>::empty());
}

/// The place of the first of two characters, behind text that holds neither.
proof fn lemma_place_behind(s: Seq<char>, a: char, b: char, i: nat, at: nat)
    requires
        i <= at <= s.len(),
        forall|k: int| i <= k < at ==> !is_letter(#[trigger] s[k], a, b),
        at < s.len() ==> is_letter(s[at as int], a, b),
    ensures
        place_of(s, a, b, i) == at,
    decreases at - i,
{
    if i < at {
        assert(!is_letter(s[i as int], a, b));
        lemma_place_behind(s, a, b, i + 1, at);
    }
}

/// A mantissa is digits, or digits on one side of a point at least.
pub proof fn law_mantissas_are_digits_around_a_point(whole: Seq<char>, rest: Seq<char>)
    requires
        all_digits(whole),
        all_digits(rest),
    ensures
        is_mantissa(whole) <==> whole.len() > 0,
        is_mantissa(whole + seq!['.'] + rest) <==> whole.len() + rest.len() > 0,
{
    assert forall|k: int| 0 <= k < whole.len() implies !is_letter(#[trigger] whole[k], '.', '.') by {
        assert(is_digit(whole[k]));
    }
    lemma_place_behind(whole, '.', '.', 0, whole.len());
    let s = whole + seq!['.'] + rest;
    assert forall|k: int| 0 <= k < whole.len() implies !is_letter(#[trigger] s[k], '.', '.') by {
        assert(is_digit(whole[k]));
    }
    lemma_place_behind(s, '.', '.', 0, whole.len());
    assert(s.take(whole.len() as int) =~= whole);
    assert(s.skip(whole.len() + 1int) =~= rest);
}

/// A decimal number is a mantissa, or one with an exponent behind a small or a capital letter,
/// and the exponent may have a sign.
pub proof fn law_decimals_may_have_exponents(whole: Seq<char>, rest: Seq<char>, power: Seq<char>)
    requires
        all_digits(whole),
        all_digits(rest),
        all_digits(power),
    ensures
        ({
            let m = whole + seq!['.'] + rest;
            let some = whole.len() + rest.len() > 0;
            &&& is_decimal(m) <==> some
            &&& is_decimal(m + seq!['e'] + power) <==> some && power.len() > 0
            &&& is_decimal(m + seq!['E'] + power) <==> some && power.len() > 0
            &&& is_decimal(m + seq!['e'] + (seq!['-'] + power)) <==> some && power.len() > 0
            &&& is_decimal(m + seq!['e'] + (seq!['+'] + power)) <==> some && power.len() > 0
        }),
{
    let m = whole + seq!['.'] + rest;
    law_mantissas_are_digits_around_a_point(whole, rest);
    assert forall|k: int| 0 <= k < m.len() implies !is_letter(#[trigger] m[k], 'e', 'E') by {
        if k < whole.len() {
            assert(is_digit(whole[k]));
        } else if k > whole.len() {
            assert(is_digit(rest[k - whole.len() - 1]));
        }
    }
    lemma_place_behind(m, 'e', 'E', 0, m.len());
    if power.len() > 0 {
        assert(is_digit(power[0]));
    }
    lemma_exponent(m, 'e', power);
    lemma_exponent(m, 'E', power);
    let minus = seq!['-'] + power;
    let plus = seq!['+'] + power;
    assert(minus.skip(1) =~= power);
    assert(plus.skip(1) =~= power);
    lemma_exponent(m, 'e', minus);
    lemma_exponent(m, 'e', plus);
}

/// What stands before and behind the letter of an exponent.
proof fn lemma_exponent(m: Seq<char>, letter: char, tail: Seq<char>)
    requires
        is_letter(letter, 'e', 'E'),
        forall|k: int| 0 <= k < m.len() ==> !is_letter(#[trigger] m[k], 'e', 'E'),
    ensures
        is_decimal(m + seq![letter] + tail) == (is_mantissa(m) && all_digits(unsigned_part(tail))
            && unsigned_part(tail).len() > 0),
{
    let s = m + seq![letter] + tail;
    assert forall|k: int| 0 <= k < m.len() implies !is_letter(#[trigger] s[k], 'e', 'E') by {
        assert(!is_letter(m[k], 'e', 'E'));
    }
    lemma_place_behind(s, 'e', 'E', 0, m.len());
    assert(s.take(m.len() as int) =~= m);
    assert(s.skip(m.len() + 1int) =~= tail);
}

/// A sign in front makes no difference to whether a text spells a real number, and two signs
/// never do.
pub proof fn law_reals_may_have_a_sign(s: Seq<char>)
    ensures
        is_real(seq!['-'] + s) == is_real(seq!['+'] + s),
        is_real(seq!['-'] + s) == (is_decimal(s) || is_infinity(s) || is_nan(s)),
        s.len() > 0 && s[0] != '+' && s[0] != '-' ==> is_real(seq!['-'] + s) == is_real(s),
        !is_real(seq!['-', '-'] + s),
{
    assert((seq!['-'] + s).skip(1) =~= s);
    assert((seq!['+'] + s).skip(1) =~= s);
    let t = seq!['-', '-'] + s;
    let u = t.skip(1);
    assert(u[0] == '-');
    assert(!is_digit(u[0]));
    lemma_place_of(u, 'e', 'E', 0);
    lemma_place_of(u, '.', '.', 0);
    let e = place_of(u, 'e', 'E', 0);
    assert(e > 0) by {
        assert(!is_letter(u[0], 'e', 'E'));
        lemma_place_of(u, 'e', 'E', 1);
    }
    let m = if e < u.len() {
        u.take(e)
    } else {
        u
    };
    assert(m[0] == '-');
    assert(!is_mantissa(m)) by {
        let point = place_of(m, '.', '.', 0);
        assert(!is_letter(m[0], '.', '.'));
        lemma_place_of(m, '.', '.', 1);
        assert(point > 0);
        if point < m.len() {
            assert(m.take(point)[0] == '-');
            assert(!all_digits(m.take(point)));
        } else {
            assert(!all_digits(m));
        }
    }
}

/// Words for infinity and for no number may be spelled in small and in capital letters, and no
/// other word of their length is one.
pub proof fn law_words_for_reals(s: Seq<char>)
    ensures
        is_infinity(s) ==> s.len() == 3 || s.len() == 8,
        is_infinity(s) && s.len() == 8 ==> is_infinity(s.take(3))
            && (s[7] == 'y' || s[7] == 'Y') && (s[3] == 'i' || s[3] == 'I') && (s[4] == 'n' || s[4]
            == 'N') && (s[5] == 'i' || s[5] == 'I') && (s[6] == 't' || s[6] == 'T'),
        is_infinity(s) ==> (s[0] == 'i' || s[0] == 'I') && (s[1] == 'n' || s[1] == 'N') && (s[2]
            == 'f' || s[2] == 'F'),
        is_nan(s) <==> s.len() == 3 && (s[0] == 'n' || s[0] == 'N') && (s[1] == 'a' || s[1] == 'A')
            && (s[2] == 'n' || s[2] == 'N'),
        is_infinity("inf"@) && is_infinity("INFINITY"@) && is_infinity("infinity"@),
{
    reveal_strlit("inf");
    reveal_strlit("INFINITY");
    reveal_strlit("infinity");
}

} // verus!
