//! Text building: strings as sequences of characters, and numbers in decimal.
use vstd::prelude::*;
use vstd::string::*;

verus! {

/// `String::push` appends one character.
pub assume_specification[ String::push ](s: &mut String, c: char)
    ensures
        final(s)@ == old(s)@.push(c),
;

/// `String::push_str` appends the characters of a string slice.
pub assume_specification[ String::push_str ](s: &mut String, t: &str)
    ensures
        final(s)@ == old(s)@ + t@,
;

/// The character of a decimal digit.
pub open spec fn digit_char(d: int) -> char {
    if d == 0 {
        '0'
    } else if d == 1 {
        '1'
    } else if d == 2 {
        '2'
    } else if d == 3 {
        '3'
    } else if d == 4 {
        '4'
    } else if d == 5 {
        '5'
    } else if d == 6 {
        '6'
    } else if d == 7 {
        '7'
    } else if d == 8 {
        '8'
    } else {
        '9'
    }
}

/// A natural number in decimal, without leading zeros.
pub open spec fn decimal(n: nat) -> Seq<char>
    decreases n,
{
    if n < 10 {
        seq![digit_char(n as int)]
    } else {
        decimal(n / 10).push(digit_char((n % 10) as int))
    }
}

/// The number that a sequence of decimal digits stands for.
pub open spec fn decimal_value(s: Seq<char>) -> nat
    decreases s.len(),
{
    if s.len() == 0 {
        0
    } else {
        decimal_value(s.drop_last()) * 10 + digit_value(s.last())
    }
}

/// Whether a character is one of `0` to `9`.
pub open spec fn is_digit(c: char) -> bool {
    '0' <= c <= '9'
}

/// The value of a decimal digit.
pub open spec fn digit_value(c: char) -> nat {
    if is_digit(c) {
        (c as nat - '0' as nat) as nat
    } else {
        0
    }
}

/// An ASCII letter in lower case; any other character as it is.
pub open spec fn ascii_lower(c: char) -> char {
    if 'A' <= c <= 'Z' {
        ((c as u32) + 32) as char
    } else {
        c
    }
}

/// ASCII letters in lower case.
pub open spec fn lower(s: Seq<char>) -> Seq<char> {
    Seq::new(s.len(), |i: int| ascii_lower(s[i]))
}

/// An ASCII letter in lower case; any other character as it is.
pub fn lower_char(c: char) -> (r: char)
    ensures
        r == ascii_lower(c),
{
    if 'A' <= c && c <= 'Z' {
        ((c as u8) + 32) as char
    } else {
        c
    }
}

/// Whether every character is a decimal digit.
pub open spec fn all_digits(s: Seq<char>) -> bool {
    forall|i: int| 0 <= i < s.len() ==> is_digit(#[trigger] s[i])
}

/// A number of at most the given width in decimal, padded on the left with
/// zeros up to that width.
pub open spec fn zero_padded(n: nat, width: nat) -> Seq<char>
    decreases width,
{
    if width == 0 {
        Seq::empty()
    } else {
        zero_padded(n / 10, (width - 1) as nat).push(digit_char((n % 10) as int))
    }
}

fn digit_to_char(d: u64) -> (c: char)
    requires
        d < 10,
    ensures
        c == digit_char(d as int),
{
    if d == 0 {
        '0'
    } else if d == 1 {
        '1'
    } else if d == 2 {
        '2'
    } else if d == 3 {
        '3'
    } else if d == 4 {
        '4'
    } else if d == 5 {
        '5'
    } else if d == 6 {
        '6'
    } else if d == 7 {
        '7'
    } else if d == 8 {
        '8'
    } else {
        '9'
    }
}

/// Appends `n` in decimal.
pub fn push_decimal(s: &mut String, n: u128)
    ensures
        final(s)@ == old(s)@ + decimal(n as nat),
    decreases n,
{
    if n >= 10 {
        push_decimal(s, n / 10);
    }
    s.push(digit_to_char((n % 10) as u64));
    proof {
        if n >= 10 {
            assert(s@ =~= old(s)@ + decimal((n / 10) as nat).push(digit_char((n % 10) as int)));
        } else {
            assert(s@ =~= old(s)@ + seq![digit_char(n as int)]);
        }
    }
}

/// Appends the low `width` decimal digits of `n`, with leading zeros.
pub fn push_zero_padded(s: &mut String, n: u64, width: u64)
    ensures
        final(s)@ == old(s)@ + zero_padded(n as nat, width as nat),
    decreases width,
{
    if width > 0 {
        push_zero_padded(s, n / 10, width - 1);
        s.push(digit_to_char(n % 10));
    }
    proof {
        assert(s@ =~= old(s)@ + zero_padded(n as nat, width as nat));
    }
}

/// The characters of a string slice.
pub fn chars_of(s: &str) -> (r: Vec<char>)
    ensures
        r@ == s@,
{
    let mut out: Vec<char> = Vec::new();
    for c in it: s.chars()
        invariant
            out@ == it.seq().take(it.index() as int),
            it.seq() == s@,
    {
        out.push(c);
        proof {
            assert(out@ =~= it.seq().take(it.index() as int + 1));
        }
    }
    proof {
        assert(out@ =~= s@);
    }
    out
}

/// Whether characters are the given text.
pub fn text_is(chars: &Vec<char>, text: &str) -> (r: bool)
    ensures
        r == (chars@ == text@),
{
    let want: Vec<char> = chars_of(text);
    if want.len() != chars.len() {
        return false;
    }
    let mut i: usize = 0;
    while i < want.len()
        invariant
            i <= want@.len(),
            want@.len() == chars@.len(),
            want@ == text@,
            forall|k: int| 0 <= k < i ==> chars@[k] == #[trigger] want@[k],
        decreases want@.len() - i,
    {
        if chars[i] != want[i] {
            return false;
        }
        i = i + 1;
    }
    proof {
        assert(chars@ =~= want@);
    }
    true
}

/// The string of the characters `chars[from..to]`.
pub fn string_of(chars: &Vec<char>, from: usize, to: usize) -> (r: String)
    requires
        from <= to <= chars@.len(),
    ensures
        r@ == chars@.subrange(from as int, to as int),
{
    let mut out: String = String::new();
    let mut i: usize = from;
    while i < to
        invariant
            from <= i <= to <= chars@.len(),
            out@ == chars@.subrange(from as int, i as int),
        decreases to - i,
    {
        out.push(chars[i]);
        i = i + 1;
        proof {
            assert(out@ =~= chars@.subrange(from as int, i as int));
        }
    }
    out
}

/// Whether a character is white space.
pub open spec fn is_white(c: char) -> bool {
    let n = c as u32;
    ||| 0x9 <= n <= 0xD
    ||| n == 0x20
    ||| n == 0x85
    ||| n == 0xA0
    ||| n == 0x1680
    ||| 0x2000 <= n <= 0x200A
    ||| n == 0x2028
    ||| n == 0x2029
    ||| n == 0x202F
    ||| n == 0x205F
    ||| n == 0x3000
}

fn white(c: char) -> (r: bool)
    ensures
        r == is_white(c),
{
    let n: u32 = c as u32;
    (0x9 <= n && n <= 0xD) || n == 0x20 || n == 0x85 || n == 0xA0 || n == 0x1680 || (0x2000 <= n
        && n <= 0x200A) || n == 0x2028 || n == 0x2029 || n == 0x202F || n == 0x205F || n == 0x3000
}

/// The index of the first character from `from` on that is not white space.
pub open spec fn first_ink(s: Seq<char>, from: int) -> int
    decreases s.len() - from,
{
    if from >= s.len() || !is_white(s[from]) {
        from
    } else {
        first_ink(s, from + 1)
    }
}

/// The index behind the last character before `end` that is not white space.
pub open spec fn last_ink(s: Seq<char>, end: int) -> int
    decreases end,
{
    if end <= 0 || !is_white(s[end - 1]) {
        end
    } else {
        last_ink(s, end - 1)
    }
}

/// A text without white space at either end.
pub open spec fn trimmed(s: Seq<char>) -> Seq<char> {
    let from = first_ink(s, 0);
    let to = last_ink(s, s.len() as int);
    if from < to {
        s.subrange(from, to)
    } else {
        Seq::empty()
    }
}

/// The characters of a text without white space at either end.
pub fn trim_chars(s: &str) -> (r: Vec<char>)
    ensures
        r@ == trimmed(s@),
{
    let chars: Vec<char> = chars_of(s);
    let mut from: usize = 0;
    while from < chars.len() && white(chars[from])
        invariant
            from <= chars@.len(),
            first_ink(chars@, 0) == first_ink(chars@, from as int),
        decreases chars@.len() - from,
    {
        from = from + 1;
    }
    let mut to: usize = chars.len();
    while to > 0 && white(chars[to - 1])
        invariant
            to <= chars@.len(),
            last_ink(chars@, chars@.len() as int) == last_ink(chars@, to as int),
        decreases to,
    {
        to = to - 1;
    }
    let mut out: Vec<char> = Vec::new();
    let mut i: usize = from;
    while i < to
        invariant
            from <= i,
            i <= to || to < from,
            to <= chars@.len(),
            out@ == if i <= to {
                chars@.subrange(from as int, i as int)
            } else {
                Seq::empty()
            },
        decreases to - i,
    {
        out.push(chars[i]);
        i = i + 1;
        proof {
            assert(out@ =~= chars@.subrange(from as int, i as int));
        }
    }
    proof {
        if from >= to {
            assert(out@ =~= Seq::<char>::empty());
        }
    }
    out
}

/// The digits of a number: the text without one leading plus sign.
pub open spec fn number_digits(s: Seq<char>) -> Seq<char> {
    if s.len() > 0 && s[0] == '+' {
        s.skip(1)
    } else {
        s
    }
}

/// The number up to `max` that a text writes in decimal, if it does: an
/// optional plus sign and at least one digit.
pub open spec fn parsed_number(s: Seq<char>, max: int) -> Option<int> {
    let d = number_digits(s);
    if d.len() > 0 && all_digits(d) && decimal_value(d) <= max {
        Some(decimal_value(d) as int)
    } else {
        None
    }
}

proof fn lemma_decimal_grows(s: Seq<char>, n: int)
    requires
        0 <= n <= s.len(),
    ensures
        decimal_value(s.take(n)) <= decimal_value(s),
    decreases s.len(),
{
    if n == s.len() {
        assert(s.take(n) =~= s);
    } else {
        lemma_decimal_grows(s.drop_last(), n);
        assert(s.drop_last().take(n) =~= s.take(n));
    }
}

/// Parses a number up to `max` from the first `len` characters.
pub fn parse_number(chars: &Vec<char>, len: usize, max: u64) -> (r: Option<u64>)
    requires
        len <= chars@.len(),
    ensures
        match r {
            Some(v) => parsed_number(chars@.take(len as int), max as int) == Some(v as int),
            None => parsed_number(chars@.take(len as int), max as int) is None,
        },
{
    let ghost s = chars@.take(len as int);
    let start: usize = if len > 0 && chars[0] == '+' {
        1
    } else {
        0
    };
    let ghost d = number_digits(s);
    proof {
        if start == 0 {
            assert(d =~= chars@.subrange(0, len as int));
        } else {
            assert(d =~= chars@.subrange(1, len as int));
        }
    }
    if start == len {
        return None;
    }
    let mut value: u64 = 0;
    let mut i: usize = start;
    while i < len
        invariant
            start <= i <= len,
            len <= chars@.len(),
            d == chars@.subrange(start as int, len as int),
            d == number_digits(s),
            s == chars@.take(len as int),
            start < len,
            forall|k: int| 0 <= k < i - start ==> is_digit(#[trigger] d[k]),
            value == decimal_value(d.take(i - start)),
            value <= max,
        decreases len - i,
    {
        let c: char = chars[i];
        let ghost k = i - start;
        if !('0' <= c && c <= '9') {
            proof {
                assert(!is_digit(d[k]));
            }
            return None;
        }
        let digit: u64 = (c as u32 - 48) as u64;
        proof {
            assert(d.take(k + 1).drop_last() =~= d.take(k));
            assert(d.take(k + 1).last() == c);
            lemma_decimal_grows(d, k + 1);
            assert(decimal_value(d.take(k + 1)) == value * 10 + digit);
        }
        if value > (u64::MAX - digit) / 10 || value * 10 + digit > max {
            return None;
        }
        value = value * 10 + digit;
        i = i + 1;
    }
    proof {
        assert(d.take(i - start) =~= d);
    }
    Some(value)
}

/// A text with spaces in front, up to a width.
pub open spec fn right_aligned(s: Seq<char>, width: int) -> Seq<char> {
    if s.len() >= width {
        s
    } else {
        Seq::new((width - s.len()) as nat, |i: int| ' ') + s
    }
}

/// Appends a text with spaces in front, up to a width.
pub fn push_right(out: &mut String, s: &str, width: usize)
    ensures
        final(out)@ == old(out)@ + right_aligned(s@, width as int),
{
    let len: usize = chars_of(s).len();
    let mut n: usize = len;
    while n < width
        invariant
            len == s@.len(),
            len <= n,
            n == len || n <= width,
            out@ == old(out)@ + Seq::new((n - len) as nat, |i: int| ' '),
        decreases width - n,
    {
        out.push(' ');
        n = n + 1;
        proof {
            assert(out@ =~= old(out)@ + Seq::new((n - len) as nat, |i: int| ' '));
        }
    }
    out.push_str(s);
    proof {
        assert(out@ =~= old(out)@ + right_aligned(s@, width as int));
    }
}

/// The whole number nearest to `num / den`, an even one where two are equally
/// near.
pub open spec fn rounded(num: int, den: int) -> int {
    let q = num / den;
    let r = num % den;
    if 2 * r > den || (2 * r == den && q % 2 == 1) {
        q + 1
    } else {
        q
    }
}

/// Rounds `num / den` to a whole number, halves to even.
pub fn round_ratio(num: u128, den: u128) -> (r: u128)
    requires
        den > 0,
        2 * den <= u128::MAX,
        num < u128::MAX,
    ensures
        r == rounded(num as int, den as int),
{
    let q: u128 = num / den;
    let rest: u128 = num % den;
    proof {
        assert(0 <= num as int / den as int <= num) by (nonlinear_arith)
            requires
                den > 0,
        ;
    }
    if 2 * rest > den || (2 * rest == den && q % 2 == 1) {
        q + 1
    } else {
        q
    }
}

/// The whole number nearest to `num / den`, the larger one where two are
/// equally near.
pub open spec fn rounded_up(num: int, den: int) -> int {
    if 2 * (num % den) >= den {
        num / den + 1
    } else {
        num / den
    }
}

/// Rounds `num / den` to a whole number, halves up.
pub fn round_ratio_up(num: u128, den: u128) -> (r: u128)
    requires
        den > 0,
        2 * den <= u128::MAX,
        num < u128::MAX,
    ensures
        r == rounded_up(num as int, den as int),
{
    let q: u128 = num / den;
    proof {
        assert(0 <= num as int / den as int <= num) by (nonlinear_arith)
            requires
                den > 0,
        ;
    }
    if 2 * (num % den) >= den {
        q + 1
    } else {
        q
    }
}

/// Ten to a small power.
pub open spec fn pow10(n: nat) -> nat
    decreases n,
{
    if n == 0 {
        1
    } else {
        10 * pow10((n - 1) as nat)
    }
}

/// A number given in parts of a power of ten, with so many decimals.
pub open spec fn fixed_point(parts: nat, decimals: nat) -> Seq<char> {
    decimal(parts / pow10(decimals)) + seq!['.'] + zero_padded(
        parts % pow10(decimals),
        decimals,
    )
}

/// Appends hundredths as a number with two decimals.
pub fn push_hundredths(out: &mut String, parts: u128)
    ensures
        final(out)@ == old(out)@ + fixed_point(parts as nat, 2),
{
    proof {
        reveal_with_fuel(pow10, 3);
    }
    push_decimal(out, parts / 100);
    out.push('.');
    push_zero_padded(out, (parts % 100) as u64, 2);
    proof {
        assert(out@ =~= old(out)@ + fixed_point(parts as nat, 2));
    }
}

/// Appends thousandths as a number with three decimals.
pub fn push_thousandths(out: &mut String, parts: u128)
    ensures
        final(out)@ == old(out)@ + fixed_point(parts as nat, 3),
{
    proof {
        reveal_with_fuel(pow10, 4);
    }
    push_decimal(out, parts / 1000);
    out.push('.');
    push_zero_padded(out, (parts % 1000) as u64, 3);
    proof {
        assert(out@ =~= old(out)@ + fixed_point(parts as nat, 3));
    }
}

/// A number's decimal text parses back to it.
pub proof fn law_decimal_parses_back(n: nat)
    ensures
        all_digits(decimal(n)),
        decimal(n).len() > 0,
        decimal_value(decimal(n)) == n,
        parsed_number(decimal(n), n as int) == Some(n as int),
    decreases n,
{
    let s = decimal(n);
    if n >= 10 {
        law_decimal_parses_back(n / 10);
        assert(s.drop_last() =~= decimal(n / 10));
    } else {
        assert(s.drop_last() =~= Seq::<char>::empty());
    }
    assert forall|i: int| 0 <= i < s.len() implies is_digit(#[trigger] s[i]) by {
        if i < s.len() - 1 {
            assert(s[i] == decimal(n / 10)[i]);
        }
    }
    let last = (n % 10) as int;
    assert(s.last() == digit_char(last));
    assert(digit_value(digit_char(last)) == last);
    assert(decimal_value(s) == decimal_value(s.drop_last()) * 10 + digit_value(s.last()));
    assert(decimal_value(Seq::<char>::empty()) == 0);
    assert(is_digit(s[0]));
    assert(number_digits(s) == s);
}

/// Whether a text comes before another, or is the same, in the order of its
/// characters.
pub open spec fn lex_le(a: Seq<char>, b: Seq<char>) -> bool
    decreases a.len(),
{
    if a.len() == 0 {
        true
    } else if b.len() == 0 {
        false
    } else if a[0] != b[0] {
        a[0] < b[0]
    } else {
        lex_le(a.skip(1), b.skip(1))
    }
}

/// Any two texts are in order one way or the other.
pub proof fn lemma_lex_total(a: Seq<char>, b: Seq<char>)
    ensures
        lex_le(a, b) || lex_le(b, a),
    decreases a.len(),
{
    if a.len() > 0 && b.len() > 0 && a[0] == b[0] {
        lemma_lex_total(a.skip(1), b.skip(1));
    }
}

/// The order of texts is transitive.
pub proof fn lemma_lex_transitive(a: Seq<char>, b: Seq<char>, c: Seq<char>)
    requires
        lex_le(a, b),
        lex_le(b, c),
    ensures
        lex_le(a, c),
    decreases a.len(),
{
    if a.len() > 0 && b.len() > 0 && c.len() > 0 && a[0] == b[0] && b[0] == c[0] {
        lemma_lex_transitive(a.skip(1), b.skip(1), c.skip(1));
    }
}

/// Whether a text comes before another, or is the same.
pub fn lex_at_most(a: &Vec<char>, b: &Vec<char>) -> (r: bool)
    ensures
        r == lex_le(a@, b@),
{
    let mut i: usize = 0;
    proof {
        assert(a@.skip(0) =~= a@);
        assert(b@.skip(0) =~= b@);
    }
    while i < a.len() && i < b.len()
        invariant
            i <= a@.len(),
            i <= b@.len(),
            lex_le(a@, b@) == lex_le(a@.skip(i as int), b@.skip(i as int)),
        decreases a@.len() - i,
    {
        if a[i] != b[i] {
            return a[i] < b[i];
        }
        i = i + 1;
        proof {
            assert(a@.skip(i - 1).skip(1) =~= a@.skip(i as int));
            assert(b@.skip(i - 1).skip(1) =~= b@.skip(i as int));
        }
    }
    i >= a.len()
}

/// One text comes before another, or is the same, just if the other starts
/// with it, or the first character in which they differ is the smaller one.
pub proof fn law_texts_in_order(a: Seq<char>, b: Seq<char>)
    ensures
        lex_le(a, b) <==> {
            ||| a.len() <= b.len() && b.take(a.len() as int) == a
            ||| exists|k: int|
                0 <= k < a.len() && k < b.len() && #[trigger] a.take(k) == b.take(k) && a[k] < b[k]
        },
    decreases a.len(),
{
    if a.len() == 0 {
        assert(b.take(0) =~= a);
    } else if b.len() > 0 {
        let starts = a.len() <= b.len() && b.take(a.len() as int) == a;
        if a[0] != b[0] {
            if starts {
                assert(b.take(a.len() as int)[0] == b[0]);
            }
            assert(a.take(0) =~= b.take(0));
            assert forall|k: int|
                0 <= k < a.len() && k < b.len() && #[trigger] a.take(k) == b.take(k) && a[k]
                    < b[k] implies a[0] < b[0] by {
                if k > 0 {
                    assert(a.take(k)[0] == a[0]);
                    assert(b.take(k)[0] == b[0]);
                }
            }
        } else {
            let (x, y) = (a.skip(1), b.skip(1));
            law_texts_in_order(x, y);
            if starts {
                assert(y.take(x.len() as int) =~= x) by {
                    assert forall|i: int| 0 <= i < x.len() implies y[i] == x[i] by {
                        assert(b.take(a.len() as int)[i + 1] == b[i + 1]);
                    }
                }
            }
            if x.len() <= y.len() && y.take(x.len() as int) == x {
                assert(b.take(a.len() as int) =~= a) by {
                    assert forall|i: int| 0 <= i < a.len() implies b[i] == a[i] by {
                        if i > 0 {
                            assert(y.take(x.len() as int)[i - 1] == y[i - 1]);
                        }
                    }
                }
            }
            assert forall|k: int|
                0 <= k < x.len() && k < y.len() && #[trigger] x.take(k) == y.take(k) && x[k]
                    < y[k] implies a.take(k + 1) == b.take(k + 1) && a[k + 1] < b[k + 1] by {
                assert(a.take(k + 1) =~= seq![a[0]] + x.take(k));
                assert(b.take(k + 1) =~= seq![b[0]] + y.take(k));
            }
            assert forall|k: int|
                0 <= k < a.len() && k < b.len() && #[trigger] a.take(k) == b.take(k) && a[k]
                    < b[k] implies x.take(k - 1) == y.take(k - 1) && x[k - 1] < y[k - 1] by {
                assert(x.take(k - 1) =~= a.take(k).skip(1));
                assert(y.take(k - 1) =~= b.take(k).skip(1));
            }
        }
    }
}

/// Of the ASCII characters, white space is the blank and the five controls
/// from tab to carriage return.
pub proof fn law_ascii_white_space(c: char)
    requires
        (c as u32) < 128,
    ensures
        is_white(c) <==> c as u32 == 32 || 9 <= c as u32 <= 13,
{
}

proof fn lemma_ink(s: Seq<char>, from: int, end: int)
    requires
        0 <= from <= s.len(),
        0 <= end <= s.len(),
    ensures
        from <= first_ink(s, from) <= s.len(),
        forall|i: int| from <= i < first_ink(s, from) ==> is_white(#[trigger] s[i]),
        first_ink(s, from) < s.len() ==> !is_white(s[first_ink(s, from)]),
        0 <= last_ink(s, end) <= end,
        forall|i: int| last_ink(s, end) <= i < end ==> is_white(#[trigger] s[i]),
        last_ink(s, end) > 0 ==> !is_white(s[last_ink(s, end) - 1]),
    decreases s.len() - from + end,
{
    if from < s.len() && is_white(s[from]) {
        lemma_ink(s, from + 1, end);
    } else if end > 0 && is_white(s[end - 1]) {
        lemma_ink(s, from, end - 1);
    }
}

/// Trimming cuts white space off both ends, all of it and nothing else.
pub proof fn law_trimming(s: Seq<char>)
    ensures
        exists|from: int, to: int|
            {
                &&& 0 <= from <= to <= s.len()
                &&& trimmed(s) == #[trigger] s.subrange(from, to)
                &&& forall|i: int|
                    0 <= i < s.len() && !(from <= i < to) ==> is_white(#[trigger] s[i])
            },
        trimmed(s).len() > 0 ==> !is_white(trimmed(s)[0]) && !is_white(trimmed(s).last()),
{
    let n = s.len() as int;
    lemma_ink(s, 0, n);
    let (from, to) = (first_ink(s, 0), last_ink(s, n));
    if from < to {
        assert(trimmed(s) == s.subrange(from, to));
    } else {
        assert(trimmed(s) =~= s.subrange(from, from));
        if from < n {
            assert(to <= from);
            assert(is_white(s[from]));
        }
    }
}

/// Text without white space at its ends stays as it is.
pub proof fn law_trimming_keeps_tight_text(s: Seq<char>)
    requires
        s.len() > 0,
        !is_white(s[0]),
        !is_white(s.last()),
    ensures
        trimmed(s) == s,
{
    let n = s.len() as int;
    assert(first_ink(s, 0) == 0);
    assert(last_ink(s, n) == n);
    assert(s.subrange(0, n) =~= s);
}

/// Decimal text puts the last digit of a number behind the text of the rest.
pub proof fn law_decimal_digits(n: nat)
    ensures
        decimal(n).len() > 0,
        decimal(n).last() as u32 == 48 + n % 10,
        n < 10 ==> decimal(n).len() == 1,
        n >= 10 ==> decimal(n).drop_last() == decimal(n / 10),
{
    if n >= 10 {
        assert(decimal(n).drop_last() =~= decimal(n / 10));
    }
}

/// A number is read from its decimal text, with or without a plus sign, just
/// up to the bound.
pub proof fn law_numbers_read_back(n: nat, max: int)
    ensures
        parsed_number(decimal(n), max) == if n <= max {
            Some(n as int)
        } else {
            None
        },
        parsed_number(seq!['+'] + decimal(n), max) == if n <= max {
            Some(n as int)
        } else {
            None
        },
{
    law_decimal_parses_back(n);
    assert(is_digit(decimal(n)[0]));
    assert((seq!['+'] + decimal(n)).skip(1) =~= decimal(n));
}

/// What is read as a number consists of the digits `0` to `9`, but for a plus
/// sign in front, and there is a digit.
pub proof fn law_numbers_are_digits(s: Seq<char>, max: int, i: int)
    requires
        parsed_number(s, max) is Some,
        0 <= i < s.len(),
    ensures
        48 <= s[i] as u32 <= 57 || (i == 0 && s[0] == '+' && s.len() > 1),
        0 <= parsed_number(s, max)->0 <= max,
{
    let d = number_digits(s);
    if s[0] == '+' {
        if i > 0 {
            assert(d[i - 1] == s[i]);
            assert(is_digit(d[i - 1]));
        }
    } else {
        assert(is_digit(d[i]));
    }
}

/// One more digit behind a number's digits is ten times the number and the
/// digit.
pub proof fn law_digits_count_in_tens(s: Seq<char>, d: int)
    requires
        0 <= d < 10,
    ensures
        decimal_value(s.push((48 + d) as char)) == 10 * decimal_value(s) + d,
        decimal_value(Seq::empty()) == 0,
{
    let c = (48 + d) as char;
    assert(c as u32 == 48 + d);
    assert(s.push(c).drop_last() =~= s);
}

/// Zero-padded text has the width asked for and stands for the number's last
/// digits.
pub proof fn law_zero_padding(n: nat, width: nat)
    ensures
        zero_padded(n, width).len() == width,
        all_digits(zero_padded(n, width)),
        pow10(width) > 0,
        decimal_value(zero_padded(n, width)) == n % pow10(width),
    decreases width,
{
    if width > 0 {
        let w = (width - 1) as nat;
        law_zero_padding(n / 10, w);
        let s = zero_padded(n, width);
        let head = zero_padded(n / 10, w);
        assert(s.drop_last() =~= head);
        assert forall|i: int| 0 <= i < s.len() implies is_digit(#[trigger] s[i]) by {
            if i < head.len() {
                assert(s[i] == head[i]);
            }
        }
        assert(digit_value(s.last()) == n % 10);
        let p = pow10(w) as int;
        let (m, k) = (n as int, n as int / 10);
        assert(10 * (k % p) + m % 10 == m % (10 * p)) by (nonlinear_arith)
            requires
                p > 0,
                m >= 0,
                k == m / 10,
        {
            let (q, r) = (k / p, k % p);
            assert(k == q * p + r && 0 <= r < p);
            let d = m % 10;
            assert(m == 10 * k + d);
            assert(m == q * (10 * p) + (10 * r + d));
            assert(0 <= 10 * r + d < 10 * p);
            vstd::arithmetic::div_mod::lemma_fundamental_div_mod_converse(m, 10 * p, q, 10 * r + d);
        }
    }
}

/// Fixed-point text is a whole number, a point and so many digits, which
/// together stand for the parts.
pub proof fn law_fixed_point(parts: nat, decimals: nat)
    ensures
        ({
            let f = fixed_point(parts, decimals);
            let at = f.len() - 1 - decimals;
            &&& at > 0
            &&& f[at] == '.'
            &&& all_digits(f.take(at))
            &&& all_digits(f.skip(at + 1))
            &&& decimal_value(f.take(at)) * pow10(decimals) + decimal_value(f.skip(at + 1)) == parts
            &&& decimal_value(f.skip(at + 1)) < pow10(decimals)
        }),
        pow10(0) == 1,
        pow10(decimals + 1) == 10 * pow10(decimals),
{
    let p = pow10(decimals);
    law_zero_padding(parts, decimals);
    law_zero_padding(parts % p, decimals);
    law_decimal_parses_back(parts / p);
    let f = fixed_point(parts, decimals);
    let at = f.len() - 1 - decimals;
    assert(f.take(at) =~= decimal(parts / p));
    assert(f.skip(at + 1) =~= zero_padded(parts % p, decimals));
    let (m, q) = (parts as int, p as int);
    assert((m / q) * q + m % q == m && 0 <= m % q < q && (m % q) % q == m % q)
        by (nonlinear_arith)
        requires
            q > 0,
            m >= 0,
    {
        vstd::arithmetic::div_mod::lemma_fundamental_div_mod(m, q);
        vstd::arithmetic::div_mod::lemma_small_mod((m % q) as nat, q as nat);
    }
}

/// Right-aligned text ends with the text and has nothing but spaces in front,
/// as many as the width leaves.
pub proof fn law_right_alignment(s: Seq<char>, width: int)
    ensures
        ({
            let r = right_aligned(s, width);
            let pad = r.len() - s.len();
            &&& pad == if width > s.len() {
                width - s.len()
            } else {
                0
            }
            &&& r.skip(pad) == s
            &&& forall|i: int| 0 <= i < pad ==> #[trigger] r[i] == ' '
        }),
{
    let r = right_aligned(s, width);
    assert(r.skip(r.len() - s.len()) =~= s);
}

/// Rounding moves by at most a half; from a half to the even number, or up.
pub proof fn law_rounding(num: int, den: int)
    requires
        den > 0,
    ensures
        -den <= 2 * (rounded(num, den) * den - num) <= den,
        2 * (rounded(num, den) * den - num) == den || 2 * (rounded(num, den) * den - num) == -den
            ==> rounded(num, den) % 2 == 0,
        -den < 2 * (rounded_up(num, den) * den - num) <= den,
{
    let (q, r) = (num / den, num % den);
    vstd::arithmetic::div_mod::lemma_fundamental_div_mod(num, den);
    assert(0 <= r < den) by (nonlinear_arith)
        requires
            r == num % den,
            den > 0,
    ;
    assert(den * q == q * den) by (nonlinear_arith);
    assert((q + 1) * den == q * den + den) by (nonlinear_arith);
}

/// Lower case moves the letters `A` to `Z` by 32 and leaves everything else.
pub proof fn law_lower_case(s: Seq<char>, i: int)
    requires
        0 <= i < s.len(),
    ensures
        lower(s).len() == s.len(),
        65 <= s[i] as u32 <= 90 ==> lower(s)[i] as u32 == s[i] as u32 + 32,
        !(65 <= s[i] as u32 <= 90) ==> lower(s)[i] == s[i],
{
}

/// Digits read as the number that they make, with or without a plus sign and
/// whatever zeros lead, just up to the bound; without a digit nothing is read.
pub proof fn law_digits_read(s: Seq<char>, max: int)
    requires
        s.len() > 0,
        forall|i: int| 0 <= i < s.len() ==> '0' <= #[trigger] s[i] <= '9',
    ensures
        all_digits(s),
        parsed_number(s, max) == if decimal_value(s) <= max {
            Some(decimal_value(s) as int)
        } else {
            None
        },
        parsed_number(seq!['+'] + s, max) == parsed_number(s, max),
        parsed_number(Seq::empty(), max) is None,
        parsed_number(seq!['+'], max) is None,
{
    assert(s[0] != '+');
    assert((seq!['+'] + s).skip(1) =~= s);
    assert(seq!['+'].skip(1) =~= Seq::<char>::empty());
}

/// A leading zero does not change a number.
pub proof fn law_leading_zeros(s: Seq<char>)
    ensures
        decimal_value(seq!['0'] + s) == decimal_value(s),
    decreases s.len(),
{
    let z = seq!['0'] + s;
    if s.len() == 0 {
        assert(z.drop_last() =~= Seq::<char>::empty());
        assert(z.last() == '0');
        assert(decimal_value(z.drop_last()) == 0);
    } else {
        law_leading_zeros(s.drop_last());
        assert(z.drop_last() =~= seq!['0'] + s.drop_last());
        assert(z.last() == s.last());
    }
}

/// White space is these characters and no other.
pub proof fn law_white_space(c: char)
    ensures
        is_white(c) <==> {
            let n = c as u32;
            ||| n == 9 || n == 10 || n == 11 || n == 12 || n == 13 || n == 32
            ||| n == 133 || n == 160 || n == 5760
            ||| 8192 <= n <= 8202
            ||| n == 8232 || n == 8233 || n == 8239 || n == 8287 || n == 12288
        },
{
}

} // verus!
