//! Decimal numbers, white space and lines.
use vstd::prelude::*;
use vstd::string::*;

verus! {

/// `String::push` appends one character.
pub assume_specification[ String::push ](s: &mut String, c: char)
    ensures
        final(s)@ == old(s)@.push(c),
;

/// The character of a decimal digit.
pub open spec fn digit_char(d: nat) -> char {
    (0x30 + d) as char
}

/// The decimal digits of a number, without leading zeros.
pub open spec fn decimal_text(n: nat) -> Seq<char>
    decreases n,
{
    if n < 10 {
        seq![digit_char(n)]
    } else {
        decimal_text(n / 10).push(digit_char(n % 10))
    }
}

/// A text filled up with zeros on the left to a width.
pub open spec fn zero_filled(s: Seq<char>, width: nat) -> Seq<char> {
    if s.len() < width {
        Seq::new((width - s.len()) as nat, |i: int| '0') + s
    } else {
        s
    }
}

/// The character is a decimal digit.
pub open spec fn is_digit(c: char) -> bool {
    0x30 <= c as u32 <= 0x39
}

/// The text holds digits only, and at least one.
pub open spec fn all_digits(s: Seq<char>) -> bool {
    &&& s.len() > 0
    &&& forall|i: int| 0 <= i < s.len() ==> is_digit(#[trigger] s[i])
}

/// The number that decimal digits stand for.
pub open spec fn digits_value(s: Seq<char>) -> nat
    decreases s.len(),
{
    if s.len() == 0 {
        0
    } else {
        10 * digits_value(s.drop_last()) + (s.last() as u32 - 0x30) as nat
    }
}

/// The unsigned number that a text holds: digits, perhaps behind a plus sign,
/// of a number that fits 64 bits.
pub open spec fn unsigned_number(s: Seq<char>) -> Option<u64> {
    let digits = if s.len() > 0 && s[0] == '+' {
        s.skip(1)
    } else {
        s
    };
    if all_digits(digits) && digits_value(digits) <= u64::MAX {
        Some(digits_value(digits) as u64)
    } else {
        None
    }
}

/// The character has Unicode's white space property.
pub open spec fn is_white_space(c: char) -> bool {
    let u = c as u32;
    ||| 0x09 <= u <= 0x0d
    ||| u == 0x20
    ||| u == 0x85
    ||| u == 0xa0
    ||| u == 0x1680
    ||| 0x2000 <= u <= 0x200a
    ||| u == 0x2028
    ||| u == 0x2029
    ||| u == 0x202f
    ||| u == 0x205f
    ||| u == 0x3000
}

/// A text without the white space at its beginning.
pub open spec fn trim_start(s: Seq<char>) -> Seq<char>
    decreases s.len(),
{
    if s.len() > 0 && is_white_space(s[0]) {
        trim_start(s.skip(1))
    } else {
        s
    }
}

/// A text without the white space at its end.
pub open spec fn trim_end(s: Seq<char>) -> Seq<char>
    decreases s.len(),
{
    if s.len() > 0 && is_white_space(s.last()) {
        trim_end(s.drop_last())
    } else {
        s
    }
}

/// A text without the white space at both ends.
pub open spec fn trimmed(s: Seq<char>) -> Seq<char> {
    trim_end(trim_start(s))
}

/// Writes a number in decimal.
pub fn decimal(n: u64) -> (s: String)
    ensures
        s@ == decimal_text(n as nat),
    decreases n,
{
    let mut s = if n >= 10 {
        decimal(n / 10)
    } else {
        String::new()
    };
    let d: u8 = (n % 10) as u8;
    let c: char = (0x30 + d) as char;
    s.push(c);
    assert(s@ =~= decimal_text(n as nat));
    s
}

/// The characters of a text.
pub fn chars_of(s: &str) -> (out: Vec<char>)
    ensures
        out@ == s@,
{
    let mut out: Vec<char> = Vec::new();
    for c in iter: s.chars()
        invariant
            iter.seq() == s@,
            out@ == s@.take(iter.index() as int),
    {
        assert(s@.take(iter.index() as int).push(c) =~= s@.take(iter.index() + 1));
        out.push(c);
    }
    assert(s@.take(s@.len() as int) =~= s@);
    out
}

/// The text of a range of characters.
pub fn string_of(chars: &[char], from: usize, to: usize) -> (s: String)
    requires
        from <= to <= chars@.len(),
    ensures
        s@ == chars@.subrange(from as int, to as int),
{
    let mut s = String::new();
    let mut i: usize = from;
    assert(s@ =~= chars@.subrange(from as int, from as int));
    while i < to
        invariant
            from <= i <= to <= chars@.len(),
            s@ == chars@.subrange(from as int, i as int),
        decreases to - i,
    {
        s.push(chars[i]);
        assert(chars@.subrange(from as int, i + 1) =~= chars@.subrange(from as int, i as int).push(
            chars@[i as int],
        ));
        i = i + 1;
    }
    s
}

/// Whether two texts are the same.
pub fn same_text(a: &[char], b: &str) -> (r: bool)
    ensures
        r == (a@ == b@),
{
    let c = chars_of(b);
    if a.len() != c.len() {
        return false;
    }
    let mut i: usize = 0;
    while i < a.len()
        invariant
            i <= a@.len() == c@.len(),
            c@ == b@,
            forall|k: int| 0 <= k < i ==> a@[k] == c@[k],
        decreases a@.len() - i,
    {
        if a[i] != c[i] {
            return false;
        }
        i = i + 1;
    }
    assert(a@ =~= c@);
    true
}

/// Whether a character is white space.
pub fn white_space(c: char) -> (b: bool)
    ensures
        b == is_white_space(c),
{
    let u = c as u32;
    (0x09 <= u && u <= 0x0d) || u == 0x20 || u == 0x85 || u == 0xa0 || u == 0x1680 || (0x2000 <= u
        && u <= 0x200a) || u == 0x2028 || u == 0x2029 || u == 0x202f || u == 0x205f || u == 0x3000
}

/// The bounds of a range of characters without the white space at both ends.
pub fn trim_bounds(chars: &[char], from: usize, to: usize) -> (r: (usize, usize))
    requires
        from <= to <= chars@.len(),
    ensures
        from <= r.0 <= r.1 <= to,
        chars@.subrange(r.0 as int, r.1 as int) == trimmed(chars@.subrange(from as int, to as int)),
{
    let mut lo: usize = from;
    let ghost all = chars@;
    while lo < to && white_space(chars[lo])
        invariant
            from <= lo <= to <= all.len(),
            all == chars@,
            trim_start(all.subrange(lo as int, to as int)) == trim_start(
                all.subrange(from as int, to as int),
            ),
        decreases to - lo,
    {
        assert(all.subrange(lo as int, to as int).skip(1) =~= all.subrange(lo + 1, to as int));
        lo = lo + 1;
    }
    let ghost inner = all.subrange(lo as int, to as int);
    assert(trim_start(inner) == inner);
    let mut hi: usize = to;
    while hi > lo && white_space(chars[hi - 1])
        invariant
            lo <= hi <= to <= all.len(),
            all == chars@,
            trim_end(all.subrange(lo as int, hi as int)) == trim_end(inner),
        decreases hi,
    {
        assert(all.subrange(lo as int, hi as int).drop_last() =~= all.subrange(lo as int, hi - 1));
        hi = hi - 1;
    }
    (lo, hi)
}

/// Reads an unsigned number.
pub fn parse_unsigned(chars: &[char], from: usize, to: usize) -> (r: Option<u64>)
    requires
        from <= to <= chars@.len(),
    ensures
        r == unsigned_number(chars@.subrange(from as int, to as int)),
{
    let ghost s = chars@.subrange(from as int, to as int);
    let mut start: usize = from;
    if start < to && chars[start] == '+' {
        start = start + 1;
    }
    let ghost digits = chars@.subrange(start as int, to as int);
    assert(digits =~= if s.len() > 0 && s[0] == '+' {
        s.skip(1)
    } else {
        s
    });
    if start == to {
        return None;
    }
    let mut v: u64 = 0;
    let mut i: usize = start;
    assert(digits.take(0) =~= seq![]);
    while i < to
        invariant
            from <= start <= i <= to <= chars@.len(),
            start < to,
            digits == chars@.subrange(start as int, to as int),
            digits == (if s.len() > 0 && s[0] == '+' {
                s.skip(1)
            } else {
                s
            }),
            s == chars@.subrange(from as int, to as int),
            forall|k: int| 0 <= k < i - start ==> is_digit(digits[k]),
            v == digits_value(digits.take(i - start)),
        decreases to - i,
    {
        let c = chars[i] as u32;
        let ghost k = i - start;
        assert(digits[k] == chars@[i as int]);
        assert(digits.take(k + 1).drop_last() =~= digits.take(k));
        if c < 0x30 || c > 0x39 {
            assert(!is_digit(digits[k]));
            return None;
        }
        let d = (c - 0x30) as u64;
        if v > 1844674407370955161 || (v == 1844674407370955161 && d > 5) {
            proof {
                lemma_digits_value_grows(digits, k + 1);
            }
            return None;
        }
        v = 10 * v + d;
        i = i + 1;
    }
    assert(digits.take(i - start) =~= digits);
    Some(v)
}

/// Further digits make a number no smaller.
proof fn lemma_digits_value_grows(s: Seq<char>, k: int)
    requires
        0 <= k <= s.len(),
    ensures
        digits_value(s.take(k)) <= digits_value(s),
    decreases s.len() - k,
{
    if k < s.len() {
        lemma_digits_value_grows(s, k + 1);
        assert(s.take(k + 1).drop_last() =~= s.take(k));
    } else {
        assert(s.take(k) =~= s);
    }
}

/// The decimal digits of a number are digits and stand for the number.
pub proof fn lemma_decimal_value(n: nat)
    ensures
        decimal_text(n).len() > 0,
        forall|i: int| 0 <= i < decimal_text(n).len() ==> is_digit(#[trigger] decimal_text(n)[i]),
        digits_value(decimal_text(n)) == n,
    decreases n,
{
    reveal_with_fuel(digits_value, 2);
    if n >= 10 {
        lemma_decimal_value(n / 10);
        assert(decimal_text(n).drop_last() =~= decimal_text(n / 10));
    } else {
        assert(decimal_text(n).drop_last() =~= seq![]);
    }
}

/// Leading zeros do not change a number.
pub proof fn lemma_zeros_value(z: Seq<char>, s: Seq<char>)
    requires
        forall|i: int| 0 <= i < z.len() ==> z[i] == '0',
    ensures
        digits_value(z + s) == digits_value(s),
    decreases z.len() + s.len(),
{
    if s.len() > 0 {
        lemma_zeros_value(z, s.drop_last());
        assert((z + s).drop_last() =~= z + s.drop_last());
    } else if z.len() > 0 {
        lemma_zeros_value(z.drop_last(), s);
        assert((z + s).drop_last() =~= z.drop_last() + s);
    }
}

/// Reading a zero-filled decimal number gives the number back.
pub proof fn lemma_filled_number(n: u64, width: nat)
    ensures
        unsigned_number(zero_filled(decimal_text(n as nat), width)) == Some(n),
        forall|i: int|
            0 <= i < zero_filled(decimal_text(n as nat), width).len() ==> is_digit(
                #[trigger] zero_filled(decimal_text(n as nat), width)[i],
            ),
{
    let s = decimal_text(n as nat);
    lemma_decimal_value(n as nat);
    let filled = zero_filled(s, width);
    if s.len() < width {
        let z = Seq::new((width - s.len()) as nat, |i: int| '0');
        lemma_zeros_value(z, s);
        assert forall|i: int| 0 <= i < filled.len() implies is_digit(#[trigger] filled[i]) by {
            if i >= z.len() {
                assert(filled[i] == s[i - z.len()]);
            }
        }
    }
    assert(is_digit(filled[0]));
}

/// The text is a number in decimal: digits that stand for it, with no zero in front
/// unless that is all.
pub open spec fn numeral(s: Seq<char>, n: nat) -> bool {
    &&& all_digits(s)
    &&& digits_value(s) == n
    &&& s.len() > 1 ==> s[0] != '0'
}

/// A character is known by its code.
proof fn lemma_same_char(a: char, b: char)
    requires
        a as u32 == b as u32,
    ensures
        a == b,
{
}

/// A number is written as a numeral.
pub proof fn decimal_is_numeral(n: nat)
    ensures
        numeral(decimal_text(n), n),
    decreases n,
{
    lemma_decimal_value(n);
    if n >= 10 {
        decimal_is_numeral(n / 10);
        assert(decimal_text(n)[0] == decimal_text(n / 10)[0]);
        if n / 10 < 10 {
            assert(decimal_text(n / 10)[0] == digit_char(n / 10));
            assert(digit_char(n / 10) as u32 == 0x30 + n / 10);
        } else {
            lemma_decimal_value(n / 10 / 10);
        }
    }
}

/// Digits that do not begin with a zero stand for more than nothing.
proof fn lemma_digits_positive(s: Seq<char>)
    requires
        all_digits(s),
        s[0] != '0',
    ensures
        digits_value(s) >= 1,
    decreases s.len(),
{
    if s.len() > 1 {
        let init = s.drop_last();
        assert forall|i: int| 0 <= i < init.len() implies is_digit(#[trigger] init[i]) by {
            assert(init[i] == s[i]);
        }
        lemma_digits_positive(init);
    } else {
        assert(is_digit(s[0]));
        assert(s.last() == s[0]);
        if s[0] as u32 == 0x30 {
            lemma_same_char(s[0], '0');
        }
    }
}

/// There is one numeral for a number.
pub proof fn numerals_are_unique(a: Seq<char>, b: Seq<char>, n: nat)
    requires
        numeral(a, n),
        numeral(b, n),
    ensures
        a == b,
    decreases a.len(),
{
    let x = a.drop_last();
    let y = b.drop_last();
    assert(is_digit(a[a.len() - 1]) && is_digit(b[b.len() - 1]));
    assert forall|i: int| 0 <= i < x.len() implies is_digit(#[trigger] x[i]) by {
        assert(x[i] == a[i]);
    }
    assert forall|i: int| 0 <= i < y.len() implies is_digit(#[trigger] y[i]) by {
        assert(y[i] == b[i]);
    }
    assert(x.len() > 0 ==> x[0] == a[0]);
    assert(y.len() > 0 ==> y[0] == b[0]);
    if x.len() > 0 {
        lemma_digits_positive(x);
    } else {
        assert(x =~= seq![]);
    }
    if y.len() > 0 {
        lemma_digits_positive(y);
    } else {
        assert(y =~= seq![]);
    }
    assert(digits_value(x) == n / 10 && digits_value(y) == n / 10);
    lemma_same_char(a.last(), b.last());
    if x.len() > 0 && y.len() > 0 {
        numerals_are_unique(x, y, n / 10);
    }
    assert(x.push(a.last()) =~= a);
    assert(y.push(b.last()) =~= b);
}

/// Two texts that go on alike with a number each, and something else behind it, have
/// the same number and the same rest.
pub proof fn lemma_digits_end(a: Seq<char>, b: Seq<char>, x: Seq<char>, y: Seq<char>)
    requires
        all_digits(a),
        all_digits(b),
        x.len() > 0 && !is_digit(x[0]),
        y.len() > 0 && !is_digit(y[0]),
        a + x == b + y,
    ensures
        a == b,
        x == y,
{
    let s = a + x;
    assert(s == b + y);
    if a.len() < b.len() {
        assert(s[a.len() as int] == x[0]);
        assert(s[a.len() as int] == b[a.len() as int]);
    }
    if b.len() < a.len() {
        assert(s[b.len() as int] == y[0]);
        assert(s[b.len() as int] == a[b.len() as int]);
    }
    assert(s.take(a.len() as int) =~= a);
    assert(s.take(b.len() as int) =~= b);
    assert(s.skip(a.len() as int) =~= x);
    assert(s.skip(b.len() as int) =~= y);
}

/// Two texts that begin alike go on alike.
pub proof fn lemma_same_rest(p: Seq<char>, x: Seq<char>, y: Seq<char>)
    requires
        p + x == p + y,
    ensures
        x == y,
{
    assert((p + x).skip(p.len() as int) =~= x);
    assert((p + y).skip(p.len() as int) =~= y);
}

/// White space only, or nothing.
pub open spec fn blank(s: Seq<char>) -> bool {
    forall|i: int| 0 <= i < s.len() ==> is_white_space(#[trigger] s[i])
}

/// One word: there is no white space in it.
pub open spec fn one_word(s: Seq<char>) -> bool {
    &&& s.len() > 0
    &&& forall|i: int| 0 <= i < s.len() ==> !is_white_space(#[trigger] s[i])
}

/// White space in front of a text is trimmed, and nothing else.
pub proof fn white_space_in_front_is_trimmed(lead: Seq<char>, s: Seq<char>)
    requires
        blank(lead),
        s.len() > 0 ==> !is_white_space(s[0]),
    ensures
        trim_start(lead + s) == s,
    decreases lead.len(),
{
    if lead.len() > 0 {
        assert((lead + s)[0] == lead[0]);
        assert((lead + s).skip(1) =~= lead.skip(1) + s);
        assert forall|i: int| 0 <= i < lead.skip(1).len() implies is_white_space(
            #[trigger] lead.skip(1)[i],
        ) by {
            assert(lead.skip(1)[i] == lead[i + 1]);
        }
        white_space_in_front_is_trimmed(lead.skip(1), s);
    } else {
        assert(lead + s =~= s);
    }
}

/// White space behind a text is trimmed, and nothing else.
pub proof fn white_space_behind_is_trimmed(s: Seq<char>, rest: Seq<char>)
    requires
        blank(rest),
        s.len() > 0 ==> !is_white_space(s.last()),
    ensures
        trim_end(s + rest) == s,
    decreases rest.len(),
{
    if rest.len() > 0 {
        assert((s + rest).last() == rest[rest.len() - 1]);
        assert((s + rest).drop_last() =~= s + rest.drop_last());
        assert forall|i: int| 0 <= i < rest.drop_last().len() implies is_white_space(
            #[trigger] rest.drop_last()[i],
        ) by {
            assert(rest.drop_last()[i] == rest[i]);
        }
        white_space_behind_is_trimmed(s, rest.drop_last());
    } else {
        assert(s + rest =~= s);
    }
}

/// Digits are read as the number that they stand for, with a plus sign in front or
/// without, as long as it fits; a text that holds anything else is no number.
pub proof fn digits_are_read(s: Seq<char>)
    ensures
        all_digits(s) && digits_value(s) <= u64::MAX ==> {
            &&& unsigned_number(s) == Some(digits_value(s) as u64)
            &&& unsigned_number(seq!['+'] + s) == Some(digits_value(s) as u64)
        },
        all_digits(s) && digits_value(s) > u64::MAX ==> unsigned_number(s) is None,
        forall|i: int|
            0 <= i < s.len() && !is_digit(#[trigger] s[i]) && (i > 0 || s[i] != '+')
                ==> unsigned_number(s) is None,
        s.len() == 0 ==> unsigned_number(s) is None,
{
    if s.len() > 0 {
        assert(all_digits(s) ==> is_digit(s[0]));
    }
    assert((seq!['+'] + s).skip(1) =~= s);
    assert forall|i: int|
        0 <= i < s.len() && !is_digit(#[trigger] s[i]) && (i > 0 || s[i] != '+') implies
        unsigned_number(s) is None by {
        if s[0] == '+' {
            assert(s.skip(1)[i - 1] == s[i]);
        }
    }
}

/// Nothing that is printed is white space; spaces, tabs and line breaks are.
pub proof fn printed_characters_are_no_white_space(c: char)
    ensures
        0x21 <= c as u32 <= 0x7e ==> !is_white_space(c),
        is_white_space(' ') && is_white_space('\t') && is_white_space('\n') && is_white_space(
            '\r',
        ),
{
}

/// A number is read from how it is written.
pub proof fn parse_inverts_decimal(
    n: u64,
    s: String,
    chars: &[char],
    from: usize,
    to: usize,
    r: Option<u64>,
)
    requires
        call_ensures(decimal, (n,), s),
        from <= to <= chars@.len(),
        chars@.subrange(from as int, to as int) == s@,
        call_ensures(parse_unsigned, (chars, from, to), r),
    ensures
        numeral(s@, n as nat),
        r == Some(n),
{
    decimal_is_numeral(n as nat);
    digits_are_read(s@);
}

/// White space are the six controls and blanks of ASCII, the next line, the no-break
/// spaces, the Ogham space, the spaces and separators of general punctuation, and the
/// ideographic space; and what is trimmed of characters is white space.
pub proof fn white_space_is_that_of_unicode(
    c: char,
    b: bool,
    chars: &[char],
    from: usize,
    to: usize,
    r: (usize, usize),
    i: int,
)
    requires
        call_ensures(white_space, (c,), b),
        from <= to <= chars@.len(),
        call_ensures(trim_bounds, (chars, from, to), r),
    ensures
        b <==> {
            let u = c as u32;
            if u < 0x80 {
                u == 32 || u == 9 || u == 10 || u == 11 || u == 12 || u == 13
            } else if u < 0x2000 {
                u == 0x85 || u == 0xa0 || u == 0x1680
            } else {
                u <= 0x200a || u == 0x2028 || u == 0x2029 || u == 0x202f || u == 0x205f || u
                    == 0x3000
            }
        },
        from <= r.0 <= r.1 <= to,
        r.0 < r.1 ==> !is_white_space(chars@[r.0 as int]) && !is_white_space(chars@[r.1 - 1]),
        r.0 == r.1 && from <= i < to ==> is_white_space(chars@[i]),
{
    let s = chars@.subrange(from as int, to as int);
    lemma_trimmed_ends(s);
    let t = chars@.subrange(r.0 as int, r.1 as int);
    assert(t == trimmed(s));
    if r.0 < r.1 {
        assert(t[0] == chars@[r.0 as int]);
        assert(t.last() == chars@[r.1 - 1]);
    }
    if r.0 == r.1 && from <= i < to {
        assert(s[i - from] == chars@[i]);
    }
}

/// What is left of a text has no white space at its ends, and there is something left if
/// not all of the text is white space.
proof fn lemma_trimmed_ends(s: Seq<char>)
    ensures
        trimmed(s).len() > 0 ==> !is_white_space(trimmed(s)[0]) && !is_white_space(
            trimmed(s).last(),
        ),
        trimmed(s).len() == 0 ==> forall|i: int|
            0 <= i < s.len() ==> is_white_space(#[trigger] s[i]),
{
    lemma_trim_start_first(s);
    let t = trim_start(s);
    lemma_trim_end_last(t);
    assert(trimmed(s) == trim_end(t));
}

proof fn lemma_trim_start_first(s: Seq<char>)
    ensures
        trim_start(s).len() > 0 ==> !is_white_space(trim_start(s)[0]),
        trim_start(s).len() == 0 ==> forall|i: int|
            0 <= i < s.len() ==> is_white_space(#[trigger] s[i]),
    decreases s.len(),
{
    if s.len() > 0 && is_white_space(s[0]) {
        lemma_trim_start_first(s.skip(1));
        assert forall|i: int| trim_start(s).len() == 0 && 0 <= i < s.len() implies is_white_space(
            #[trigger] s[i],
        ) by {
            if i > 0 {
                assert(s.skip(1)[i - 1] == s[i]);
            }
        }
    }
}

proof fn lemma_trim_end_last(s: Seq<char>)
    ensures
        trim_end(s).len() > 0 ==> !is_white_space(trim_end(s).last()) && trim_end(s)[0] == s[0],
        trim_end(s).len() == 0 ==> forall|i: int|
            0 <= i < s.len() ==> is_white_space(#[trigger] s[i]),
    decreases s.len(),
{
    if s.len() > 0 && is_white_space(s.last()) {
        lemma_trim_end_last(s.drop_last());
        assert forall|i: int| trim_end(s).len() == 0 && 0 <= i < s.len() implies is_white_space(
            #[trigger] s[i],
        ) by {
            if i < s.len() - 1 {
                assert(s.drop_last()[i] == s[i]);
            }
        }
    }
}

} // verus!
