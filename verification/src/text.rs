//! Text helpers: decimal numerals, joining, trimming and searching.

use vstd::prelude::*;
use vstd::string::*;

verus! {

/// The character of a decimal digit.
pub open spec fn digit(d: nat) -> char {
    if d == 0 {
        '0'
    } else if d == 1 {
        '1'
    } else if d == 2 {
        '2'
    } else if d == 3 {
        '3'
    } else if d == 4 {
        '4'
    } else if d == 5 {
        '5'
    } else if d == 6 {
        '6'
    } else if d == 7 {
        '7'
    } else if d == 8 {
        '8'
    } else {
        '9'
    }
}

/// The decimal numeral of a natural number, without leading zeros.
pub open spec fn decimal(n: nat) -> Seq<char>
    decreases n,
{
    if n < 10 {
        seq![digit(n)]
    } else {
        decimal(n / 10).push(digit(n % 10))
    }
}

/// The decimal numeral of an integer, with a leading minus sign where it is negative.
pub open spec fn signed_decimal(n: int) -> Seq<char> {
    if n < 0 {
        seq!['-'] + decimal((-n) as nat)
    } else {
        decimal(n as nat)
    }
}

/// Appends the character of a decimal digit.
fn push_digit(out: &mut String, d: u64)
    requires
        d < 10,
    ensures
        final(out)@ == old(out)@.push(digit(d as nat)),
{
    proof {
        reveal_strlit("0");
        reveal_strlit("1");
        reveal_strlit("2");
        reveal_strlit("3");
        reveal_strlit("4");
        reveal_strlit("5");
        reveal_strlit("6");
        reveal_strlit("7");
        reveal_strlit("8");
        reveal_strlit("9");
    }
    let ghost before = out@;
    let text: &str = match d {
        0 => "0",
        1 => "1",
        2 => "2",
        3 => "3",
        4 => "4",
        5 => "5",
        6 => "6",
        7 => "7",
        8 => "8",
        _ => "9",
    };
    out.append(text);
    assert(out@ =~= before.push(digit(d as nat)));
}

/// Appends the decimal numeral of `n`.
pub fn push_decimal(out: &mut String, n: u64)
    ensures
        final(out)@ == old(out)@ + decimal(n as nat),
    decreases n,
{
    let ghost before = out@;
    if n >= 10 {
        push_decimal(out, n / 10);
    }
    push_digit(out, n % 10);
    assert(out@ =~= before + decimal(n as nat));
}

/// Appends the decimal numeral of `n`, signed.
pub fn push_signed_decimal(out: &mut String, n: i64)
    ensures
        final(out)@ == old(out)@ + signed_decimal(n as int),
{
    let ghost before = out@;
    if n < 0 {
        proof {
            reveal_strlit("-");
        }
        out.append("-");
        let magnitude: u64 = (-(n as i128)) as u64;
        push_decimal(out, magnitude);
        assert(out@ =~= before + signed_decimal(n as int));
    } else {
        push_decimal(out, n as u64);
    }
}

/// Two texts, one after the other.
pub fn join(a: &str, b: &str) -> (r: String)
    ensures
        r@ == a@ + b@,
{
    let mut out: String = a.to_owned();
    out.append(b);
    out
}

/// Whether two texts are equal.
pub fn same(a: &str, b: &str) -> (r: bool)
    ensures
        r == (a@ == b@),
{
    a.to_owned() == b.to_owned()
}

/// The characters with the Unicode property White_Space.
pub open spec fn is_space(c: char) -> bool {
    ||| '\u{9}' <= c <= '\u{d}'
    ||| c == ' '
    ||| c == '\u{85}'
    ||| c == '\u{a0}'
    ||| c == '\u{1680}'
    ||| '\u{2000}' <= c <= '\u{200a}'
    ||| c == '\u{2028}'
    ||| c == '\u{2029}'
    ||| c == '\u{202f}'
    ||| c == '\u{205f}'
    ||| c == '\u{3000}'
}

/// Whether a character has the Unicode property White_Space.
pub fn is_whitespace(c: char) -> (r: bool)
    ensures
        r == is_space(c),
{
    let code: u32 = c as u32;
    (0x9 <= code && code <= 0xd) || code == 0x20 || code == 0x85 || code == 0xa0 || code == 0x1680
        || (0x2000 <= code && code <= 0x200a) || code == 0x2028 || code == 0x2029 || code == 0x202f
        || code == 0x205f || code == 0x3000
}

/// `s` without its leading white space.
pub open spec fn trimmed_front(s: Seq<char>) -> Seq<char>
    decreases s.len(),
{
    if s.len() > 0 && is_space(s[0]) {
        trimmed_front(s.skip(1))
    } else {
        s
    }
}

/// `s` without its trailing white space.
pub open spec fn trimmed_back(s: Seq<char>) -> Seq<char>
    decreases s.len(),
{
    if s.len() > 0 && is_space(s.last()) {
        trimmed_back(s.drop_last())
    } else {
        s
    }
}

/// `s` without the white space around it.
pub open spec fn trimmed(s: Seq<char>) -> Seq<char> {
    trimmed_back(trimmed_front(s))
}

/// The characters of a text.
fn letters(s: &str) -> (r: Vec<char>)
    ensures
        r@ == s@,
{
    let mut out: Vec<char> = Vec::new();
    for c in it: s.chars()
        invariant
            out@ == it.seq().take(it.index()),
    {
        out.push(c);
    }
    out
}

/// A text without the white space around it.
pub fn trim(s: &str) -> (r: &str)
    ensures
        r@ == trimmed(s@),
{
    let chars: Vec<char> = letters(s);
    let mut from: usize = 0;
    assert(chars@.skip(0) =~= chars@);
    while from < chars.len() && is_whitespace(chars[from])
        invariant
            from <= chars@.len(),
            trimmed_front(chars@) == trimmed_front(chars@.skip(from as int)),
        decreases chars@.len() - from,
    {
        assert(chars@.skip(from as int).skip(1) =~= chars@.skip(from + 1));
        from += 1;
    }
    let mut to: usize = chars.len();
    while from < to && is_whitespace(chars[to - 1])
        invariant
            from <= to <= chars@.len(),
            trimmed_back(chars@.skip(from as int)) == trimmed_back(
                chars@.subrange(from as int, to as int),
            ),
        decreases to,
    {
        let ghost part = chars@.subrange(from as int, to as int);
        assert(part.drop_last() =~= chars@.subrange(from as int, to - 1));
        to -= 1;
    }
    s.substring_char(from, to)
}

/// Whether a text is white space throughout.
pub fn is_blank(s: &str) -> (r: bool)
    ensures
        r == (trimmed(s@).len() == 0),
{
    trim(s).unicode_len() == 0
}

/// A text holds nothing but white space exactly when nothing is left of it after trimming.
pub proof fn blank_is_all_space(s: Seq<char>)
    ensures
        (trimmed(s).len() == 0) == (forall|i: int| 0 <= i < s.len() ==> is_space(#[trigger] s[i])),
    decreases s.len(),
{
    if s.len() > 0 {
        if is_space(s[0]) {
            let rest = s.skip(1);
            blank_is_all_space(rest);
            assert(forall|i: int| 0 <= i < rest.len() ==> #[trigger] rest[i] == s[i + 1]);
            assert(forall|i: int| 1 <= i < s.len() ==> #[trigger] s[i] == rest[i - 1]);
        } else {
            lemma_trimmed_back_keeps(s, 0);
        }
    }
}

/// Trimming the end keeps everything up to a character that is no white space.
proof fn lemma_trimmed_back_keeps(s: Seq<char>, i: int)
    requires
        0 <= i < s.len(),
        !is_space(s[i]),
    ensures
        trimmed_back(s).len() > i,
    decreases s.len(),
{
    if is_space(s.last()) {
        lemma_trimmed_back_keeps(s.drop_last(), i);
    }
}

/// `part` stands in `s` from `at` on.
pub open spec fn stands_at(s: Seq<char>, part: Seq<char>, at: int) -> bool {
    0 <= at && at + part.len() <= s.len() && s.subrange(at, at + part.len()) == part
}

/// `part` stands somewhere in `s`.
pub open spec fn has_part(s: Seq<char>, part: Seq<char>) -> bool {
    exists|at: int| stands_at(s, part, at)
}

/// Whether `part` stands somewhere in `s`.
pub fn contains(s: &str, part: &str) -> (r: bool)
    ensures
        r == has_part(s@, part@),
{
    let text: Vec<char> = letters(s);
    let wanted: Vec<char> = letters(part);
    let n: usize = text.len();
    let m: usize = wanted.len();
    if m > n {
        return false;
    }
    let mut at: usize = 0;
    while at <= n - m
        invariant
            text@ == s@,
            wanted@ == part@,
            n == text@.len(),
            m == wanted@.len(),
            m <= n,
            at <= n - m + 1,
            forall|k: int| 0 <= k < at ==> !#[trigger] stands_at(s@, part@, k),
        decreases n - m + 1 - at,
    {
        let mut i: usize = 0;
        while i < m && text[at + i] == wanted[i]
            invariant
                n == text@.len(),
                m == wanted@.len(),
                i <= m,
                at + m <= n,
                forall|k: int| 0 <= k < i ==> text@[at + k] == #[trigger] wanted@[k],
            decreases m - i,
        {
            i += 1;
        }
        if i == m {
            assert(s@.subrange(at as int, at + part@.len()) =~= part@);
            assert(stands_at(s@, part@, at as int));
            return true;
        }
        assert(!stands_at(s@, part@, at as int)) by {
            let there = s@.subrange(at as int, at + part@.len());
            assert(there[i as int] == text@[at + i]);
        }
        if at == n - m {
            return false;
        }
        at += 1;
    }
    false
}

/// The number that a decimal digit stands for.
pub open spec fn digit_value(c: char) -> Option<nat> {
    if '0' <= c <= '9' {
        Some((c as int - '0' as int) as nat)
    } else {
        None
    }
}

/// The number that a decimal digit stands for.
fn digit_of(c: char) -> (r: Option<u32>)
    ensures
        match r {
            Some(d) => d < 10 && digit_value(c) == Some(d as nat),
            None => digit_value(c) is None,
        },
{
    let code: u32 = c as u32;
    if 0x30 <= code && code <= 0x39 {
        Some(code - 0x30)
    } else {
        None
    }
}

/// The number that decimal digits stand for; none where a character is no digit.
pub open spec fn numeral(s: Seq<char>) -> Option<nat>
    decreases s.len(),
{
    if s.len() == 0 {
        Some(0)
    } else {
        match numeral(s.drop_last()) {
            Some(n) => match digit_value(s.last()) {
                Some(d) => Some(n * 10 + d),
                None => None,
            },
            None => None,
        }
    }
}

/// The digits of a text, without the sign before them.
pub open spec fn unsigned(s: Seq<char>) -> Seq<char> {
    if s.len() > 0 && (s[0] == '-' || s[0] == '+') {
        s.skip(1)
    } else {
        s
    }
}

/// The 64-bit integer that a text stands for: digits after an optional sign, and nothing else.
pub open spec fn integer(s: Seq<char>) -> Option<int> {
    let digits = unsigned(s);
    if digits.len() == 0 {
        None
    } else {
        match numeral(digits) {
            Some(n) => {
                let v = if s[0] == '-' {
                    -(n as int)
                } else {
                    n as int
                };
                if i64::MIN <= v <= i64::MAX {
                    Some(v)
                } else {
                    None
                }
            },
            None => None,
        }
    }
}

/// More digits do not make a number smaller.
proof fn lemma_numeral_grows(s: Seq<char>, n: int)
    requires
        0 <= n <= s.len(),
    ensures
        match (numeral(s), numeral(s.take(n))) {
            (Some(v), Some(u)) => u <= v,
            (Some(_), None) => false,
            _ => true,
        },
    decreases s.len(),
{
    if n == s.len() {
        assert(s.take(n) =~= s);
    } else {
        lemma_numeral_grows(s.drop_last(), n);
        assert(s.drop_last().take(n) =~= s.take(n));
    }
}

/// The 64-bit integer that a text stands for.
pub fn parse_i64(s: &str) -> (r: Option<i64>)
    ensures
        match r {
            Some(v) => integer(s@) == Some(v as int),
            None => integer(s@) is None,
        },
{
    let chars: Vec<char> = letters(s);
    let n: usize = chars.len();
    let negative: bool = n > 0 && chars[0] == '-';
    let from: usize = if n > 0 && (chars[0] == '-' || chars[0] == '+') {
        1
    } else {
        0
    };
    let ghost digits = unsigned(s@);
    assert(digits =~= chars@.skip(from as int));
    if from == n {
        return None;
    }
    let mut value: i128 = 0;
    let mut i: usize = from;
    while i < n
        invariant
            from <= i <= n,
            n == chars@.len(),
            chars@ == s@,
            digits == unsigned(s@),
            digits == chars@.skip(from as int),
            digits.len() > 0,
            0 <= value <= 0x8000000000000000,
            numeral(digits.take(i - from)) == Some(value as nat),
        decreases n - i,
    {
        let digit: Option<u32> = digit_of(chars[i]);
        proof {
            let more = digits.take(i + 1 - from);
            assert(more.drop_last() =~= digits.take(i - from));
            assert(more.last() == chars@[i as int]);
            lemma_numeral_grows(digits, i + 1 - from);
        }
        match digit {
            Some(d) => {
                value = value * 10 + d as i128;
            },
            None => {
                return None;
            },
        }
        if value > 0x8000000000000000 {
            return None;
        }
        i += 1;
    }
    assert(digits.take(n - from) =~= digits);
    if negative {
        return Some((-value) as i64);
    }
    if value > 0x7FFFFFFFFFFFFFFF {
        return None;
    }
    Some(value as i64)
}

/// The texts of tokens, one after the other.
pub open spec fn joined<T>(ids: Seq<T>, piece: spec_fn(T) -> Seq<char>) -> Seq<char>
    decreases ids.len(),
{
    if ids.len() == 0 {
        Seq::empty()
    } else {
        joined(ids.drop_last(), piece) + piece(ids.last())
    }
}

/// A decimal numeral ends with the last digit of its number, and begins with the numeral of the
/// rest. It has no leading zero.
pub proof fn numerals_spell_their_number(n: nat)
    ensures
        decimal(n).len() > 0,
        decimal(n).last() as int == 48 + n % 10,
        n < 10 ==> decimal(n).len() == 1,
        n >= 10 ==> decimal(n).drop_last() == decimal(n / 10),
        n > 0 ==> decimal(n)[0] as int > 48,
    decreases n,
{
    if n >= 10 {
        numerals_spell_their_number(n / 10);
        assert(decimal(n).drop_last() =~= decimal(n / 10));
        assert(decimal(n)[0] == decimal(n / 10)[0]);
    }
}

/// The number that a numeral was written for is read back from it.
pub proof fn numerals_are_read_back(n: nat)
    ensures
        numeral(decimal(n)) == Some(n),
    decreases n,
{
    numerals_spell_their_number(n);
    let s = decimal(n);
    assert(numeral(Seq::<char>::empty()) == Some(0nat));
    if n >= 10 {
        numerals_are_read_back(n / 10);
    } else {
        assert(s.drop_last() =~= Seq::<char>::empty());
    }
}

/// Digits are read from the left, each a tenth of the one before it; a text with any other
/// character is no number.
pub proof fn digits_are_read_in_order(s: Seq<char>, c: char)
    ensures
        numeral(Seq::<char>::empty()) == Some(0nat),
        numeral(s) is None ==> numeral(s.push(c)) is None,
        !(48 <= c as int <= 57) ==> numeral(s.push(c)) is None,
        numeral(s) is Some && 48 <= c as int <= 57 ==> numeral(s.push(c)) == Some(
            (numeral(s)->0 * 10 + (c as int - 48)) as nat,
        ),
{
    assert(s.push(c).drop_last() =~= s);
}

/// An integer is digits, of which there is at least one, after a sign or none, where 64 bits hold
/// it; a sign alone or a second one is no integer.
pub proof fn integers_are_signed_digits(s: Seq<char>)
    ensures
        integer(Seq::<char>::empty()) is None,
        integer(seq!['-']) is None,
        integer(seq!['+']) is None,
        s.len() > 0 && s[0] != '-' && s[0] != '+' ==> integer(s) == (match numeral(s) {
            Some(n) => if n <= 0x7FFFFFFFFFFFFFFF {
                Some(n as int)
            } else {
                None
            },
            None => None,
        }),
        s.len() > 0 ==> integer(seq!['+'] + s) == (match numeral(s) {
            Some(n) => if n <= 0x7FFFFFFFFFFFFFFF {
                Some(n as int)
            } else {
                None
            },
            None => None,
        }),
        s.len() > 0 ==> integer(seq!['-'] + s) == (match numeral(s) {
            Some(n) => if n <= 0x8000000000000000 {
                Some(-(n as int))
            } else {
                None
            },
            None => None,
        }),
{
    assert((seq!['+'] + s).skip(1) =~= s);
    assert((seq!['-'] + s).skip(1) =~= s);
    assert(seq!['+'].skip(1) =~= Seq::<char>::empty());
    assert(seq!['-'].skip(1) =~= Seq::<char>::empty());
}

/// What an integer was written as is read as that integer.
pub proof fn written_integers_are_read_back(n: int)
    requires
        i64::MIN <= n <= i64::MAX,
    ensures
        integer(signed_decimal(n)) == Some(n),
        n >= 0 ==> signed_decimal(n) == decimal(n as nat),
        n < 0 ==> signed_decimal(n) == seq!['-'] + decimal((-n) as nat),
{
    let m: nat = if n < 0 {
        (-n) as nat
    } else {
        n as nat
    };
    numerals_are_read_back(m);
    numerals_spell_their_number(m);
    integers_are_signed_digits(decimal(m));
    lemma_digit_first(m);
}

/// A numeral begins with a digit.
proof fn lemma_digit_first(n: nat)
    ensures
        48 <= decimal(n)[0] as int <= 57,
    decreases n,
{
    numerals_spell_their_number(n);
    if n >= 10 {
        lemma_digit_first(n / 10);
        assert(decimal(n)[0] == decimal(n / 10)[0]);
    }
}

/// The white space characters, by their codes.
pub proof fn white_space_has_these_codes(c: char)
    ensures
        is_space(c) <==> {
            let code = c as int;
            ||| 9 <= code <= 13
            ||| code == 32
            ||| code == 133
            ||| code == 160
            ||| code == 5760
            ||| 8192 <= code <= 8202
            ||| code == 8232
            ||| code == 8233
            ||| code == 8239
            ||| code == 8287
            ||| code == 12288
        },
{
}

proof fn lemma_front(s: Seq<char>) -> (n: int)
    ensures
        0 <= n <= s.len(),
        trimmed_front(s) == s.skip(n),
        forall|i: int| 0 <= i < n ==> is_space(#[trigger] s[i]),
        n < s.len() ==> !is_space(s[n]),
    decreases s.len(),
{
    if s.len() > 0 && is_space(s[0]) {
        let rest = s.skip(1);
        let m = lemma_front(rest);
        assert(rest.skip(m) =~= s.skip(m + 1));
        assert forall|i: int| 0 <= i < m + 1 implies is_space(#[trigger] s[i]) by {
            if i > 0 {
                assert(rest[i - 1] == s[i]);
            }
        }
        if m + 1 < s.len() {
            assert(rest[m] == s[m + 1]);
        }
        m + 1
    } else {
        assert(s.skip(0) =~= s);
        0
    }
}

proof fn lemma_back(s: Seq<char>) -> (n: int)
    ensures
        0 <= n <= s.len(),
        trimmed_back(s) == s.take(n),
        forall|i: int| n <= i < s.len() ==> is_space(#[trigger] s[i]),
        n > 0 ==> !is_space(s[n - 1]),
    decreases s.len(),
{
    if s.len() > 0 && is_space(s.last()) {
        let rest = s.drop_last();
        let m = lemma_back(rest);
        assert(rest.take(m) =~= s.take(m));
        assert forall|i: int| m <= i < s.len() implies is_space(#[trigger] s[i]) by {
            if i < rest.len() {
                assert(rest[i] == s[i]);
            }
        }
        if m > 0 {
            assert(rest[m - 1] == s[m - 1]);
        }
        m
    } else {
        assert(s.take(s.len() as int) =~= s);
        s.len() as int
    }
}

/// Trimming takes white space away from both ends, all of it and nothing else: what is left is a
/// part of the text, around which there is white space alone, and which neither begins nor ends
/// with any.
pub proof fn trimming_takes_white_ends(s: Seq<char>) -> (r: (int, int))
    ensures
        0 <= r.0 <= r.1 <= s.len(),
        trimmed(s) == s.subrange(r.0, r.1),
        forall|i: int| 0 <= i < r.0 || r.1 <= i < s.len() ==> is_space(#[trigger] s[i]),
        r.0 < r.1 ==> !is_space(s[r.0]) && !is_space(s[r.1 - 1]),
{
    let a = lemma_front(s);
    let f = s.skip(a);
    let b = lemma_back(f);
    assert(f.take(b) =~= s.subrange(a, a + b));
    assert forall|i: int| 0 <= i < a || a + b <= i < s.len() implies is_space(#[trigger] s[i]) by {
        if i >= a + b {
            assert(f[i - a] == s[i]);
        }
    }
    if b > 0 {
        assert(f[b - 1] == s[a + b - 1]);
        assert(f[0] == s[a]);
    }
    (a, a + b)
}

/// A text has a part only where all characters of the part stand one after the other in it.
pub proof fn found_parts_stand_in_the_text(s: Seq<char>, part: Seq<char>) -> (at: int)
    requires
        has_part(s, part),
    ensures
        0 <= at <= s.len() - part.len(),
        forall|k: int| 0 <= k < part.len() ==> s[at + k] == #[trigger] part[k],
{
    let at = choose|at: int| stands_at(s, part, at);
    assert forall|k: int| 0 <= k < part.len() implies s[at + k] == #[trigger] part[k] by {
        assert(s.subrange(at, at + part.len())[k] == s[at + k]);
    }
    at
}

/// A part is found wherever its characters stand one after the other.
pub proof fn standing_parts_are_found(s: Seq<char>, part: Seq<char>, at: int)
    requires
        0 <= at <= s.len() - part.len(),
        forall|k: int| 0 <= k < part.len() ==> s[at + k] == #[trigger] part[k],
    ensures
        has_part(s, part),
{
    assert(s.subrange(at, at + part.len()) =~= part);
    assert(stands_at(s, part, at));
}

/// The texts of tokens grow by the text of each further token.
pub proof fn texts_are_joined_in_order<T>(ids: Seq<T>, id: T, piece: spec_fn(T) -> Seq<char>)
    ensures
        joined(Seq::<T>::empty(), piece) == Seq::<char>::empty(),
        joined(ids.push(id), piece) == joined(ids, piece) + piece(id),
{
    assert(ids.push(id).drop_last() =~= ids);
}

} // verus!
