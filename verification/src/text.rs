//! Text and byte helpers that the message formats are written with.
use vstd::prelude::*;
use vstd::slice::slice_subrange;
use vstd::string::*;
use vstd::utf8::*;

verus! {

/// The two bytes that end a line of a message head.
pub open spec fn crlf() -> Seq<u8> {
    seq![13u8, 10u8]
}

/// A character that may stand in a method or in a header name: the HTTP `tchar`.
pub open spec fn is_tchar(c: char) -> bool {
    ||| 'a' <= c <= 'z'
    ||| 'A' <= c <= 'Z'
    ||| '0' <= c <= '9'
    ||| c == '!' || c == '#' || c == '$' || c == '%' || c == '&' || c == '\''
    ||| c == '*' || c == '+' || c == '-' || c == '.'
    ||| c == '^' || c == '_' || c == '`' || c == '|' || c == '~'
}

/// The lower-case form of an ASCII capital, and every other character itself.
pub open spec fn lower_char(c: char) -> char {
    if 'A' <= c <= 'Z' {
        (c as u32 + 32) as char
    } else {
        c
    }
}

/// The lower-case form of an ASCII capital, and every other byte itself.
pub open spec fn lower_byte(b: u8) -> u8 {
    if 65 <= b <= 90 {
        (b + 32) as u8
    } else {
        b
    }
}

/// A non-empty run of `tchar`s.
pub open spec fn is_token(s: Seq<char>) -> bool {
    &&& s.len() > 0
    &&& forall|i: int| 0 <= i < s.len() ==> is_tchar(#[trigger] s[i])
}

/// The bytes with every ASCII capital replaced by its lower-case form.
pub open spec fn lower_bytes(s: Seq<u8>) -> Seq<u8> {
    s.map_values(|b: u8| lower_byte(b))
}

/// `needle` stands somewhere in `hay`.
pub open spec fn contains_bytes(hay: Seq<u8>, needle: Seq<u8>) -> bool {
    exists|at: int| occurs_at(hay, needle, at)
}

/// `needle` stands in `hay`, starting at `at`.
pub open spec fn occurs_at(hay: Seq<u8>, needle: Seq<u8>, at: int) -> bool {
    &&& 0 <= at
    &&& at + needle.len() <= hay.len()
    &&& hay.subrange(at, at + needle.len()) == needle
}

/// The character of a decimal digit.
pub open spec fn digit_char(d: nat) -> char {
    (48 + d) as char
}

/// A number in decimal notation, without leading zeros.
pub open spec fn decimal(n: nat) -> Seq<char>
    decreases n,
{
    if n < 10 {
        seq![digit_char(n)]
    } else {
        decimal(n / 10).push(digit_char(n % 10))
    }
}

/// A non-empty run of decimal digits.
pub open spec fn is_digits(s: Seq<u8>) -> bool {
    &&& s.len() > 0
    &&& forall|i: int| 0 <= i < s.len() ==> 48 <= #[trigger] s[i] <= 57
}

/// The number that a run of decimal digits stands for.
pub open spec fn digits_value(s: Seq<u8>) -> nat
    decreases s.len(),
{
    if s.len() == 0 {
        0
    } else {
        digits_value(s.drop_last()) * 10 + (s.last() - 48) as nat
    }
}

/// The text after one leading plus sign, or all of it where there is none.
pub open spec fn without_plus(s: Seq<u8>) -> Seq<u8> {
    if s.len() > 0 && s[0] == 43 {
        s.subrange(1, s.len() as int)
    } else {
        s
    }
}

/// The `usize` that a text stands for: decimal digits, after at most one plus sign, of a number
/// that fits.
pub open spec fn parsed_usize(s: Seq<u8>) -> Option<usize> {
    let digits = without_plus(s);
    if is_digits(digits) && digits_value(digits) <= usize::MAX {
        Some(digits_value(digits) as usize)
    } else {
        None
    }
}

/// Compares two texts.
pub fn text_equal(a: &str, b: &str) -> (equal: bool)
    ensures
        equal == (a@ == b@),
{
    a.to_owned() == b.to_owned()
}

/// Appends a byte slice to a byte vector.
pub fn push_bytes(out: &mut Vec<u8>, bytes: &[u8])
    ensures
        final(out)@ == old(out)@ + bytes@,
{
    out.extend_from_slice(bytes);
    assert(out@ =~= old(out)@ + bytes@);
}

/// Appends the UTF-8 form of a text to a byte vector.
pub fn push_text(out: &mut Vec<u8>, text: &str)
    ensures
        final(out)@ == old(out)@ + encode_utf8(text@),
{
    push_bytes(out, text.as_bytes());
}

/// The text of one decimal digit.
fn digit_text(d: usize) -> (text: &'static str)
    requires
        d < 10,
    ensures
        text@ == seq![digit_char(d as nat)],
{
    proof {
        reveal_strlit("0");
        reveal_strlit("1");
        reveal_strlit("2");
        reveal_strlit("3");
        reveal_strlit("4");
        reveal_strlit("5");
        reveal_strlit("6");
        reveal_strlit("7");
        reveal_strlit("8");
        reveal_strlit("9");
    }
    let text = if d == 0 {
        "0"
    } else if d == 1 {
        "1"
    } else if d == 2 {
        "2"
    } else if d == 3 {
        "3"
    } else if d == 4 {
        "4"
    } else if d == 5 {
        "5"
    } else if d == 6 {
        "6"
    } else if d == 7 {
        "7"
    } else if d == 8 {
        "8"
    } else {
        "9"
    };
    assert(text@ =~= seq![digit_char(d as nat)]);
    text
}

/// Appends a number in decimal notation to a text.
pub fn push_decimal(out: &mut String, n: usize)
    ensures
        final(out)@ == old(out)@ + decimal(n as nat),
    decreases n,
{
    if n >= 10 {
        push_decimal(out, n / 10);
    }
    let digit = digit_text(n % 10);
    out.append(digit);
    assert(out@ =~= old(out)@ + decimal(n as nat));
}

/// A number in decimal notation.
pub fn decimal_text(n: usize) -> (text: String)
    ensures
        text@ == decimal(n as nat),
{
    let mut text = String::new();
    push_decimal(&mut text, n);
    assert(text@ =~= decimal(n as nat));
    text
}

/// Decimal notation holds digits only, so its UTF-8 form has one byte for each of them.
pub proof fn lemma_decimal_bytes(n: nat)
    ensures
        decimal(n).len() > 0,
        is_ascii_chars(decimal(n)),
        is_digits(encode_utf8(decimal(n))),
        encode_utf8(decimal(n)).len() == decimal(n).len(),
        digits_value(encode_utf8(decimal(n))) == n,
    decreases n,
{
    let s = decimal(n);
    if n >= 10 {
        let p = decimal(n / 10);
        lemma_decimal_bytes(n / 10);
        assert(s.drop_last() =~= p);
        assert forall|i: int| 0 <= i < s.len() implies '0' <= #[trigger] s[i] <= '9' by {
            if i < p.len() {
                is_ascii_chars_encode_utf8(p);
                assert(s[i] == p[i]);
                assert(48 <= encode_utf8(p)[i] <= 57);
                assert(p[i] as u8 == encode_utf8(p)[i]);
            }
        }
        is_ascii_chars_encode_utf8(s);
        is_ascii_chars_encode_utf8(p);
        let b = encode_utf8(s);
        assert(b.drop_last() =~= encode_utf8(p)) by {
            assert forall|i: int| 0 <= i < p.len() implies b.drop_last()[i]
                == encode_utf8(p)[i] by {
                assert(s[i] == p[i]);
                assert(s[i] as u8 == b[i]);
                assert(p[i] as u8 == encode_utf8(p)[i]);
            }
        }
        assert(s[s.len() - 1] as u8 == b[s.len() - 1]);
        assert(b.last() == 48 + n % 10);
        assert forall|i: int| 0 <= i < b.len() implies 48 <= #[trigger] b[i] <= 57 by {
            assert('0' <= s[i] <= '9');
            assert(s[i] as u8 == b[i]);
        }
    } else {
        assert(is_ascii_chars(s));
        is_ascii_chars_encode_utf8(s);
        let b = encode_utf8(s);
        assert(s[0] as u8 == b[0]);
        assert(b.drop_last() =~= Seq::<u8>::empty());
        assert(digits_value(b.drop_last()) == 0);
    }
}

/// Reading back what decimal notation wrote gives the number.
pub proof fn law_decimal_reads_back(n: usize)
    ensures
        parsed_usize(encode_utf8(decimal(n as nat))) == Some(n),
{
    lemma_decimal_bytes(n as nat);
    let b = encode_utf8(decimal(n as nat));
    assert(48 <= b[0] <= 57);
}

/// Whether `needle` stands in `hay` at the given position.
fn matches_at(hay: &[u8], needle: &[u8], at: usize) -> (found: bool)
    requires
        at + needle@.len() <= hay@.len(),
    ensures
        found == occurs_at(hay@, needle@, at as int),
{
    let end: usize = hay.len();
    let mut i: usize = 0;
    while i < needle.len()
        invariant
            end == hay@.len(),
            at + needle@.len() <= end,
            i <= needle@.len(),
            forall|j: int| 0 <= j < i ==> hay@[at + j] == needle@[j],
        decreases needle@.len() - i,
    {
        if hay[at + i] != needle[i] {
            assert(hay@.subrange(at as int, at + needle@.len())[i as int] != needle@[i as int]);
            return false;
        }
        i = i + 1;
    }
    assert(hay@.subrange(at as int, at + needle@.len()) =~= needle@);
    true
}

/// Whether `needle` stands somewhere in `hay`.
pub fn contains(hay: &[u8], needle: &[u8]) -> (found: bool)
    ensures
        found == contains_bytes(hay@, needle@),
{
    if needle.len() > hay.len() {
        return false;
    }
    let last: usize = hay.len() - needle.len();
    let mut at: usize = 0;
    while at <= last
        invariant
            needle@.len() <= hay@.len(),
            last == hay@.len() - needle@.len(),
            at <= last + 1,
            forall|j: int| 0 <= j < at ==> !occurs_at(hay@, needle@, j),
        decreases last + 1 - at,
    {
        if matches_at(hay, needle, at) {
            return true;
        }
        if at == last {
            assert forall|j: int| !occurs_at(hay@, needle@, j) by {
                if 0 <= j && j + needle@.len() <= hay@.len() {
                    assert(j <= at);
                }
            }
            return false;
        }
        at = at + 1;
    }
    false
}

/// The bytes with every ASCII capital replaced by its lower-case form.
pub fn to_lower(bytes: &[u8]) -> (lower: Vec<u8>)
    ensures
        lower@ == lower_bytes(bytes@),
{
    let mut lower: Vec<u8> = Vec::new();
    let mut i: usize = 0;
    while i < bytes.len()
        invariant
            i <= bytes@.len(),
            lower@ =~= lower_bytes(bytes@.take(i as int)),
        decreases bytes@.len() - i,
    {
        let b: u8 = bytes[i];
        let l: u8 = if 65 <= b && b <= 90 {
            b + 32
        } else {
            b
        };
        lower.push(l);
        i = i + 1;
    }
    assert(bytes@.take(bytes@.len() as int) =~= bytes@);
    lower
}

proof fn lemma_digits_value_prefix(s: Seq<u8>, n: int)
    requires
        0 <= n <= s.len(),
        is_digits(s),
    ensures
        digits_value(s.take(n)) <= digits_value(s),
    decreases s.len() - n,
{
    if n == s.len() {
        assert(s.take(n) =~= s);
    } else {
        lemma_digits_value_prefix(s, n + 1);
        assert(s.take(n + 1).drop_last() =~= s.take(n));
        assert(s.take(n + 1).last() == s[n]);
    }
}

/// Reads a `usize` in decimal notation; one leading plus sign is allowed.
pub fn parse_usize(text: &[u8]) -> (number: Option<usize>)
    ensures
        number == parsed_usize(text@),
{
    let start: usize = if text.len() > 0 && text[0] == 43 {
        1
    } else {
        0
    };
    let digits = slice_subrange(text, start, text.len());
    assert(digits@ =~= without_plus(text@));
    if digits.len() == 0 {
        return None;
    }
    let mut value: usize = 0;
    let mut i: usize = 0;
    assert(digits@.take(0) =~= Seq::<u8>::empty());
    while i < digits.len()
        invariant
            i <= digits@.len(),
            digits@ == without_plus(text@),
            digits@.len() > 0,
            forall|j: int| 0 <= j < i ==> 48 <= #[trigger] digits@[j] <= 57,
            value == digits_value(digits@.take(i as int)),
        decreases digits@.len() - i,
    {
        let b: u8 = digits[i];
        if b < 48 || b > 57 {
            assert(!is_digits(digits@)) by {
                assert(!(48 <= digits@[i as int] <= 57));
            }
            return None;
        }
        proof {
            let next = digits@.take(i + 1);
            assert(next.drop_last() =~= digits@.take(i as int));
            assert(next.last() == b);
            assert(digits_value(next) == value * 10 + (b - 48));
            if is_digits(digits@) {
                lemma_digits_value_prefix(digits@, i + 1);
            }
        }
        let digit: usize = (b - 48) as usize;
        let scaled: usize = match value.checked_mul(10) {
            Some(scaled) => scaled,
            None => {
                return None;
            },
        };
        value = match scaled.checked_add(digit) {
            Some(sum) => sum,
            None => {
                return None;
            },
        };
        i = i + 1;
    }
    assert(digits@.take(digits@.len() as int) =~= digits@);
    Some(value)
}

/// Lower case changes each of the capitals `A` to `Z` into the letter 32 places behind it, and no
/// other byte.
pub proof fn law_lower_case_changes_capitals_alone(s: Seq<u8>, i: int)
    requires
        0 <= i < s.len(),
    ensures
        lower_bytes(s).len() == s.len(),
        65 <= s[i] <= 90 ==> lower_bytes(s)[i] == s[i] + 32,
        !(65 <= s[i] <= 90) ==> lower_bytes(s)[i] == s[i],
        lower_bytes(lower_bytes(s)) == lower_bytes(s),
{
    let once = lower_bytes(s);
    assert(lower_bytes(once) =~= once) by {
        assert forall|j: int| 0 <= j < once.len() implies lower_byte(#[trigger] once[j])
            == once[j] by {
            assert(once[j] == lower_byte(s[j]));
        }
    }
}

/// Whatever stands around a text, the text is found in it; and what is found in a text parts the
/// text into what stands before it and what stands behind it.
pub proof fn law_found_is_what_stands_there(
    before: Seq<u8>,
    needle: Seq<u8>,
    behind: Seq<u8>,
    hay: Seq<u8>,
)
    ensures
        contains_bytes(before + needle + behind, needle),
        contains_bytes(hay, needle) ==> exists|at: int|
            0 <= at && at + needle.len() <= hay.len() && hay == #[trigger] hay.take(at) + needle
                + hay.skip(at + needle.len()),
{
    let all = before + needle + behind;
    let at = before.len() as int;
    assert(all.subrange(at, at + needle.len()) =~= needle);
    assert(occurs_at(all, needle, at));
    if contains_bytes(hay, needle) {
        let at = choose|at: int| occurs_at(hay, needle, at);
        assert(hay =~= hay.take(at) + hay.subrange(at, at + needle.len()) + hay.skip(
            at + needle.len(),
        ));
    }
}

/// A number is written with the digits of its tenth part and its last digit behind them, and read
/// the same way.
pub proof fn law_decimal_goes_by_tens(tens: nat, digit: nat, s: Seq<u8>, b: u8)
    requires
        digit < 10,
        48 <= b <= 57,
    ensures
        decimal(digit) == seq![(48 + digit) as char],
        tens > 0 ==> decimal(10 * tens + digit) == decimal(tens).push((48 + digit) as char),
        digits_value(Seq::<u8>::empty()) == 0,
        digits_value(s.push(b)) == 10 * digits_value(s) + (b - 48),
{
    assert((10 * tens + digit) / 10 == tens);
    assert((10 * tens + digit) % 10 == digit);
    assert(s.push(b).drop_last() =~= s);
}

/// Only digits, behind at most one plus sign, are read as a number, and the number is theirs.
pub proof fn law_only_digits_are_a_number(s: Seq<u8>, i: int)
    requires
        0 <= i < s.len(),
    ensures
        parsed_usize(s) is Some ==> 48 <= s[i] <= 57 || i == 0 && s[0] == 43 && s.len() > 1,
        (forall|j: int| 0 <= j < s.len() ==> 48 <= #[trigger] s[j] <= 57) && digits_value(s)
            <= usize::MAX ==> parsed_usize(s) == Some(digits_value(s) as usize),
        parsed_usize(Seq::<u8>::empty()) is None,
{
    if parsed_usize(s) is Some {
        let digits = without_plus(s);
        if s[0] == 43 {
            if i > 0 {
                assert(digits[i - 1] == s[i]);
            }
        } else {
            assert(digits[i] == s[i]);
        }
    }
    if forall|j: int| 0 <= j < s.len() ==> 48 <= #[trigger] s[j] <= 57 {
        assert(48 <= s[0] <= 57);
    }
}

} // verus!
