//! The resident set size, as the system reports it in text.

use crate::text::{decimal, digit};
use vstd::prelude::*;
use vstd::string::*;

verus! {

/// The characters that separate words.
pub open spec fn is_white(c: char) -> bool {
    ||| 0x9 <= c as u32 <= 0xd
    ||| c as u32 == 0x20
    ||| c as u32 == 0x85
    ||| c as u32 == 0xa0
    ||| c as u32 == 0x1680
    ||| 0x2000 <= c as u32 <= 0x200a
    ||| c as u32 == 0x2028
    ||| c as u32 == 0x2029
    ||| c as u32 == 0x202f
    ||| c as u32 == 0x205f
    ||| c as u32 == 0x3000
}

fn is_white_char(c: char) -> (r: bool)
    ensures
        r == is_white(c),
{
    let u = c as u32;
    (0x9 <= u && u <= 0xd) || u == 0x20 || u == 0x85 || u == 0xa0 || u == 0x1680 || (0x2000 <= u
        && u <= 0x200a) || u == 0x2028 || u == 0x2029 || u == 0x202f || u == 0x205f || u == 0x3000
}

pub open spec fn is_digit_char(c: char) -> bool {
    '0' as u32 <= c as u32 <= '9' as u32
}

/// The number that decimal digits stand for.
pub open spec fn digits_value(s: Seq<char>) -> int
    decreases s.len(),
{
    if s.len() == 0 {
        0
    } else {
        digits_value(s.drop_last()) * 10 + (s.last() as u32 - '0' as u32)
    }
}

/// A number without its sign.
pub open spec fn unsigned_part(s: Seq<char>) -> Seq<char> {
    if s.len() > 0 && s[0] == '+' {
        s.drop_first()
    } else {
        s
    }
}

/// The number that a word stands for: decimal digits, perhaps behind a plus
/// sign. `None` for anything else and for what does not fit in 64 bits.
pub open spec fn number_of(s: Seq<char>) -> Option<int> {
    let digits = unsigned_part(s);
    if digits.len() > 0 && (forall|i: int|
        0 <= i < digits.len() ==> is_digit_char(#[trigger] digits[i])) && digits_value(digits)
        <= u64::MAX {
        Some(digits_value(digits))
    } else {
        None
    }
}

proof fn lemma_digits_grow(s: Seq<char>, k: int)
    requires
        0 <= k <= s.len(),
        forall|i: int| 0 <= i < s.len() ==> is_digit_char(#[trigger] s[i]),
    ensures
        0 <= digits_value(s.take(k)) <= digits_value(s),
    decreases s.len(),
{
    if s.len() == 0 {
        assert(s.take(k) =~= s);
    } else if k == s.len() {
        assert(s.take(k) =~= s);
        lemma_digits_grow(s.drop_last(), s.len() - 1);
        assert(s.drop_last().take(s.len() - 1) =~= s.drop_last());
        assert(is_digit_char(s[s.len() - 1]));
    } else {
        lemma_digits_grow(s.drop_last(), k);
        assert(s.drop_last().take(k) =~= s.take(k));
        assert(is_digit_char(s[s.len() - 1]));
    }
}

/// Reads the word between two places as a number.
fn read_number(text: &[char], from: usize, to: usize) -> (r: Option<u64>)
    requires
        from <= to <= text@.len(),
    ensures
        r is Some <==> number_of(text@.subrange(from as int, to as int)) is Some,
        r matches Some(v) ==> number_of(text@.subrange(from as int, to as int)) == Some(v as int),
{
    let ghost word = text@.subrange(from as int, to as int);
    let start = if from < to && text[from] == '+' {
        from + 1
    } else {
        from
    };
    let ghost digits = unsigned_part(word);
    assert(digits =~= text@.subrange(start as int, to as int));
    if start == to {
        return None;
    }
    let mut value: u64 = 0;
    let mut i: usize = start;
    assert(digits.take(0) =~= Seq::<char>::empty());
    while i < to
        invariant
            start <= i <= to,
            to <= text@.len(),
            digits == text@.subrange(start as int, to as int),
            digits == unsigned_part(word),
            word == text@.subrange(from as int, to as int),
            forall|k: int| 0 <= k < i - start ==> is_digit_char(#[trigger] digits[k]),
            value == digits_value(digits.take(i - start)),
        decreases to - i,
    {
        let c = text[i];
        let ghost k = i - start;
        assert(digits[k] == c);
        let u = c as u32;
        if u < 0x30 || u > 0x39 {
            assert(!is_digit_char(digits[k]));
            return None;
        }
        proof {
            assert(digits.take(k + 1).drop_last() =~= digits.take(k));
            assert(digits.take(k + 1).last() == c);
        }
        let next = match value.checked_mul(10) {
            Some(v) => v.checked_add((u - 0x30) as u64),
            None => None,
        };
        match next {
            Some(v) => {
                value = v;
            },
            None => {
                proof {
                    assert(digits_value(digits.take(k + 1)) > u64::MAX);
                    if forall|m: int| 0 <= m < digits.len() ==> is_digit_char(#[trigger] digits[m]) {
                        lemma_digits_grow(digits, k + 1);
                    }
                }
                return None;
            },
        }
        i = i + 1;
    }
    assert(digits.take(to - start) =~= digits);
    Some(value)
}

/// Kilobytes as bytes, up to the largest number of 64 bits.
pub open spec fn kilobytes(kb: int) -> int {
    if kb * 1024 <= u64::MAX {
        kb * 1024
    } else {
        u64::MAX as int
    }
}

fn to_bytes(kb: u64) -> (r: u64)
    ensures
        r == kilobytes(kb as int),
{
    match kb.checked_mul(1024) {
        Some(bytes) => bytes,
        None => u64::MAX,
    }
}

/// The first word at or behind place `i`, before the end of the line: from
/// `a` to `b`.
pub open spec fn is_first_word(s: Seq<char>, i: int, a: int, b: int) -> bool {
    &&& 0 <= i <= a < b <= s.len()
    &&& forall|k: int| i <= k < a ==> is_white(#[trigger] s[k]) && s[k] != '\n'
    &&& forall|k: int| a <= k < b ==> !is_white(#[trigger] s[k])
    &&& b < s.len() ==> is_white(s[b])
}

/// There is no word at or behind place `i` before the end of the line.
pub open spec fn has_no_word(s: Seq<char>, i: int) -> bool {
    exists|e: int| #[trigger] is_blank_to(s, i, e)
}

/// Nothing but space from `i` to the end `e` of the line.
pub open spec fn is_blank_to(s: Seq<char>, i: int, e: int) -> bool {
    &&& 0 <= i <= e <= s.len()
    &&& e < s.len() ==> s[e] == '\n'
    &&& forall|k: int| i <= k < e ==> is_white(#[trigger] s[k]) && s[k] != '\n'
}

/// A line that starts at `i` with the given beginning.
pub open spec fn is_line_with(s: Seq<char>, i: int, beginning: Seq<char>) -> bool {
    &&& 0 <= i
    &&& i + beginning.len() <= s.len()
    &&& i == 0 || s[i - 1] == '\n'
    &&& s.subrange(i, i + beginning.len()) == beginning
}

/// The first line with the given beginning.
pub open spec fn is_first_line_with(s: Seq<char>, i: int, beginning: Seq<char>) -> bool {
    &&& is_line_with(s, i, beginning)
    &&& forall|k: int| 0 <= k < i ==> !#[trigger] is_line_with(s, k, beginning)
}

/// What a status report says of the resident set size.
#[derive(Clone, Copy, Debug, PartialEq, Eq)]
pub enum RssReading {
    /// There is no such line.
    Absent,
    /// The line holds no number.
    Unreadable,
    /// The size in bytes.
    Bytes(u64),
}

/// Whether the line at `i` starts with `VmRSS:`.
fn starts_with_label(text: &[char], i: usize) -> (r: bool)
    requires
        i <= text@.len(),
    ensures
        r == (i + 6 <= text@.len() && text@.subrange(i as int, i + 6) == "VmRSS:"@),
{
    proof {
        reveal_strlit("VmRSS:");
    }
    if text.len() - i < 6 {
        return false;
    }
    let r = text[i] == 'V' && text[i + 1] == 'm' && text[i + 2] == 'R' && text[i + 3] == 'S'
        && text[i + 4] == 'S' && text[i + 5] == ':';
    proof {
        let part = text@.subrange(i as int, i + 6);
        if r {
            assert(part =~= "VmRSS:"@);
        } else if part == "VmRSS:"@ {
            assert(part[0] == 'V' && part[1] == 'm' && part[2] == 'R' && part[3] == 'S' && part[4]
                == 'S' && part[5] == ':');
        }
    }
    r
}

/// The reading of the line that starts at `i`.
pub open spec fn is_reading(s: Seq<char>, i: int, reading: RssReading) -> bool {
    match reading {
        RssReading::Absent => false,
        RssReading::Unreadable => has_no_word(s, i + 6) || exists|a: int, b: int| #[trigger]
            is_first_word(s, i + 6, a, b) && number_of(s.subrange(a, b)) is None,
        RssReading::Bytes(bytes) => exists|a: int, b: int| #[trigger]
            is_first_word(s, i + 6, a, b) && (number_of(s.subrange(a, b)) matches Some(kb) && bytes
                == kilobytes(kb)),
    }
}

/// The end of the word that starts at `a`.
fn word_end(text: &[char], a: usize) -> (b: usize)
    requires
        a <= text@.len(),
    ensures
        a <= b <= text@.len(),
        forall|k: int| a <= k < b ==> !is_white(#[trigger] text@[k]),
        b < text@.len() ==> is_white(text@[b as int]),
{
    let mut b: usize = a;
    while b < text.len() && !is_white_char(text[b])
        invariant
            a <= b <= text@.len(),
            forall|k: int| a <= k < b ==> !is_white(#[trigger] text@[k]),
        decreases text.len() - b,
    {
        b = b + 1;
    }
    b
}

/// Reads the resident set size from the process status report: the first word
/// of the first line that starts with `VmRSS:`, in kilobytes.
pub fn rss_from_status(text: &[char]) -> (r: RssReading)
    ensures
        r is Absent <==> forall|i: int| !#[trigger] is_line_with(text@, i, "VmRSS:"@),
        r !is Absent ==> exists|i: int| #[trigger]
            is_first_line_with(text@, i, "VmRSS:"@) && is_reading(text@, i, r),
        is_status_reading(text@, r),
{
    let ghost s = text@;
    let ghost label = "VmRSS:"@;
    proof {
        reveal_strlit("VmRSS:");
    }
    assert(label.len() == 6);
    let mut i: usize = 0;
    while i < text.len()
        invariant
            0 <= i <= text@.len(),
            s == text@,
            label == "VmRSS:"@,
            label.len() == 6,
            forall|k: int| 0 <= k < i ==> !#[trigger] is_line_with(s, k, label),
        decreases text.len() - i,
    {
        if (i == 0 || text[i - 1] == '\n') && starts_with_label(text, i) {
            assert(is_line_with(s, i as int, label));
            assert(is_first_line_with(s, i as int, label));
            return read_line(text, i);
        }
        assert(!is_line_with(s, i as int, label));
        i = i + 1;
    }
    assert(forall|k: int| !#[trigger] is_line_with(s, k, label));
    RssReading::Absent
}

/// Reads the line that starts with `VmRSS:` at `i`.
fn read_line(text: &[char], i: usize) -> (r: RssReading)
    requires
        i + 6 <= text@.len(),
    ensures
        is_reading(text@, i as int, r),
{
    let ghost s = text@;
    let len = text.len();
    let mut a: usize = i + 6;
    while a < len && is_white_char(text[a]) && text[a] != '\n'
        invariant
            i + 6 <= a <= len,
            len == text@.len(),
            s == text@,
            forall|k: int| i + 6 <= k < a ==> is_white(#[trigger] s[k]),
            forall|k: int| i + 6 <= k < a ==> (#[trigger] s[k]) != '\n',
        decreases len - a,
    {
        a = a + 1;
    }
    if a == len || text[a] == '\n' {
        assert(is_blank_to(s, i + 6, a as int));
        return RssReading::Unreadable;
    }
    let b = word_end(text, a);
    assert(a < b);
    assert(is_first_word(s, i + 6, a as int, b as int));
    match read_number(text, a, b) {
        Some(kb) => RssReading::Bytes(to_bytes(kb)),
        None => RssReading::Unreadable,
    }
}

/// The text without space at its two ends is what stands between `a` and `b`.
pub open spec fn is_trimmed(s: Seq<char>, a: int, b: int) -> bool {
    &&& 0 <= a <= b <= s.len()
    &&& forall|k: int| 0 <= k < a ==> is_white(#[trigger] s[k])
    &&& forall|k: int| b <= k < s.len() ==> is_white(#[trigger] s[k])
    &&& a < b ==> !is_white(s[a]) && !is_white(s[b - 1])
}

/// Reads the resident set size from the output of `ps`: a number of kilobytes.
pub fn rss_from_ps(text: &[char]) -> (r: Option<u64>)
    ensures
        exists|a: int, b: int| #[trigger]
            is_trimmed(text@, a, b) && (match number_of(text@.subrange(a, b)) {
                Some(kb) => r matches Some(bytes) && bytes == kilobytes(kb),
                None => r is None,
            }),
        is_ps_reading(text@, r),
{
    let ghost s = text@;
    let mut a: usize = 0;
    while a < text.len() && is_white_char(text[a])
        invariant
            0 <= a <= text@.len(),
            s == text@,
            forall|k: int| 0 <= k < a ==> is_white(#[trigger] s[k]),
        decreases text.len() - a,
    {
        a = a + 1;
    }
    let mut b: usize = text.len();
    while b > a && is_white_char(text[b - 1])
        invariant
            a <= b <= text@.len(),
            s == text@,
            forall|k: int| b <= k < s.len() ==> is_white(#[trigger] s[k]),
        decreases b,
    {
        b = b - 1;
    }
    assert(is_trimmed(s, a as int, b as int));
    match read_number(text, a, b) {
        Some(kb) => Some(to_bytes(kb)),
        None => None,
    }
}

/// What is read from a status report.
pub open spec fn is_status_reading(s: Seq<char>, r: RssReading) -> bool {
    &&& r is Absent <==> forall|i: int| !#[trigger] is_line_with(s, i, "VmRSS:"@)
    &&& r !is Absent ==> exists|i: int| #[trigger]
        is_first_line_with(s, i, "VmRSS:"@) && is_reading(s, i, r)
}

/// A number that was written in decimal is read back.
pub proof fn lemma_decimal_is_read(n: nat)
    ensures
        decimal(n).len() > 0,
        forall|i: int| 0 <= i < decimal(n).len() ==> is_digit_char(#[trigger] decimal(n)[i]),
        digits_value(decimal(n)) == n,
        n <= u64::MAX ==> number_of(decimal(n)) == Some(n as int),
        n > u64::MAX ==> number_of(decimal(n)) is None,
    decreases n,
{
    let s = decimal(n);
    if n < 10 {
        assert(s.drop_last() =~= Seq::<char>::empty());
        assert(digits_value(s.drop_last()) == 0);
    } else {
        lemma_decimal_is_read(n / 10);
        assert(s.drop_last() =~= decimal(n / 10));
        assert(s.last() == digit(n % 10));
    }
    assert(is_digit_char(s[0]));
    assert(s[0] != '+');
}

/// No line has two first words.
proof fn lemma_first_word_is_one(s: Seq<char>, from: int, a: int, b: int, c: int, d: int)
    requires
        is_first_word(s, from, a, b),
        is_first_word(s, from, c, d),
    ensures
        a == c,
        b == d,
{
    assert(!is_white(s[a]));
    assert(!is_white(s[c]));
    if c < a {
        assert(is_white(s[c]));
    } else if a < c {
        assert(is_white(s[a]));
    }
    if d < b {
        assert(!is_white(s[d]));
    } else if b < d {
        assert(!is_white(s[b]));
    }
}

/// A line with a word is not a line without one.
proof fn lemma_word_is_there(s: Seq<char>, from: int, a: int, b: int)
    requires
        is_first_word(s, from, a, b),
    ensures
        !has_no_word(s, from),
{
    if has_no_word(s, from) {
        let e = choose|e: int| #[trigger] is_blank_to(s, from, e);
        assert(!is_white(s[a]));
        if a < e {
            assert(is_white(s[a]));
        } else if e < a {
            assert(is_white(s[e]) && s[e] != '\n');
        }
    }
}

/// What is read where the first line and its first word are known.
proof fn lemma_word_is_read(s: Seq<char>, i: int, a: int, b: int, kb: int, r: RssReading)
    requires
        is_status_reading(s, r),
        is_first_line_with(s, i, "VmRSS:"@),
        is_first_word(s, i + 6, a, b),
        number_of(s.subrange(a, b)) == Some(kb),
    ensures
        r == RssReading::Bytes(kilobytes(kb) as u64),
{
    let label = "VmRSS:"@;
    assert(is_line_with(s, i, label));
    let j = choose|j: int| #[trigger] is_first_line_with(s, j, label) && is_reading(s, j, r);
    if j < i {
        assert(!is_line_with(s, j, label));
    } else if i < j {
        assert(!is_line_with(s, i, label));
    }
    lemma_word_is_there(s, i + 6, a, b);
    assert forall|c: int, d: int| #[trigger] is_first_word(s, i + 6, c, d) implies c == a && d
        == b by {
        lemma_first_word_is_one(s, i + 6, a, b, c, d);
    }
}

/// A report with a line for the resident set size is read, wherever the line
/// stands and whatever surrounds it: the lines `before` are other lines, and
/// between the label and the number there is nothing but space.
pub proof fn lemma_status_is_read(
    s: Seq<char>,
    before: Seq<char>,
    space: Seq<char>,
    kb: nat,
    rest: Seq<char>,
    r: RssReading,
)
    requires
        is_status_reading(s, r),
        s == before + "VmRSS:"@ + space + decimal(kb) + rest,
        before.len() > 0 ==> before.last() == '\n',
        forall|k: int|
            0 <= k < before.len() && (k == 0 || s[k - 1] == '\n') ==> #[trigger] s.subrange(
                k,
                k + 6,
            ) != "VmRSS:"@,
        forall|k: int|
            0 <= k < space.len() ==> is_white(#[trigger] space[k]) && space[k] != '\n',
        rest.len() > 0 ==> is_white(rest[0]),
        kb <= u64::MAX,
    ensures
        r == RssReading::Bytes(
            if kb * 1024 <= u64::MAX {
                (kb * 1024) as u64
            } else {
                u64::MAX
            },
        ),
{
    reveal_strlit("VmRSS:");
    let label = "VmRSS:"@;
    let i = before.len() as int;
    let word = decimal(kb);
    let (a, b) = (i + 6 + space.len(), i + 6 + space.len() + word.len());
    lemma_decimal_is_read(kb);
    assert(is_first_line_with(s, i, label)) by {
        assert(s.subrange(i, i + 6) =~= label);
        assert(i > 0 ==> s[i - 1] == before[i - 1]);
        assert forall|k: int| 0 <= k < i implies !#[trigger] is_line_with(s, k, label) by {
            assert(label.len() == 6);
            if k == 0 || s[k - 1] == '\n' {
                assert(s.subrange(k, k + 6) != label);
            }
        }
    }
    assert(is_first_word(s, i + 6, a, b)) by {
        assert forall|k: int| i + 6 <= k < a implies is_white(#[trigger] s[k]) && s[k]
            != '\n' by {
            assert(s[k] == space[k - i - 6]);
        }
        assert forall|k: int| a <= k < b implies !is_white(#[trigger] s[k]) by {
            assert(s[k] == word[k - a]);
            assert(is_digit_char(word[k - a]));
        }
        assert(b < s.len() ==> s[b] == rest[0]);
    }
    assert(s.subrange(a, b) =~= word);
    lemma_word_is_read(s, i, a, b, kb as int, r);
}

/// A report without such a line gives no reading.
pub proof fn lemma_status_without_line(s: Seq<char>, r: RssReading)
    requires
        is_status_reading(s, r),
        forall|k: int|
            0 <= k && (k == 0 || s[k - 1] == '\n') && k + 6 <= s.len() ==> #[trigger] s.subrange(
                k,
                k + 6,
            ) != "VmRSS:"@,
    ensures
        r is Absent,
{
    reveal_strlit("VmRSS:");
    assert("VmRSS:"@.len() == 6);
    assert forall|i: int| !#[trigger] is_line_with(s, i, "VmRSS:"@) by {
        if is_line_with(s, i, "VmRSS:"@) {
            assert(s.subrange(i, i + 6) != "VmRSS:"@);
        }
    }
}

/// What is read from the output of `ps`.
pub open spec fn is_ps_reading(s: Seq<char>, r: Option<u64>) -> bool {
    exists|a: int, b: int| #[trigger]
        is_trimmed(s, a, b) && (match number_of(s.subrange(a, b)) {
            Some(kb) => r matches Some(bytes) && bytes == kilobytes(kb),
            None => r is None,
        })
}

/// A number of kilobytes is read from the output of `ps`, whatever space stands
/// around it.
pub proof fn lemma_ps_is_read(
    s: Seq<char>,
    before: Seq<char>,
    kb: nat,
    behind: Seq<char>,
    r: Option<u64>,
)
    requires
        is_ps_reading(s, r),
        s == before + decimal(kb) + behind,
        forall|k: int| 0 <= k < before.len() ==> is_white(#[trigger] before[k]),
        forall|k: int| 0 <= k < behind.len() ==> is_white(#[trigger] behind[k]),
    ensures
        kb > u64::MAX ==> r is None,
        kb <= u64::MAX ==> r == Some(
            if kb * 1024 <= u64::MAX {
                (kb * 1024) as u64
            } else {
                u64::MAX
            },
        ),
{
    let word = decimal(kb);
    let (c, d) = (before.len() as int, before.len() + word.len());
    lemma_decimal_is_read(kb);
    assert(is_digit_char(word[0]));
    assert(s[c] == word[0] && s[d - 1] == word[word.len() - 1]);
    assert(is_digit_char(word[word.len() - 1]));
    let (a, b) = choose|a: int, b: int| #[trigger]
        is_trimmed(s, a, b) && (match number_of(s.subrange(a, b)) {
            Some(n) => r matches Some(bytes) && bytes == kilobytes(n),
            None => r is None,
        });
    if c < a {
        assert(is_white(s[c]));
    }
    if b <= c {
        assert(is_white(s[c]));
    }
    if a < c {
        assert(s[a] == before[a]);
    }
    if b < d {
        assert(is_white(s[d - 1]));
    } else if d < b {
        assert(s[b - 1] == behind[b - 1 - d]);
    }
    assert(s.subrange(a, b) =~= word);
    assert(unsigned_part(word) == word);
}

} // verus!
