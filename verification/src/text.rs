//! Small texts: decimal numbers, byte ranges, object addresses.

use std::sync::Arc;

use vstd::prelude::*;
use vstd::string::StringExecFns;
use vstd::utf8::encode_utf8;

verus! {

/// The decimal digit `d`.
pub open spec fn digit(d: nat) -> char {
    ((48 + d) as u8) as char
}

/// The decimal text of a number, without leading zeros.
pub open spec fn decimal(n: nat) -> Seq<char>
    decreases n,
{
    if n < 10 {
        seq![digit(n)]
    } else {
        decimal(n / 10).push(digit(n % 10))
    }
}

/// The number that a text of decimal digits stands for.
pub open spec fn decimal_value(text: Seq<char>) -> nat
    decreases text.len(),
{
    if text.len() == 0 {
        0
    } else {
        (decimal_value(text.drop_last()) * 10 + (text.last() as nat - 48)) as nat
    }
}

/// The text of one digit.
fn digit_text(d: u64) -> (text: &'static str)
    requires
        d < 10,
    ensures
        text@ == seq![digit(d as nat)],
{
    proof {
        reveal_strlit("0");
        reveal_strlit("1");
        reveal_strlit("2");
        reveal_strlit("3");
        reveal_strlit("4");
        reveal_strlit("5");
        reveal_strlit("6");
        reveal_strlit("7");
        reveal_strlit("8");
        reveal_strlit("9");
    }
    let text: &'static str = match d {
        0 => "0",
        1 => "1",
        2 => "2",
        3 => "3",
        4 => "4",
        5 => "5",
        6 => "6",
        7 => "7",
        8 => "8",
        _ => "9",
    };
    assert(text@ =~= seq![digit(d as nat)]);
    text
}

/// The decimal text of a number.
pub fn decimal_text(n: u64) -> (text: String)
    ensures
        text@ == decimal(n as nat),
    decreases n,
{
    if n < 10 {
        String::from_str(digit_text(n))
    } else {
        let mut text = decimal_text(n / 10);
        let ghost front = text@;
        text.append(digit_text(n % 10));
        assert(text@ =~= front.push(digit((n % 10) as nat)));
        text
    }
}

/// A range of bytes as a request names it: `first` and `last` are both part of it.
pub open spec fn range_of(first: nat, last: nat) -> Seq<char> {
    "bytes="@ + decimal(first) + "-"@ + decimal(last)
}

/// The text `bytes=first-last`.
pub fn range_text(first: u64, last: u64) -> (text: String)
    ensures
        text@ == range_of(first as nat, last as nat),
{
    let mut text = String::from_str("bytes=");
    text.append(decimal_text(first).as_str());
    text.append("-");
    text.append(decimal_text(last).as_str());
    text
}

/// The address of an object: its bucket and its key.
pub open spec fn address(bucket: Seq<char>, key: Seq<char>) -> Seq<char> {
    bucket + "/"@ + key
}

/// The text `bucket/key`.
pub fn address_text(bucket: &str, key: &str) -> (text: String)
    ensures
        text@ == address(bucket@, key@),
{
    let mut text = String::from_str(bucket);
    text.append("/");
    text.append(key);
    text
}

/// The prefix of all keys in a directory.
pub open spec fn directory_prefix(directory: Seq<char>) -> Seq<char> {
    directory + "/"@
}

/// The text `directory/`.
pub fn directory_prefix_text(directory: &str) -> (text: String)
    ensures
        text@ == directory_prefix(directory@),
{
    let mut text = String::from_str(directory);
    text.append("/");
    text
}

/// Calls `str::strip_prefix` with a string pattern: the text after the prefix, or
/// `None` where the text does not start with it.
#[verifier::external_body]
pub(crate) fn strip_prefix<'a>(text: &'a str, prefix: &str) -> (rest: Option<&'a str>)
    ensures
        match rest {
            Some(r) => text@ == prefix@ + r@,
            None => !prefix@.is_prefix_of(text@),
        },
{
    text.strip_prefix(prefix)
}

/// Calls `Arc::<str>::from` on a `String`: a shared text with the same characters.
#[verifier::external_body]
pub(crate) fn shared_text(text: String) -> (shared: Arc<str>)
    ensures
        (*shared)@ == text@,
{
    Arc::from(text)
}

/// Whether the bytes are a number: decimal digits, at least one, with an optional
/// plus sign before them.
pub open spec fn is_unsigned(bytes: Seq<u8>) -> bool {
    let digits = unsigned_digits(bytes);
    digits.len() > 0 && is_digits(digits)
}

pub open spec fn is_digits(digits: Seq<u8>) -> bool {
    forall|i: int| 0 <= i < digits.len() ==> 48 <= #[trigger] digits[i] <= 57
}

/// The bytes after an optional plus sign.
pub open spec fn unsigned_digits(bytes: Seq<u8>) -> Seq<u8> {
    if bytes.len() > 0 && bytes[0] == 43 {
        bytes.skip(1)
    } else {
        bytes
    }
}

/// The number that decimal digits stand for.
pub open spec fn digits_value(digits: Seq<u8>) -> nat
    decreases digits.len(),
{
    if digits.len() == 0 {
        0
    } else {
        (digits_value(digits.drop_last()) * 10 + (digits.last() - 48)) as nat
    }
}

/// The number in a text, or `None` where the text is not a number or the number
/// is too large.
pub fn parse_usize(text: &str) -> (n: Option<usize>)
    ensures
        match n {
            Some(v) => is_unsigned(encode_utf8(text@)) && v == digits_value(
                unsigned_digits(encode_utf8(text@)),
            ),
            None => !is_unsigned(encode_utf8(text@)) || digits_value(
                unsigned_digits(encode_utf8(text@)),
            ) > usize::MAX,
        },
{
    let bytes = text.as_bytes();
    let mut start: usize = 0;
    if bytes.len() > 0 && bytes[0] == 43 {
        start = 1;
    }
    let ghost digits = unsigned_digits(bytes@);
    assert(digits =~= bytes@.skip(start as int));
    if start == bytes.len() {
        return None;
    }
    let mut n: usize = 0;
    let mut i: usize = start;
    assert(digits.take(0) =~= Seq::empty());
    while i < bytes.len()
        invariant
            start <= i <= bytes@.len(),
            digits == bytes@.skip(start as int),
            digits == unsigned_digits(bytes@),
            bytes@ == encode_utf8(text@),
            forall|k: int| 0 <= k < i - start ==> 48 <= #[trigger] digits[k] <= 57,
            n == digits_value(digits.take(i - start)),
        decreases bytes.len() - i,
    {
        let b: u8 = bytes[i];
        assert(b == digits[i - start]);
        if b < 48 || b > 57 {
            return None;
        }
        let d: usize = (b - 48) as usize;
        proof {
            assert(digits.take(i - start + 1).drop_last() =~= digits.take(i - start));
        }
        let grown: Option<usize> = n.checked_mul(10);
        let next: Option<usize> = match grown {
            Some(m) => m.checked_add(d),
            None => None,
        };
        match next {
            Some(m) => {
                n = m;
            },
            None => {
                proof {
                    lemma_digits_value_grows(digits, i - start + 1);
                }
                return None;
            },
        }
        i = i + 1;
    }
    assert(digits.take(i - start) =~= digits);
    Some(n)
}

/// More digits never make a smaller number.
proof fn lemma_digits_value_grows(digits: Seq<u8>, n: int)
    requires
        0 <= n <= digits.len(),
    ensures
        is_digits(digits) ==> digits_value(digits.take(n)) <= digits_value(digits),
    decreases digits.len() - n,
{
    if n < digits.len() {
        lemma_digits_value_grows(digits, n + 1);
        assert(digits.take(n + 1).drop_last() =~= digits.take(n));
        if is_digits(digits) {
            assert(48 <= digits[n] <= 57);
        }
    } else {
        assert(digits.take(n) =~= digits);
    }
}

// ---------- Laws ----------

/// Whether a text holds decimal digits only, at least one.
pub open spec fn is_number(text: Seq<char>) -> bool {
    text.len() > 0 && forall|i: int| 0 <= i < text.len() ==> '0' <= #[trigger] text[i] <= '9'
}

/// A number reads back from its decimal text, which holds digits only and does not start with a
/// zero unless the number is zero.
pub proof fn decimal_reads_back(n: nat)
    ensures
        decimal_value(decimal(n)) == n,
        is_number(decimal(n)),
        n == 0 ==> decimal(n) == seq!['0'],
        n > 0 ==> decimal(n)[0] != '0',
    decreases n,
{
    if n < 10 {
        assert(decimal(n).drop_last() =~= Seq::empty());
        assert(decimal_value(decimal(n)) == n) by {
            reveal_with_fuel(decimal_value, 2);
        }
        assert(n == 0 ==> decimal(n) =~= seq!['0']);
    } else {
        decimal_reads_back(n / 10);
        assert(decimal(n).drop_last() =~= decimal(n / 10));
    }
}

/// Whether a text is a range of bytes as an HTTP server reads it, with a dash at the given place:
/// `bytes=`, the decimal number of the first byte, a dash and the decimal number of the last byte.
pub open spec fn reads_as_range(text: Seq<char>, dash: int, first: nat, last: nat) -> bool {
    &&& 6 < dash < text.len()
    &&& text.take(6) == seq!['b', 'y', 't', 'e', 's', '=']
    &&& text[dash] == '-'
    &&& is_number(text.subrange(6, dash))
    &&& decimal_value(text.subrange(6, dash)) == first
    &&& is_number(text.skip(dash + 1))
    &&& decimal_value(text.skip(dash + 1)) == last
}

/// Whether a text is read as the range from `first` to `last`.
pub open spec fn names_range(text: Seq<char>, first: nat, last: nat) -> bool {
    exists|dash: int| reads_as_range(text, dash, first, last)
}

/// A range text is read as the bytes from `first` to `last`, both of them part of the range, for
/// all `first` and `last`.
pub proof fn range_reads_back(first: nat, last: nat)
    ensures
        names_range(range_of(first, last), first, last),
{
    reveal_strlit("bytes=");
    reveal_strlit("-");
    decimal_reads_back(first);
    decimal_reads_back(last);
    let text = range_of(first, last);
    let dash = 6 + decimal(first).len() as int;
    assert(text.take(6) =~= seq!['b', 'y', 't', 'e', 's', '=']);
    assert(text.subrange(6, dash) =~= decimal(first));
    assert(text.skip(dash + 1) =~= decimal(last));
    assert(reads_as_range(text, dash, first, last));
}

/// The first and the last byte that a range names: the numbers before and behind its dash.
pub open spec fn bounds_of(text: Seq<char>) -> (nat, nat) {
    let dash = choose|dash: int| 6 < dash < text.len() && text[dash] == '-';
    (decimal_value(text.subrange(6, dash)), decimal_value(text.skip(dash + 1)))
}

/// What a text is read as does not depend on the reader.
pub proof fn range_has_its_bounds(text: Seq<char>, dash: int, first: nat, last: nat)
    requires
        reads_as_range(text, dash, first, last),
    ensures
        bounds_of(text) == (first, last),
{
    let chosen = choose|d: int| 6 < d < text.len() && text[d] == '-';
    if chosen < dash {
        assert(text.subrange(6, dash)[chosen - 6] == '-');
    }
    if chosen > dash {
        assert(text.skip(dash + 1)[chosen - dash - 1] == '-');
    }
}

/// An address is the bucket, a slash and the key.
pub proof fn address_is_bucket_slash_key(bucket: Seq<char>, key: Seq<char>)
    ensures
        address(bucket, key).len() == bucket.len() + 1 + key.len(),
        address(bucket, key).take(bucket.len() as int) == bucket,
        address(bucket, key)[bucket.len() as int] == '/',
        address(bucket, key).skip(bucket.len() as int + 1) == key,
{
    reveal_strlit("/");
    assert(address(bucket, key).take(bucket.len() as int) =~= bucket);
    assert(address(bucket, key).skip(bucket.len() as int + 1) =~= key);
}

/// A directory's prefix is the directory and a slash, so that it is a prefix of exactly the keys
/// that go on behind a slash.
pub proof fn directory_prefix_ends_with_a_slash(directory: Seq<char>)
    ensures
        directory_prefix(directory).len() == directory.len() + 1,
        directory_prefix(directory).drop_last() == directory,
        directory_prefix(directory).last() == '/',
{
    reveal_strlit("/");
    assert(directory_prefix(directory).drop_last() =~= directory);
}

/// A text is a number exactly where it is made of digits, with or without a plus sign before
/// them.
pub proof fn numbers_are_digits(bytes: Seq<u8>)
    ensures
        is_unsigned(bytes) <==> exists|digits: Seq<u8>|
            #![trigger digits.len()]
            digits.len() > 0 && (forall|i: int|
                0 <= i < digits.len() ==> 48 <= #[trigger] digits[i] <= 57) && (bytes == digits
                || bytes == seq![43u8] + digits) && unsigned_digits(bytes) == digits,
{
    let own = unsigned_digits(bytes);
    if is_unsigned(bytes) {
        if bytes[0] == 43 {
            assert(bytes =~= seq![43u8] + own);
        }
        assert(own.len() > 0);
    }
}

/// Each digit counts ten times the one behind it.
pub proof fn digits_count_by_place(digits: Seq<u8>, digit: u8)
    requires
        48 <= digit <= 57,
    ensures
        digits_value(Seq::empty()) == 0,
        digits_value(digits.push(digit)) == 10 * digits_value(digits) + (digit - 48),
{
    assert(digits.push(digit).drop_last() =~= digits);
}

/// The decimal text of every number, with or without a plus sign before it, is read as that
/// number.
pub proof fn decimal_text_is_read(n: nat)
    ensures
        is_unsigned(encode_utf8(decimal(n))),
        digits_value(unsigned_digits(encode_utf8(decimal(n)))) == n,
        is_unsigned(encode_utf8(seq!['+'] + decimal(n))),
        digits_value(unsigned_digits(encode_utf8(seq!['+'] + decimal(n)))) == n,
{
    broadcast use vstd::utf8::is_ascii_chars_encode_utf8;

    let text = decimal(n);
    let signed = seq!['+'] + text;
    decimal_reads_back(n);
    assert(vstd::utf8::is_ascii_chars(text));
    assert(vstd::utf8::is_ascii_chars(signed));
    let bytes = encode_utf8(text);
    lemma_digits_value_of_text(text, bytes);
    assert(text[0] >= '0');
    assert(unsigned_digits(bytes) == bytes);
    assert(is_digits(bytes)) by {
        assert forall|i: int| 0 <= i < bytes.len() implies 48 <= #[trigger] bytes[i] <= 57 by {
            assert('0' <= text[i] <= '9');
        }
    }
    let more = encode_utf8(signed);
    assert(unsigned_digits(more) =~= bytes) by {
        assert(more[0] == 43);
        assert forall|i: int| 0 <= i < bytes.len() implies more[i + 1] == bytes[i] by {
            assert(signed[i + 1] == text[i]);
        }
    }
}

proof fn lemma_digits_value_of_text(text: Seq<char>, bytes: Seq<u8>)
    requires
        text.len() == bytes.len(),
        forall|i: int| 0 <= i < text.len() ==> '0' <= #[trigger] text[i] <= '9',
        forall|i: int| 0 <= i < text.len() ==> bytes[i] == #[trigger] text[i] as u8,
    ensures
        digits_value(bytes) == decimal_value(text),
    decreases text.len(),
{
    if text.len() > 0 {
        let (t, b) = (text.drop_last(), bytes.drop_last());
        assert forall|i: int| 0 <= i < t.len() implies '0' <= #[trigger] t[i] <= '9' && b[i]
            == t[i] as u8 by {
            assert(t[i] == text[i]);
        }
        lemma_digits_value_of_text(t, b);
        let last = text[text.len() - 1];
        assert('0' <= last <= '9');
    }
}

/// A range text says which bytes it means: no other range has the same text.
pub proof fn range_text_is_unambiguous(a: nat, b: nat, c: nat, d: nat)
    requires
        range_of(a, b) == range_of(c, d),
    ensures
        a == c,
        b == d,
{
    range_reads_back(a, b);
    range_reads_back(c, d);
    let text = range_of(a, b);
    let i = choose|dash: int| reads_as_range(text, dash, a, b);
    let j = choose|dash: int| reads_as_range(text, dash, c, d);
    range_has_its_bounds(text, i, a, b);
    range_has_its_bounds(text, j, c, d);
}

} // verus!
