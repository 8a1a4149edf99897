//! The language server: message framing, document text, completion, and what
//! stands under the cursor.

use crate::serve::utf8_text;
use crate::text::{
    chars_of, decimal, digit_char, find_chars, find_from, is_digit, lemma_find_from, occurs_at,
    opt_view, push_decimal, same, str_starts_with, str_trim, string_range, trim, trim_end,
    trim_start, views,
};
use crate::typo::{eq_ignore_ascii_case, same_ignoring_case};
use vstd::hash_map::StringHashMap;
use vstd::prelude::*;
use vstd::utf8::*;

verus! {

// ---------------------------------------------------------------------------
// Percent encoding
// ---------------------------------------------------------------------------

/// A hexadecimal digit, in upper case.
pub open spec fn hex_digit(n: int) -> char {
    if n < 10 {
        (('0' as u32) + n) as char
    } else {
        (('A' as u32) + n - 10) as char
    }
}

/// A byte that stands for itself in a URI.
pub open spec fn is_unreserved(b: u8) -> bool {
    (97 <= b && b <= 122) || (65 <= b && b <= 90) || (48 <= b && b <= 57) || b == 45 || b == 95 || b
        == 46 || b == 47
}

/// A byte as it is written in a URI.
pub open spec fn encoded_byte(b: u8) -> Seq<char> {
    if is_unreserved(b) {
        seq![b as char]
    } else {
        seq!['%', hex_digit(b as int / 16), hex_digit(b as int % 16)]
    }
}

/// Bytes as they are written in a URI.
pub open spec fn encoded(bytes: Seq<u8>) -> Seq<char>
    decreases bytes.len(),
{
    if bytes.len() == 0 {
        Seq::empty()
    } else {
        encoded(bytes.drop_last()) + encoded_byte(bytes.last())
    }
}

/// The value of a hexadecimal digit.
pub open spec fn hex_value(b: u8) -> Option<int> {
    if 48 <= b && b <= 57 {
        Some(b - 48)
    } else if 97 <= b && b <= 102 {
        Some(b - 97 + 10)
    } else if 65 <= b && b <= 70 {
        Some(b - 65 + 10)
    } else {
        None
    }
}

/// The value of two hexadecimal digits; the first may be a plus sign.
pub open spec fn pair_value(a: u8, b: u8) -> Option<int> {
    match (hex_value(a), hex_value(b)) {
        (Some(x), Some(y)) => Some(16 * x + y),
        (None, Some(y)) => if a == 43 {
            Some(y)
        } else {
            None
        },
        _ => None,
    }
}

/// The bytes that bytes of a URI stand for, from `i` on.
pub open spec fn decoded(bytes: Seq<u8>, i: int) -> Seq<u8>
    decreases bytes.len() - i,
{
    if i >= bytes.len() {
        Seq::empty()
    } else if bytes[i] == 37 && i + 2 < bytes.len() && pair_value(bytes[i + 1], bytes[i + 2]) is Some {
        seq![pair_value(bytes[i + 1], bytes[i + 2]).unwrap() as u8] + decoded(bytes, i + 3)
    } else {
        seq![bytes[i]] + decoded(bytes, i + 1)
    }
}

/// A character for each byte.
pub open spec fn latin(bytes: Seq<u8>) -> Seq<char> {
    bytes.map_values(|b: u8| b as char)
}

/// The text that bytes encode; bytes that are no UTF-8 stand for a character each.
pub open spec fn text_of_bytes(bytes: Seq<u8>) -> Seq<char> {
    if valid_utf8(bytes) {
        decode_utf8(bytes)
    } else {
        latin(bytes)
    }
}

/// The text that a part of a URI stands for.
pub open spec fn decoded_text(s: Seq<char>) -> Seq<char> {
    text_of_bytes(decoded(encode_utf8(s), 0))
}

/// Whether the two bytes behind every percent sign end with a character.
pub open spec fn decodable(s: Seq<char>) -> bool {
    let bytes = encode_utf8(s);
    forall|i: int|
        0 <= i && i + 2 < bytes.len() && #[trigger] bytes[i] == 37 ==> is_char_boundary(
            bytes,
            i + 3,
        )
}

fn hex_char(n: u8) -> (r: char)
    requires
        n < 16,
    ensures
        r == hex_digit(n as int),
{
    if n < 10 {
        (48u8 + n) as char
    } else {
        (65u8 + (n - 10)) as char
    }
}

fn digit_value(b: u8) -> (r: Option<u8>)
    ensures
        match r {
            Some(v) => hex_value(b) == Some(v as int) && v < 16,
            None => hex_value(b) is None,
        },
{
    if 48 <= b && b <= 57 {
        Some(b - 48)
    } else if 97 <= b && b <= 102 {
        Some(b - 97 + 10)
    } else if 65 <= b && b <= 70 {
        Some(b - 65 + 10)
    } else {
        None
    }
}

/// A text as it is written in a URI.
pub fn urlencoding_encode(s: &str) -> (r: String)
    ensures
        r@ == encoded(encode_utf8(s@)),
{
    let bytes = s.as_bytes();
    let mut out = String::new();
    let mut i: usize = 0;
    while i < bytes.len()
        invariant
            i <= bytes@.len(),
            out@ == encoded(bytes@.take(i as int)),
        decreases bytes.len() - i,
    {
        assert(bytes@.take(i as int + 1).drop_last() =~= bytes@.take(i as int));
        let b: u8 = bytes[i];
        let ghost before = out@;
        if (97 <= b && b <= 122) || (65 <= b && b <= 90) || (48 <= b && b <= 57) || b == 45 || b
            == 95 || b == 46 || b == 47 {
            out.push(b as char);
            assert(out@ =~= before + encoded_byte(b));
        } else {
            out.push('%');
            out.push(hex_char(b / 16));
            out.push(hex_char(b % 16));
            assert(out@ =~= before + encoded_byte(b));
        }
        i += 1;
    }
    assert(bytes@.take(i as int) =~= bytes@);
    out
}

/// The text that a part of a URI stands for.
pub fn urlencoding_decode(s: &str) -> (r: String)
    requires
        decodable(s@),
    ensures
        r@ == decoded_text(s@),
{
    let bytes = s.as_bytes();
    let n: usize = bytes.len();
    let mut out: Vec<u8> = Vec::new();
    let mut plain = String::new();
    let mut i: usize = 0;
    assert(out@ + decoded(bytes@, 0) =~= decoded(bytes@, 0));
    assert(plain@ =~= latin(out@));
    while i < n
        invariant
            i <= n,
            n == bytes@.len(),
            out@ + decoded(bytes@, i as int) == decoded(bytes@, 0),
            plain@ == latin(out@),
        decreases n - i,
    {
        let ghost before = out@;
        let mut value: u8 = bytes[i];
        let mut width: usize = 1;
        if bytes[i] == 37 && n - i > 2 {
            let b: Option<u8> = digit_value(bytes[i + 2]);
            let a: Option<u8> = digit_value(bytes[i + 1]);
            match (a, b) {
                (Some(x), Some(y)) => {
                    value = 16 * x + y;
                    width = 3;
                },
                (None, Some(y)) => {
                    if bytes[i + 1] == 43 {
                        value = y;
                        width = 3;
                    }
                },
                _ => {},
            }
        }
        out.push(value);
        plain.push(value as char);
        assert(plain@ =~= latin(out@));
        assert(decoded(bytes@, i as int) == seq![value] + decoded(bytes@, i + width));
        assert(out@ + decoded(bytes@, i + width) =~= before + (seq![value] + decoded(
            bytes@,
            i + width,
        )));
        i += width;
    }
    assert(out@ + decoded(bytes@, n as int) =~= out@);
    match utf8_text(out) {
        Some(text) => text,
        None => plain,
    }
}

/// Whether a URI can be turned into a path.
pub fn is_decodable(s: &str) -> (r: bool)
    ensures
        r == decodable(s@),
{
    let bytes = s.as_bytes();
    let n: usize = bytes.len();
    let mut i: usize = 0;
    while i < n
        invariant
            i <= n,
            n == bytes@.len(),
            bytes@ == encode_utf8(s@),
            forall|j: int|
                0 <= j < i && j + 2 < n && #[trigger] bytes@[j] == 37 ==> is_char_boundary(
                    bytes@,
                    j + 3,
                ),
        decreases n - i,
    {
        if bytes[i] == 37 && n - i > 2 && !s.is_char_boundary(i + 3) {
            assert(bytes@[i as int] == 37);
            return false;
        }
        i += 1;
    }
    true
}

/// What follows a prefix, where the text begins with it.
pub open spec fn after_prefix(s: Seq<char>, p: Seq<char>) -> Option<Seq<char>> {
    if p.is_prefix_of(s) {
        Some(s.skip(p.len() as int))
    } else {
        None
    }
}

/// The path that a URI names; what is no file URI is a path already.
pub fn uri_to_path(uri: &str) -> (r: Option<String>)
    requires
        after_prefix(uri@, "file://"@) matches Some(rest) ==> decodable(rest),
    ensures
        match after_prefix(uri@, "file://"@) {
            Some(rest) => r is Some && r.unwrap()@ == decoded_text(rest),
            None => r is Some && r.unwrap()@ == uri@,
        },
{
    match strip_file_scheme(uri) {
        Some(rest) => Some(urlencoding_decode(rest.as_str())),
        None => Some(uri.to_owned()),
    }
}

/// What follows the file scheme of a URI.
pub fn strip_file_scheme(uri: &str) -> (r: Option<String>)
    ensures
        opt_view(r) == after_prefix(uri@, "file://"@),
{
    if str_starts_with(uri, "file://") {
        proof {
            reveal_strlit("file://");
        }
        let v = chars_of(uri);
        let rest = string_range(&v, 7, v.len());
        assert(rest@ =~= uri@.skip(7));
        Some(rest)
    } else {
        None
    }
}

/// The URI of a file, by its canonical path.
pub fn path_to_uri(canonical_path: &str) -> (r: String)
    ensures
        r@ == "file://"@ + encoded(encode_utf8(canonical_path@)),
{
    let mut out = "file://".to_owned();
    let path = urlencoding_encode(canonical_path);
    out.append(path.as_str());
    out
}

proof fn lemma_decoded_shift(bytes: Seq<u8>, from: int, i: int)
    requires
        0 <= from <= i,
        from <= bytes.len(),
    ensures
        decoded(bytes, i) == decoded(bytes.skip(from), i - from),
    decreases bytes.len() - i,
{
    if i < bytes.len() {
        lemma_decoded_shift(bytes, from, i + 1);
        if i + 3 <= bytes.len() {
            lemma_decoded_shift(bytes, from, i + 3);
        }
    }
}

proof fn lemma_encoded_front(bytes: Seq<u8>)
    requires
        bytes.len() > 0,
    ensures
        encoded(bytes) == encoded_byte(bytes[0]) + encoded(bytes.drop_first()),
    decreases bytes.len(),
{
    if bytes.len() == 1 {
        assert(bytes.drop_last() =~= Seq::empty());
        assert(bytes.drop_first() =~= Seq::empty());
        assert(encoded(bytes) =~= encoded_byte(bytes[0]) + encoded(bytes.drop_first()));
    } else {
        lemma_encoded_front(bytes.drop_last());
        assert(bytes.drop_last().drop_first() =~= bytes.drop_first().drop_last());
        assert(encoded(bytes) =~= encoded_byte(bytes[0]) + encoded(bytes.drop_first()));
    }
}

/// Characters of ASCII as bytes.
spec fn ascii_bytes(s: Seq<char>) -> Seq<u8> {
    s.map_values(|c: char| c as u8)
}

proof fn lemma_decode_encoded(bytes: Seq<u8>)
    ensures
        decoded(ascii_bytes(encoded(bytes)), 0) == bytes,
    decreases bytes.len(),
{
    let e = ascii_bytes(encoded(bytes));
    if bytes.len() == 0 {
        assert(e =~= Seq::empty());
        assert(decoded(e, 0) =~= bytes);
    } else {
        let b = bytes[0];
        let rest = bytes.drop_first();
        lemma_encoded_front(bytes);
        lemma_decode_encoded(rest);
        let tail = ascii_bytes(encoded(rest));
        if is_unreserved(b) {
            assert(e =~= seq![b] + tail);
            assert(e.skip(1) =~= tail);
            lemma_decoded_shift(e, 1, 1);
        } else {
            let hi = b as int / 16;
            let lo = b as int % 16;
            assert(e =~= seq![37u8, hex_digit(hi) as u8, hex_digit(lo) as u8] + tail);
            assert(e.skip(3) =~= tail);
            lemma_decoded_shift(e, 3, 3);
            assert(e[1] == hex_digit(hi) as u8 && e[2] == hex_digit(lo) as u8);
            assert(hex_value(e[1]) == Some(hi));
            assert(hex_value(e[2]) == Some(lo));
            assert(pair_value(e[1], e[2]) == Some(b as int));
        }
        assert(decoded(e, 0) =~= bytes);
    }
}

proof fn lemma_encoded_ascii(bytes: Seq<u8>)
    ensures
        forall|i: int| 0 <= i < encoded(bytes).len() ==> #[trigger] encoded(bytes)[i] <= '\u{7f}',
    decreases bytes.len(),
{
    if bytes.len() > 0 {
        lemma_encoded_ascii(bytes.drop_last());
        let a = encoded(bytes.drop_last());
        let b = encoded_byte(bytes.last());
        assert forall|i: int| 0 <= i < encoded(bytes).len() implies #[trigger] encoded(bytes)[i]
            <= '\u{7f}' by {
            if i < a.len() {
                assert(encoded(bytes)[i] == a[i]);
            } else {
                assert(encoded(bytes)[i] == b[i - a.len()]);
            }
        }
    }
}

proof fn lemma_char_from_zero(c: char)
    ensures
        '\0' <= c,
{
}

/// The path of a file comes back from its URI.
pub proof fn path_survives(path: Seq<char>)
    ensures
        decoded_text(encoded(encode_utf8(path))) == path,
        decodable(encoded(encode_utf8(path))),
{
    let bytes = encode_utf8(path);
    let e = encoded(bytes);
    lemma_encoded_ascii(bytes);
    assert(is_ascii_chars(e)) by {
        assert forall|i: int| 0 <= i < e.len() implies '\0' <= #[trigger] e[i] <= '\u{7f}' by {
            lemma_char_from_zero(e[i]);
        }
    }
    is_ascii_chars_encode_utf8(e);
    assert(encode_utf8(e) =~= ascii_bytes(e));
    lemma_decode_encoded(bytes);
    encode_utf8_valid_utf8(path);
    encode_utf8_decode_utf8(path);
    let eb = encode_utf8(e);
    encode_utf8_valid_utf8(e);
    assert forall|i: int| 0 <= i && i + 2 < eb.len() && #[trigger] eb[i] == 37 implies is_char_boundary(
        eb,
        i + 3,
    ) by {
        if i + 3 < eb.len() {
            is_char_boundary_iff_is_leading_byte(eb, i + 3);
            assert(eb[i + 3] < 128);
        } else {
            is_char_boundary_start_end_of_seq(eb);
        }
    }
}

// ---------------------------------------------------------------------------
// Messages
// ---------------------------------------------------------------------------

/// A line without the line ends at its end.
pub open spec fn without_line_end(s: Seq<char>) -> Seq<char>
    decreases s.len(),
{
    if s.len() > 0 && (s.last() == '\r' || s.last() == '\n') {
        without_line_end(s.drop_last())
    } else {
        s
    }
}

/// The value of decimal digits.
pub open spec fn digits_value(s: Seq<char>) -> nat
    decreases s.len(),
{
    if s.len() == 0 {
        0
    } else {
        10 * digits_value(s.drop_last()) + ((s.last() as u32) - ('0' as u32)) as nat
    }
}

/// The number that a text stands for: decimal digits, with a plus sign or
/// without, as far as it fits.
pub open spec fn parsed_number(s: Seq<char>) -> Option<nat> {
    let digits = without_plus(s);
    if digits.len() > 0 && all_digits(digits) && digits_value(digits) <= usize::MAX {
        Some(digits_value(digits))
    } else {
        None
    }
}

/// A text without the plus sign that may lead it.
pub open spec fn without_plus(s: Seq<char>) -> Seq<char> {
    if s.len() > 0 && s[0] == '+' {
        s.skip(1)
    } else {
        s
    }
}

/// Only decimal digits.
pub open spec fn all_digits(s: Seq<char>) -> bool {
    forall|i: int| 0 <= i < s.len() ==> is_digit(#[trigger] s[i])
}

/// The number that a text stands for.
pub fn parse_number(s: &str) -> (r: Option<usize>)
    ensures
        match r {
            Some(n) => parsed_number(s@) == Some(n as nat),
            None => parsed_number(s@) is None,
        },
{
    let v = chars_of(s);
    let n: usize = v.len();
    let from: usize = if n > 0 && v[0] == '+' {
        1
    } else {
        0
    };
    let ghost digits = s@.skip(from as int);
    assert(s@.skip(0) =~= s@);
    if from == n {
        return None;
    }
    let mut value: usize = 0;
    let mut i: usize = from;
    while i < n
        invariant
            from <= i <= n,
            from < n,
            n == v@.len(),
            v@ == s@,
            digits == s@.skip(from as int),
            digits == without_plus(s@),
            forall|j: int| 0 <= j < i - from ==> is_digit(#[trigger] digits[j]),
            value == digits_value(digits.take(i - from)),
        decreases n - i,
    {
        let c = v[i];
        assert(digits[i - from] == c);
        if !('0' <= c && c <= '9') {
            assert(!is_digit(digits[i - from]));
            return None;
        }
        let d: usize = ((c as u8) - 48) as usize;
        assert(digits.take(i + 1 - from).drop_last() =~= digits.take(i - from));
        match value.checked_mul(10) {
            None => {
                proof {
                    lemma_digits_grow(digits, i - from);
                }
                return None;
            },
            Some(m) => match m.checked_add(d) {
                None => {
                    proof {
                        lemma_digits_grow(digits, i + 1 - from);
                    }
                    return None;
                },
                Some(sum) => {
                    value = sum;
                },
            },
        }
        i += 1;
    }
    assert(digits.take(n - from) =~= digits);
    Some(value)
}

proof fn lemma_digits_grow(s: Seq<char>, n: int)
    requires
        0 <= n <= s.len(),
    ensures
        digits_value(s.take(n)) <= digits_value(s),
        n < s.len() ==> 10 * digits_value(s.take(n)) <= digits_value(s),
    decreases s.len() - n,
{
    if n == s.len() {
        assert(s.take(n) =~= s);
    } else {
        lemma_digits_grow(s, n + 1);
        assert(s.take(n + 1).drop_last() =~= s.take(n));
    }
}

/// What a header line says.
#[derive(Debug, Clone, Copy, PartialEq, Eq, Structural)]
pub enum HeaderLine {
    /// The headers end here.
    End,
    /// The body has this length; none that can be read.
    ContentLength(Option<usize>),
    /// Something else.
    Other,
}

/// What a header line says: the name before the first colon tells.
pub open spec fn header_of(line: Seq<char>) -> HeaderLine {
    let text = without_line_end(line);
    if text.len() == 0 {
        HeaderLine::End
    } else {
        match find_from(text, seq![':'], 0) {
            None => HeaderLine::Other,
            Some(k) => if same_ignoring_case(trim(text.take(k)), "content-length"@) {
                HeaderLine::ContentLength(
                    match parsed_number(trim(text.skip(k + 1))) {
                        Some(n) => Some(n as usize),
                        None => None,
                    },
                )
            } else {
                HeaderLine::Other
            },
        }
    }
}

/// What a header line says.
pub fn parse_header(line: &str) -> (r: HeaderLine)
    ensures
        r == header_of(line@),
{
    let v = chars_of(line);
    let mut n: usize = v.len();
    assert(line@.take(n as int) =~= line@);
    while n > 0 && (v[n - 1] == '\r' || v[n - 1] == '\n')
        invariant
            n <= v@.len(),
            v@ == line@,
            without_line_end(line@.take(n as int)) == without_line_end(line@),
        decreases n,
    {
        assert(line@.take(n as int).drop_last() =~= line@.take(n as int - 1));
        n -= 1;
    }
    let text = string_range(&v, 0, n);
    assert(text@ =~= line@.take(n as int));
    if n == 0 {
        return HeaderLine::End;
    }
    let t = chars_of(text.as_str());
    let colon: Vec<char> = vec![':'];
    assert(colon@ =~= seq![':']);
    proof {
        lemma_find_from(text@, colon@, 0);
    }
    match find_chars(&t, &colon, 0) {
        None => HeaderLine::Other,
        Some(k) => {
            let name = string_range(&t, 0, k);
            assert(name@ =~= text@.take(k as int));
            let value = string_range(&t, k + 1, t.len());
            assert(value@ =~= text@.skip(k + 1));
            let name = str_trim(name.as_str());
            let value = str_trim(value.as_str());
            if eq_ignore_ascii_case(name.as_str(), "content-length") {
                HeaderLine::ContentLength(parse_number(value.as_str()))
            } else {
                HeaderLine::Other
            }
        },
    }
}

/// A message with the header that gives its length in bytes.
pub fn frame(payload: &str) -> (r: String)
    ensures
        r@ == "Content-Length: "@ + decimal(encode_utf8(payload@).len()) + "\r\n\r\n"@ + payload@,
{
    let mut out = "Content-Length: ".to_owned();
    push_decimal(&mut out, payload.as_bytes().len());
    out.append("\r\n\r\n");
    out.append(payload);
    out
}

/// A number in decimal is read as that number.
pub proof fn number_reads_back(n: nat)
    requires
        n <= usize::MAX,
    ensures
        parsed_number(decimal(n)) == Some(n),
{
    lemma_decimal_digits(n);
    assert(is_digit(decimal(n)[0]));
}

proof fn lemma_decimal_digits(n: nat)
    ensures
        decimal(n).len() > 0,
        all_digits(decimal(n)),
        digits_value(decimal(n)) == n,
    decreases n,
{
    let d = decimal(n);
    let c = digit_char(n % 10);
    assert(is_digit(c) && (c as u32) - ('0' as u32) == n % 10);
    if n < 10 {
        assert(d.drop_last() =~= Seq::empty());
        assert(digits_value(d.drop_last()) == 0);
    } else {
        lemma_decimal_digits(n / 10);
        assert(d.drop_last() =~= decimal(n / 10));
        assert forall|i: int| 0 <= i < d.len() implies is_digit(#[trigger] d[i]) by {
            if i < d.len() - 1 {
                assert(d[i] == decimal(n / 10)[i]);
            }
        }
    }
}

/// The header of a framed message is read as the length of the message, and the
/// empty line behind it as the end of the headers.
pub proof fn framed_length_reads_back(payload: Seq<char>)
    requires
        encode_utf8(payload).len() <= usize::MAX,
    ensures
        header_of("Content-Length: "@ + decimal(encode_utf8(payload).len()) + "\r\n"@)
            == HeaderLine::ContentLength(Some(encode_utf8(payload).len() as usize)),
        header_of("\r\n"@) == HeaderLine::End,
{
    reveal_with_fuel(without_line_end, 4);
    let n = encode_utf8(payload).len();
    let digits = decimal(n);
    reveal_strlit("Content-Length: ");
    reveal_strlit("content-length");
    reveal_strlit("\r\n");
    lemma_decimal_digits(n);
    number_reads_back(n);
    let name = "Content-Length: "@;
    let text = name + digits;
    let line = text + "\r\n"@;
    assert(is_digit(digits[0]) && is_digit(digits[digits.len() - 1]));
    assert(line.drop_last().drop_last() =~= text);
    assert(text.last() == digits.last());
    assert(without_line_end(line) == text) by {
        assert(line.last() == '\n' && line.drop_last().last() == '\r');
    }
    let end = "\r\n"@;
    assert(end.drop_last().drop_last() =~= Seq::empty());
    assert(without_line_end(end) == Seq::<char>::empty());
    let colon = seq![':'];
    lemma_find_from(text, colon, 0);
    assert(occurs_at(text, colon, 14)) by {
        assert(text.subrange(14, 15) =~= colon);
    }
    assert forall|j: int| 0 <= j < 14 implies !occurs_at(text, colon, j) by {
        assert(text.subrange(j, j + 1)[0] == name[j]);
    }
    let key = text.take(14);
    assert(key[0] == 'C' && key.last() == 'h');
    assert(trim(key) == key);
    assert(same_ignoring_case(key, "content-length"@));
    let value = text.skip(15);
    assert(value =~= seq![' '] + digits);
    assert(value.drop_first() =~= digits);
    assert(trim_start(digits) == digits);
    assert(trim_start(value) == trim_start(digits));
    assert(trim_end(digits) == digits);
}

/// What a request asks for.
#[derive(Debug, Clone, Copy, PartialEq, Eq, Structural)]
pub enum LspMethod {
    Initialize,
    Initialized,
    Shutdown,
    Exit,
    DidOpen,
    DidChange,
    DidClose,
    Completion,
    Definition,
    Hover,
    Unknown,
}

/// What a request asks for, by the name of its method.
pub open spec fn method_of(name: Seq<char>) -> LspMethod {
    if name == "initialize"@ {
        LspMethod::Initialize
    } else if name == "initialized"@ {
        LspMethod::Initialized
    } else if name == "shutdown"@ {
        LspMethod::Shutdown
    } else if name == "exit"@ {
        LspMethod::Exit
    } else if name == "textDocument/didOpen"@ {
        LspMethod::DidOpen
    } else if name == "textDocument/didChange"@ {
        LspMethod::DidChange
    } else if name == "textDocument/didClose"@ {
        LspMethod::DidClose
    } else if name == "textDocument/completion"@ {
        LspMethod::Completion
    } else if name == "textDocument/definition"@ {
        LspMethod::Definition
    } else if name == "textDocument/hover"@ {
        LspMethod::Hover
    } else {
        LspMethod::Unknown
    }
}

/// What a request asks for, by the name of its method.
pub fn parse_method(name: &str) -> (r: LspMethod)
    ensures
        r == method_of(name@),
{
    if same(name, "initialize") {
        LspMethod::Initialize
    } else if same(name, "initialized") {
        LspMethod::Initialized
    } else if same(name, "shutdown") {
        LspMethod::Shutdown
    } else if same(name, "exit") {
        LspMethod::Exit
    } else if same(name, "textDocument/didOpen") {
        LspMethod::DidOpen
    } else if same(name, "textDocument/didChange") {
        LspMethod::DidChange
    } else if same(name, "textDocument/didClose") {
        LspMethod::DidClose
    } else if same(name, "textDocument/completion") {
        LspMethod::Completion
    } else if same(name, "textDocument/definition") {
        LspMethod::Definition
    } else if same(name, "textDocument/hover") {
        LspMethod::Hover
    } else {
        LspMethod::Unknown
    }
}

/// What is sent back for a request.
#[derive(Debug, Clone, Copy, PartialEq, Eq, Structural)]
pub enum LspReply {
    /// Nothing.
    Silent,
    /// A result, from the handler of the method.
    Result,
    /// An empty result.
    Null,
    /// The error that there is no such method.
    MethodNotFound,
}

/// What is sent back for a request: nothing for a notification, which has no
/// identifier.
pub open spec fn reply_of(method: LspMethod, has_id: bool) -> LspReply {
    if !has_id {
        LspReply::Silent
    } else {
        match method {
            LspMethod::Initialize => LspReply::Result,
            LspMethod::Completion => LspReply::Result,
            LspMethod::Definition => LspReply::Result,
            LspMethod::Hover => LspReply::Result,
            LspMethod::Shutdown => LspReply::Null,
            LspMethod::Unknown => LspReply::MethodNotFound,
            _ => LspReply::Silent,
        }
    }
}

/// What is sent back for a request.
pub fn reply_to(method: LspMethod, has_id: bool) -> (r: LspReply)
    ensures
        r == reply_of(method, has_id),
{
    if !has_id {
        return LspReply::Silent;
    }
    match method {
        LspMethod::Initialize => LspReply::Result,
        LspMethod::Completion => LspReply::Result,
        LspMethod::Definition => LspReply::Result,
        LspMethod::Hover => LspReply::Result,
        LspMethod::Shutdown => LspReply::Null,
        LspMethod::Unknown => LspReply::MethodNotFound,
        _ => LspReply::Silent,
    }
}

/// The words of the error that there is no such method.
pub fn method_not_found(name: &str) -> (r: String)
    ensures
        r@ == "Method '"@ + name@ + "' not found"@,
{
    let mut out = "Method '".to_owned();
    out.append(name);
    out.append("' not found");
    out
}

// ---------------------------------------------------------------------------
// Open documents
// ---------------------------------------------------------------------------

/// The texts of the documents that are open in the editor, by their URIs.
pub struct OpenDocuments {
    texts: StringHashMap<String>,
}

impl OpenDocuments {
    /// The texts by URI.
    pub closed spec fn texts(&self) -> Map<Seq<char>, Seq<char>> {
        self.texts@.map_values(|s: String| s@)
    }

    /// No document.
    pub fn new() -> (r: Self)
        ensures
            r.texts() == Map::<Seq<char>, Seq<char>>::empty(),
    {
        let r = OpenDocuments { texts: StringHashMap::new() };
        assert(r.texts() =~= Map::<Seq<char>, Seq<char>>::empty());
        r
    }

    /// A document was opened or changed as a whole.
    pub fn set(&mut self, uri: &str, text: &str)
        ensures
            final(self).texts() == old(self).texts().insert(uri@, text@),
    {
        let ghost before = self.texts();
        self.texts.insert(uri.to_owned(), text.to_owned());
        assert(self.texts() =~= before.insert(uri@, text@));
    }

    /// A document was changed: the last of the changes is its text.
    pub fn change(&mut self, uri: &str, changes: &Vec<String>)
        ensures
            final(self).texts() == if changes@.len() == 0 {
                old(self).texts()
            } else {
                old(self).texts().insert(uri@, views(changes@).last())
            },
    {
        if changes.len() > 0 {
            let last: usize = changes.len() - 1;
            assert(views(changes@).last() == changes@[last as int]@);
            self.set(uri, changes[last].as_str());
        }
    }

    /// A document was closed.
    pub fn close(&mut self, uri: &str)
        ensures
            final(self).texts() == old(self).texts().remove(uri@),
    {
        let ghost before = self.texts();
        self.texts.remove(uri);
        assert(self.texts() =~= before.remove(uri@));
    }

    /// The text of an open document.
    pub fn get(&self, uri: &str) -> (r: Option<String>)
        ensures
            opt_view(r) == if self.texts().contains_key(uri@) {
                Some(self.texts()[uri@])
            } else {
                None
            },
    {
        match self.texts.get(uri) {
            Some(s) => Some(s.clone()),
            None => None,
        }
    }
}

/// A message is of the method that it names, and of none under any other name.
pub proof fn methods_go_by_their_names(name: Seq<char>)
    ensures
        name == "initialize"@ <==> method_of(name) == LspMethod::Initialize,
        name == "initialized"@ <==> method_of(name) == LspMethod::Initialized,
        name == "shutdown"@ <==> method_of(name) == LspMethod::Shutdown,
        name == "exit"@ <==> method_of(name) == LspMethod::Exit,
        name == "textDocument/didOpen"@ <==> method_of(name) == LspMethod::DidOpen,
        name == "textDocument/didChange"@ <==> method_of(name) == LspMethod::DidChange,
        name == "textDocument/didClose"@ <==> method_of(name) == LspMethod::DidClose,
        name == "textDocument/completion"@ <==> method_of(name) == LspMethod::Completion,
        name == "textDocument/definition"@ <==> method_of(name) == LspMethod::Definition,
        name == "textDocument/hover"@ <==> method_of(name) == LspMethod::Hover,
{
    reveal_strlit("initialize");
    reveal_strlit("initialized");
    reveal_strlit("shutdown");
    reveal_strlit("exit");
    reveal_strlit("textDocument/didOpen");
    reveal_strlit("textDocument/didChange");
    reveal_strlit("textDocument/didClose");
    reveal_strlit("textDocument/completion");
    reveal_strlit("textDocument/definition");
    reveal_strlit("textDocument/hover");
    assert("initialize"@.len() == 10 && "initialized"@.len() == 11 && "shutdown"@.len() == 8
        && "exit"@.len() == 4);
    assert("textDocument/didOpen"@.len() == 20 && "textDocument/didChange"@.len() == 22
        && "textDocument/didClose"@.len() == 21 && "textDocument/completion"@.len() == 23
        && "textDocument/definition"@.len() == 23 && "textDocument/hover"@.len() == 18);
    assert("textDocument/completion"@[13] == 'c' && "textDocument/definition"@[13] == 'd');
}

/// Only what has an id is answered: a question with its result, the wish to shut down
/// with nothing, and an unknown method with an error. What reports something is not
/// answered.
pub proof fn only_requests_are_answered(method: LspMethod, has_id: bool)
    ensures
        !has_id ==> reply_of(method, has_id) == LspReply::Silent,
        has_id ==> (reply_of(method, has_id) == LspReply::MethodNotFound <==> method
            == LspMethod::Unknown),
        has_id ==> (reply_of(method, has_id) == LspReply::Null <==> method == LspMethod::Shutdown),
        has_id ==> (reply_of(method, has_id) == LspReply::Result <==> method
            == LspMethod::Initialize || method == LspMethod::Completion || method
            == LspMethod::Definition || method == LspMethod::Hover),
{
}

} // verus!
