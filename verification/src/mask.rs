//! Blanking of code and math, so that link and tag extraction sees prose only.

use crate::fences::{
    find_run_end, is_fenced, lead_end, lemma_lead, lemma_run, open_behind, opening, read_line,
    run_end, Fence,
};
use crate::text::{chars_of, lines_of, split_on, split_on_nonempty};
use vstd::prelude::*;
use vstd::utf8::*;

verus! {

// ---------------------------------------------------------------------------
// Which characters are code or math
// ---------------------------------------------------------------------------

/// The position of the first line feed from `i` on, or the end of the text.
pub open spec fn line_end(s: Seq<char>, i: int) -> int
    decreases s.len() - i,
{
    if i >= s.len() {
        s.len() as int
    } else if s[i] == '\n' {
        i
    } else {
        line_end(s, i + 1)
    }
}

/// The position of the first `c` or line feed from `i` on, or the end of the
/// text.
pub open spec fn span_end(s: Seq<char>, c: char, i: int) -> int
    decreases s.len() - i,
{
    if i >= s.len() {
        s.len() as int
    } else if s[i] == c || s[i] == '\n' {
        i
    } else {
        span_end(s, c, i + 1)
    }
}

/// The first position from `i` on at which exactly `n` backticks stand on the
/// same line, or the end of the text. `i` stands behind no backtick.
pub open spec fn span_close(s: Seq<char>, n: int, i: int) -> int
    decreases s.len() - i,
    via span_close_ends
{
    if i >= s.len() || s[i] == '\n' {
        s.len() as int
    } else if s[i] == '`' {
        if run_end(s, '`', i) - i == n {
            i
        } else {
            span_close(s, n, run_end(s, '`', i))
        }
    } else {
        span_close(s, n, i + 1)
    }
}

#[via_fn]
proof fn span_close_ends(s: Seq<char>, n: int, i: int) {
    if i < s.len() {
        lemma_run(s, '`', i);
    }
}

/// A span closes behind the position at which the search begins.
proof fn lemma_span_close(s: Seq<char>, n: int, i: int)
    requires
        0 <= i <= s.len(),
        0 < n,
    ensures
        i <= span_close(s, n, i) <= s.len(),
        span_close(s, n, i) < s.len() ==> span_close(s, n, i) + n <= s.len(),
    decreases s.len() - i,
{
    if i < s.len() && s[i] != '\n' {
        lemma_run(s, '`', i);
        if s[i] == '`' {
            if run_end(s, '`', i) - i != n {
                lemma_span_close(s, n, run_end(s, '`', i));
            }
        } else {
            lemma_span_close(s, n, i + 1);
        }
    }
}

/// The position behind the line that `i` stands on.
pub open spec fn behind_line(s: Seq<char>, i: int) -> int {
    if line_end(s, i) < s.len() {
        line_end(s, i) + 1
    } else {
        s.len() as int
    }
}

/// Two `$` that no backslash escapes.
pub open spec fn double_dollar_at(s: Seq<char>, i: int) -> bool {
    &&& 0 <= i && i + 1 < s.len()
    &&& s[i] == '$' && s[i + 1] == '$'
    &&& i == 0 || s[i - 1] != '\\'
}

/// The first position from `i` on of an unescaped `$$`, or the end of the text.
pub open spec fn next_double_dollar(s: Seq<char>, i: int) -> int
    decreases s.len() - i,
{
    if i >= s.len() {
        s.len() as int
    } else if double_dollar_at(s, i) {
        i
    } else {
        next_double_dollar(s, i + 1)
    }
}

/// The mask with the positions from `a` up to `b` added.
pub open spec fn fill(m: Seq<bool>, a: int, b: int) -> Seq<bool> {
    Seq::new(m.len(), |k: int| (a <= k < b) || m[k])
}

/// The ends of lines and spans lie where the search began or behind it.
pub proof fn lemma_ends(s: Seq<char>, c: char, i: int)
    requires
        0 <= i <= s.len(),
    ensures
        i <= line_end(s, i) <= s.len(),
        i <= span_end(s, c, i) <= s.len(),
        i <= next_double_dollar(s, i) <= s.len(),
        line_end(s, i) < s.len() ==> s[line_end(s, i)] == '\n',
    decreases s.len() - i,
{
    if i < s.len() {
        lemma_ends(s, c, i + 1);
    }
}

/// Masks the lines of fenced blocks from the line that begins at `i` on, where
/// `open` is the block that is open there.
pub open spec fn mask_fences(s: Seq<char>, m: Seq<bool>, open: Option<Fence>, i: int) -> Seq<bool>
    decreases s.len() - i,
    when 0 <= i <= s.len()
    via mask_fences_ends
{
    if i >= s.len() {
        m
    } else {
        let line = s.subrange(i, line_end(s, i));
        mask_fences(
            s,
            if is_fenced(open, line) {
                fill(m, i, line_end(s, i))
            } else {
                m
            },
            open_behind(open, line),
            behind_line(s, i),
        )
    }
}

#[via_fn]
proof fn mask_fences_ends(s: Seq<char>, m: Seq<bool>, open: Option<Fence>, i: int) {
    lemma_ends(s, '`', i);
}

/// Masks display math from `i` on: from an unmasked, unescaped `$$` to the next
/// unescaped `$$`. One that is never closed ends the search.
pub open spec fn mask_display_math(s: Seq<char>, m: Seq<bool>, i: int) -> Seq<bool>
    decreases s.len() - i,
    when 0 <= i <= s.len()
    via mask_display_math_ends
{
    if i >= s.len() {
        m
    } else if !m[i] && double_dollar_at(s, i) {
        let close = next_double_dollar(s, i + 2);
        if close >= s.len() {
            m
        } else {
            mask_display_math(s, fill(m, i, close + 2), close + 2)
        }
    } else {
        mask_display_math(s, m, i + 1)
    }
}

#[via_fn]
proof fn mask_display_math_ends(s: Seq<char>, m: Seq<bool>, i: int) {
    if i + 2 <= s.len() {
        lemma_ends(s, '$', i + 2);
        lemma_double_dollar_fits(s, i + 2);
    }
}

/// A found `$$` lies within the text.
pub proof fn lemma_double_dollar_fits(s: Seq<char>, i: int)
    requires
        0 <= i,
    ensures
        next_double_dollar(s, i) < s.len() ==> double_dollar_at(s, next_double_dollar(s, i)),
    decreases s.len() - i,
{
    if i < s.len() {
        lemma_double_dollar_fits(s, i + 1);
    }
}

/// Masks inline code from `i` on: from an unmasked run of backticks to the next
/// run of as many on the same line. A run that no such run follows is text.
pub open spec fn mask_inline_code(s: Seq<char>, m: Seq<bool>, i: int) -> Seq<bool>
    decreases s.len() - i,
    when 0 <= i <= s.len()
    via mask_inline_code_ends
{
    if i >= s.len() {
        m
    } else if !m[i] && s[i] == '`' {
        let e = run_end(s, '`', i);
        let close = span_close(s, e - i, e);
        if close >= s.len() {
            mask_inline_code(s, m, e)
        } else {
            mask_inline_code(s, fill(m, i, close + (e - i)), close + (e - i))
        }
    } else {
        mask_inline_code(s, m, i + 1)
    }
}

#[via_fn]
proof fn mask_inline_code_ends(s: Seq<char>, m: Seq<bool>, i: int) {
    if i < s.len() && s[i] == '`' {
        lemma_run(s, '`', i);
        lemma_span_close(s, run_end(s, '`', i) - i, run_end(s, '`', i));
    }
}

/// Masks inline math from `i` on: from an unmasked, unescaped `$` to the next
/// `$` on the same line, if that one is not escaped.
pub open spec fn mask_inline_math(s: Seq<char>, m: Seq<bool>, i: int) -> Seq<bool>
    decreases s.len() - i,
    when 0 <= i <= s.len()
    via mask_inline_math_ends
{
    if i >= s.len() {
        m
    } else if !m[i] && s[i] == '$' && (i == 0 || s[i - 1] != '\\') {
        let e = span_end(s, '$', i + 1);
        if e >= s.len() {
            m
        } else if s[e] == '$' && s[e - 1] != '\\' {
            mask_inline_math(s, fill(m, i, e + 1), e + 1)
        } else {
            mask_inline_math(s, m, e + 1)
        }
    } else {
        mask_inline_math(s, m, i + 1)
    }
}

#[via_fn]
proof fn mask_inline_math_ends(s: Seq<char>, m: Seq<bool>, i: int) {
    if i < s.len() {
        lemma_ends(s, '$', i + 1);
    }
}

/// What fenced blocks and display math take of a text.
pub open spec fn mask_of_blocks(s: Seq<char>) -> Seq<bool> {
    mask_display_math(s, mask_fences(s, Seq::new(s.len(), |k: int| false), None, 0), 0)
}

/// Which characters of the text are code or math: fenced blocks first, then
/// display math, inline code and inline math, each opening only where nothing
/// is masked yet.
pub open spec fn mask_of(s: Seq<char>) -> Seq<bool> {
    mask_inline_math(s, mask_inline_code(s, mask_of_blocks(s), 0), 0)
}

// ---------------------------------------------------------------------------
// Blanking
// ---------------------------------------------------------------------------

/// The number of bytes of a character in UTF-8.
pub open spec fn utf8_len(c: char) -> nat {
    if c <= '\u{7f}' {
        1
    } else if c <= '\u{7ff}' {
        2
    } else if c <= '\u{ffff}' {
        3
    } else {
        4
    }
}

/// `n` spaces.
pub open spec fn spaces(n: nat) -> Seq<char> {
    Seq::new(n, |k: int| ' ')
}

/// A masked character becomes as many spaces as it has bytes; line ends and
/// unmasked characters stay.
pub open spec fn blank_char(c: char, masked: bool) -> Seq<char> {
    if masked && c != '\n' && c != '\r' {
        spaces(utf8_len(c))
    } else {
        seq![c]
    }
}

/// The text with its masked characters blanked.
pub open spec fn blank(s: Seq<char>, m: Seq<bool>) -> Seq<char>
    recommends
        m.len() == s.len(),
    decreases s.len(),
{
    if s.len() == 0 {
        Seq::empty()
    } else {
        blank(s.drop_last(), m.drop_last()) + blank_char(s.last(), m.last())
    }
}

/// The text with its code and math blanked.
pub open spec fn masked_text(s: Seq<char>) -> Seq<char> {
    blank(s, mask_of(s))
}

fn fill_range(m: &mut Vec<bool>, a: usize, b: usize)
    requires
        a <= b <= old(m)@.len(),
    ensures
        final(m)@ == fill(old(m)@, a as int, b as int),
{
    let mut k: usize = a;
    let ghost m0 = m@;
    assert(m@ =~= fill(m0, a as int, a as int));
    while k < b
        invariant
            a <= k <= b <= m@.len(),
            m@ == fill(m0, a as int, k as int),
        decreases b - k,
    {
        m.set(k, true);
        k += 1;
        assert(m@ =~= fill(m0, a as int, k as int));
    }
}

fn find_line_end(s: &Vec<char>, from: usize) -> (r: usize)
    requires
        from <= s@.len(),
    ensures
        r == line_end(s@, from as int),
        from <= r <= s@.len(),
{
    let mut i: usize = from;
    while i < s.len() && s[i] != '\n'
        invariant
            from <= i <= s@.len(),
            line_end(s@, i as int) == line_end(s@, from as int),
        decreases s.len() - i,
    {
        i += 1;
    }
    i
}

fn find_span_end(s: &Vec<char>, c: char, from: usize) -> (r: usize)
    requires
        from <= s@.len(),
    ensures
        r == span_end(s@, c, from as int),
        from <= r <= s@.len(),
{
    let mut i: usize = from;
    while i < s.len() && s[i] != c && s[i] != '\n'
        invariant
            from <= i <= s@.len(),
            span_end(s@, c, i as int) == span_end(s@, c, from as int),
        decreases s.len() - i,
    {
        i += 1;
    }
    i
}

fn find_span_close(s: &Vec<char>, n: usize, from: usize) -> (r: usize)
    requires
        from <= s@.len(),
    ensures
        r == span_close(s@, n as int, from as int),
{
    let mut i: usize = from;
    while i < s.len() && s[i] != '\n'
        invariant
            from <= i <= s@.len(),
            span_close(s@, n as int, i as int) == span_close(s@, n as int, from as int),
        decreases s.len() - i,
    {
        if s[i] == '`' {
            let e: usize = find_run_end(s.as_slice(), '`', i);
            proof {
                lemma_run(s@, '`', i as int);
            }
            if e - i == n {
                return i;
            }
            i = e;
        } else {
            i += 1;
        }
    }
    s.len()
}

fn is_double_dollar(s: &Vec<char>, i: usize) -> (r: bool)
    requires
        i < s@.len(),
    ensures
        r == double_dollar_at(s@, i as int),
{
    s.len() - i > 1 && s[i] == '$' && s[i + 1] == '$' && (i == 0 || s[i - 1] != '\\')
}

fn find_double_dollar(s: &Vec<char>, from: usize) -> (r: usize)
    requires
        from <= s@.len(),
    ensures
        r == next_double_dollar(s@, from as int),
        from <= r <= s@.len(),
{
    let mut i: usize = from;
    while i < s.len()
        invariant
            from <= i <= s@.len(),
            next_double_dollar(s@, i as int) == next_double_dollar(s@, from as int),
        decreases s.len() - i,
    {
        if is_double_dollar(s, i) {
            return i;
        }
        i += 1;
    }
    i
}

fn run_fences(s: &Vec<char>, m: &mut Vec<bool>)
    requires
        old(m)@.len() == s@.len(),
    ensures
        final(m)@ == mask_fences(s@, old(m)@, None, 0),
        final(m)@.len() == s@.len(),
{
    let ghost m0 = m@;
    let mut open: Option<Fence> = None;
    let mut i: usize = 0;
    while i < s.len()
        invariant
            i <= s@.len(),
            m0 == old(m)@,
            m@.len() == s@.len(),
            mask_fences(s@, m@, open, i as int) == mask_fences(s@, m0, None, 0),
        decreases s.len() - i,
    {
        let end: usize = find_line_end(s, i);
        let line = vstd::slice::slice_subrange(s.as_slice(), i, end);
        let (fenced, next) = read_line(open, line);
        if fenced {
            fill_range(m, i, end);
        }
        open = next;
        i = if end < s.len() { end + 1 } else { end };
    }
}

fn run_display_math(s: &Vec<char>, m: &mut Vec<bool>)
    requires
        old(m)@.len() == s@.len(),
    ensures
        final(m)@ == mask_display_math(s@, old(m)@, 0),
        final(m)@.len() == s@.len(),
{
    let ghost m0 = m@;
    let mut i: usize = 0;
    while i < s.len()
        invariant
            i <= s@.len(),
            m0 == old(m)@,
            m@.len() == s@.len(),
            mask_display_math(s@, m@, i as int) == mask_display_math(s@, m0, 0),
        decreases s.len() - i,
    {
        if !m[i] && is_double_dollar(s, i) {
            let close: usize = find_double_dollar(s, i + 2);
            if close >= s.len() {
                return;
            }
            proof {
                lemma_double_dollar_fits(s@, i + 2);
            }
            fill_range(m, i, close + 2);
            i = close + 2;
        } else {
            i += 1;
        }
    }
}

fn run_inline_code(s: &Vec<char>, m: &mut Vec<bool>)
    requires
        old(m)@.len() == s@.len(),
    ensures
        final(m)@ == mask_inline_code(s@, old(m)@, 0),
        final(m)@.len() == s@.len(),
{
    let ghost m0 = m@;
    let mut i: usize = 0;
    while i < s.len()
        invariant
            i <= s@.len(),
            m0 == old(m)@,
            m@.len() == s@.len(),
            mask_inline_code(s@, m@, i as int) == mask_inline_code(s@, m0, 0),
        decreases s.len() - i,
    {
        if !m[i] && s[i] == '`' {
            let e: usize = find_run_end(s.as_slice(), '`', i);
            let close: usize = find_span_close(s, e - i, e);
            proof {
                lemma_run(s@, '`', i as int);
                lemma_span_close(s@, e - i, e as int);
            }
            if close < s.len() {
                let stop: usize = close + (e - i);
                fill_range(m, i, stop);
                i = stop;
            } else {
                i = e;
            }
        } else {
            i += 1;
        }
    }
}

fn run_inline_math(s: &Vec<char>, m: &mut Vec<bool>)
    requires
        old(m)@.len() == s@.len(),
    ensures
        final(m)@ == mask_inline_math(s@, old(m)@, 0),
        final(m)@.len() == s@.len(),
{
    let ghost m0 = m@;
    let mut i: usize = 0;
    while i < s.len()
        invariant
            i <= s@.len(),
            m0 == old(m)@,
            m@.len() == s@.len(),
            mask_inline_math(s@, m@, i as int) == mask_inline_math(s@, m0, 0),
        decreases s.len() - i,
    {
        if !m[i] && s[i] == '$' && (i == 0 || s[i - 1] != '\\') {
            let e: usize = find_span_end(s, '$', i + 1);
            if e >= s.len() {
                return;
            }
            if s[e] == '$' && s[e - 1] != '\\' {
                fill_range(m, i, e + 1);
            }
            i = e + 1;
        } else {
            i += 1;
        }
    }
}

fn push_blank(out: &mut String, c: char, masked: bool)
    ensures
        final(out)@ == old(out)@ + blank_char(c, masked),
{
    if masked && c != '\n' && c != '\r' {
        let n: u8 = if c <= '\u{7f}' {
            1
        } else if c <= '\u{7ff}' {
            2
        } else if c <= '\u{ffff}' {
            3
        } else {
            4
        };
        let mut k: u8 = 0;
        let ghost before = out@;
        assert(out@ =~= before + spaces(0));
        while k < n
            invariant
                k <= n,
                out@ == before + spaces(k as nat),
            decreases n - k,
        {
            out.push(' ');
            k += 1;
            assert(out@ =~= before + spaces(k as nat));
        }
    } else {
        let ghost before = out@;
        out.push(c);
        assert(out@ =~= before + seq![c]);
    }
}

/// Masks fenced code blocks, inline code spans, display math, and inline math
/// with spaces, so that link and tag extraction finds nothing inside them,
/// while every line keeps its place and the text its length in bytes.
pub fn mask_code_and_math(content: &str) -> (r: String)
    ensures
        r@ == masked_text(content@),
{
    let s = chars_of(content);
    let mut m: Vec<bool> = Vec::new();
    let mut k: usize = 0;
    while k < s.len()
        invariant
            k <= s@.len(),
            m@ == Seq::new(k as nat, |j: int| false),
        decreases s.len() - k,
    {
        m.push(false);
        k += 1;
        assert(m@ =~= Seq::new(k as nat, |j: int| false));
    }
    run_fences(&s, &mut m);
    run_display_math(&s, &mut m);
    run_inline_code(&s, &mut m);
    run_inline_math(&s, &mut m);

    let mut out = String::new();
    let mut i: usize = 0;
    while i < s.len()
        invariant
            i <= s@.len(),
            m@.len() == s@.len(),
            out@ == blank(s@.take(i as int), m@.take(i as int)),
        decreases s.len() - i,
    {
        push_blank(&mut out, s[i], m[i]);
        i += 1;
        assert(s@.take(i as int).drop_last() =~= s@.take(i as int - 1));
        assert(m@.take(i as int).drop_last() =~= m@.take(i as int - 1));
    }
    assert(s@.take(i as int) =~= s@);
    assert(m@.take(i as int) =~= m@);
    out
}

// ---------------------------------------------------------------------------
// What masking keeps
// ---------------------------------------------------------------------------

/// The encoding of a text is the encoding of its parts, one after the other.
pub proof fn lemma_encode_concat(a: Seq<char>, b: Seq<char>)
    ensures
        encode_utf8(a + b) == encode_utf8(a) + encode_utf8(b),
    decreases a.len(),
{
    if a.len() == 0 {
        assert(a + b =~= b);
        assert(encode_utf8(a) + encode_utf8(b) =~= encode_utf8(b));
    } else {
        lemma_encode_concat(a.drop_first(), b);
        assert((a + b).drop_first() =~= a.drop_first() + b);
        assert(encode_utf8(a + b) =~= encode_utf8(a) + encode_utf8(b));
    }
}

/// The encoding of one character has `utf8_len` bytes, and no byte of it is a
/// line feed or carriage return unless the character is.
proof fn lemma_encode_char(c: char)
    ensures
        encode_utf8(seq![c]).len() == utf8_len(c),
        c != '\n' && c != '\r' ==> forall|k: int|
            0 <= k < utf8_len(c) ==> #[trigger] encode_utf8(seq![c])[k] != 0x0a && encode_utf8(
                seq![c],
            )[k] != 0x0d,
{
    let u = c as u32;
    assert(seq![c].drop_first() =~= Seq::empty());
    assert(encode_utf8(Seq::<char>::empty()) =~= seq![]);
    assert(encode_utf8(seq![c]) =~= encode_scalar(u));
    assert(u <= 0x7f ==> (u & 0x7f) as u8 == u as u8) by (bit_vector);
    assert((0xC0u8 | ((u >> 6) & 0x1F) as u8) >= 0x80) by (bit_vector);
    assert((0xE0u8 | ((u >> 12) & 0x0F) as u8) >= 0x80) by (bit_vector);
    assert((0xF0u8 | ((u >> 18) & 0x7) as u8) >= 0x80) by (bit_vector);
    assert((0x80u8 | (u & 0x3F) as u8) >= 0x80) by (bit_vector);
    assert((0x80u8 | ((u >> 6) & 0x3F) as u8) >= 0x80) by (bit_vector);
    assert((0x80u8 | ((u >> 12) & 0x3F) as u8) >= 0x80) by (bit_vector);
}

/// A pass leaves the mask as long as it was.
proof fn lemma_mask_len(s: Seq<char>, m: Seq<bool>, i: int)
    requires
        0 <= i <= s.len(),
        m.len() == s.len(),
    ensures
        mask_display_math(s, m, i).len() == s.len(),
        mask_inline_code(s, m, i).len() == s.len(),
        mask_inline_math(s, m, i).len() == s.len(),
{
    lemma_mask_grows(s, m, i);
}

/// The mask says of each character whether it is code or math.
pub proof fn lemma_mask_of_len(s: Seq<char>)
    ensures
        mask_of(s).len() == s.len(),
{
    let none = Seq::new(s.len(), |k: int| false);
    lemma_fences_grow(s, none, None, 0);
    lemma_mask_len(s, mask_fences(s, none, None, 0), 0);
    let display = mask_display_math(s, mask_fences(s, none, None, 0), 0);
    lemma_mask_len(s, display, 0);
    lemma_mask_len(s, mask_inline_code(s, display, 0), 0);
}

/// Whether `b` is `a` with some bytes, none of them a line end, turned into
/// spaces.
pub open spec fn blanked_bytes(a: Seq<u8>, b: Seq<u8>) -> bool {
    &&& a.len() == b.len()
    &&& forall|k: int|
        0 <= k < a.len() ==> #[trigger] b[k] == a[k] || (b[k] == 0x20 && a[k] != 0x0a && a[k]
            != 0x0d)
}

proof fn lemma_blank_bytes(s: Seq<char>, m: Seq<bool>)
    requires
        m.len() == s.len(),
    ensures
        blanked_bytes(encode_utf8(s), encode_utf8(blank(s, m))),
    decreases s.len(),
{
    if s.len() > 0 {
        let c = s.last();
        let piece = blank_char(c, m.last());
        lemma_blank_bytes(s.drop_last(), m.drop_last());
        assert(s =~= s.drop_last() + seq![c]);
        lemma_encode_concat(s.drop_last(), seq![c]);
        lemma_encode_concat(blank(s.drop_last(), m.drop_last()), piece);
        lemma_encode_char(c);
        if m.last() && c != '\n' && c != '\r' {
            is_ascii_chars_encode_utf8(spaces(utf8_len(c)));
        }
    }
}

/// Masking keeps every byte in its place: the masked text is as long in bytes
/// as the text, and differs from it only in bytes that became spaces, never a
/// line feed or carriage return.
pub proof fn mask_keeps_offsets(s: Seq<char>)
    ensures
        blanked_bytes(encode_utf8(s), encode_utf8(masked_text(s))),
{
    lemma_mask_of_len(s);
    lemma_blank_bytes(s, mask_of(s));
}

/// How many lines there are: one for each line feed, and one more where the
/// text does not end in one.
proof fn lemma_line_count(s: Seq<char>)
    ensures
        split_on(s, '\n').len() > 0,
        split_on(s, '\n').last().len() == 0 <==> (s.len() == 0 || s.last() == '\n'),
        lines_of(s).len() == split_on(s, '\n').len() - (if s.len() == 0 || s.last() == '\n' {
            1int
        } else {
            0int
        }),
{
    split_on_nonempty(s, '\n');
    if s.len() > 0 {
        split_on_nonempty(s.drop_last(), '\n');
    }
}

proof fn lemma_split_piece(s: Seq<char>, n: nat)
    ensures
        split_on(s + spaces(n), '\n').len() == split_on(s, '\n').len(),
    decreases n,
{
    split_on_nonempty(s, '\n');
    if n == 0 {
        assert(s + spaces(n) =~= s);
    } else {
        lemma_split_piece(s, (n - 1) as nat);
        assert((s + spaces(n)).drop_last() =~= s + spaces((n - 1) as nat));
    }
}

proof fn lemma_blank_lines(s: Seq<char>, m: Seq<bool>)
    requires
        m.len() == s.len(),
    ensures
        split_on(blank(s, m), '\n').len() == split_on(s, '\n').len(),
        blank(s, m).len() == 0 <==> s.len() == 0,
        s.len() > 0 ==> (blank(s, m).last() == '\n' <==> s.last() == '\n'),
    decreases s.len(),
{
    if s.len() > 0 {
        let rest = blank(s.drop_last(), m.drop_last());
        let c = s.last();
        lemma_blank_lines(s.drop_last(), m.drop_last());
        split_on_nonempty(s.drop_last(), '\n');
        if m.last() && c != '\n' && c != '\r' {
            lemma_split_piece(rest, utf8_len(c));
        } else {
            assert((rest + seq![c]).drop_last() =~= rest);
        }
    }
}

/// Masking keeps the number of lines.
pub proof fn mask_keeps_line_count(s: Seq<char>)
    ensures
        lines_of(masked_text(s)).len() == lines_of(s).len(),
{
    lemma_mask_of_len(s);
    lemma_blank_lines(s, mask_of(s));
    lemma_line_count(s);
    lemma_line_count(masked_text(s));
}

// ---------------------------------------------------------------------------
// What is masked and what is not
// ---------------------------------------------------------------------------

/// Whether the line that begins at `a` belongs to a fenced block, where `open` is the
/// block that is open in front of the line that begins at `from`.
pub open spec fn fenced_line(s: Seq<char>, open: Option<Fence>, from: int, a: int) -> bool
    decreases s.len() - from,
    when 0 <= from <= s.len()
    via fenced_line_ends
{
    if from >= s.len() {
        false
    } else {
        let line = s.subrange(from, line_end(s, from));
        if a == from {
            is_fenced(open, line)
        } else {
            fenced_line(s, open_behind(open, line), behind_line(s, from), a)
        }
    }
}

#[via_fn]
proof fn fenced_line_ends(s: Seq<char>, open: Option<Fence>, from: int, a: int) {
    lemma_ends(s, '`', from);
}

/// Whether the search for inline code from `from` on, given what is masked before it,
/// comes upon a span that reaches from `a` to `b`.
pub open spec fn is_span(s: Seq<char>, m: Seq<bool>, from: int, a: int, b: int) -> bool
    decreases s.len() - from,
    when 0 <= from <= s.len()
    via is_span_ends
{
    if from >= s.len() {
        false
    } else if !m[from] && s[from] == '`' {
        let e = run_end(s, '`', from);
        let close = span_close(s, e - from, e);
        if close >= s.len() {
            is_span(s, m, e, a, b)
        } else {
            (a == from && b == close + (e - from)) || is_span(
                s,
                fill(m, from, close + (e - from)),
                close + (e - from),
                a,
                b,
            )
        }
    } else {
        is_span(s, m, from + 1, a, b)
    }
}

#[via_fn]
proof fn is_span_ends(s: Seq<char>, m: Seq<bool>, from: int, a: int, b: int) {
    if from < s.len() && s[from] == '`' {
        lemma_run(s, '`', from);
        lemma_span_close(s, run_end(s, '`', from) - from, run_end(s, '`', from));
    }
}

/// Whatever is masked stays masked.
pub open spec fn covers_mask(m: Seq<bool>, more: Seq<bool>) -> bool {
    m.len() == more.len() && forall|k: int| 0 <= k < m.len() && m[k] ==> #[trigger] more[k]
}

proof fn lemma_fences_grow(s: Seq<char>, m: Seq<bool>, open: Option<Fence>, i: int)
    requires
        0 <= i <= s.len(),
        m.len() == s.len(),
    ensures
        covers_mask(m, mask_fences(s, m, open, i)),
    decreases s.len() - i,
{
    if i < s.len() {
        lemma_ends(s, '`', i);
        let line = s.subrange(i, line_end(s, i));
        let next = if is_fenced(open, line) {
            fill(m, i, line_end(s, i))
        } else {
            m
        };
        lemma_fences_grow(s, next, open_behind(open, line), behind_line(s, i));
    }
}

proof fn lemma_mask_grows(s: Seq<char>, m: Seq<bool>, i: int)
    requires
        0 <= i <= s.len(),
        m.len() == s.len(),
    ensures
        covers_mask(m, mask_display_math(s, m, i)),
        covers_mask(m, mask_inline_code(s, m, i)),
        covers_mask(m, mask_inline_math(s, m, i)),
    decreases s.len() - i,
{
    if i < s.len() {
        lemma_mask_grows(s, m, i + 1);
        if i + 2 <= s.len() {
            lemma_ends(s, '$', i + 2);
            lemma_double_dollar_fits(s, i + 2);
            let close = next_double_dollar(s, i + 2);
            if close < s.len() {
                lemma_mask_grows(s, fill(m, i, close + 2), close + 2);
            }
        }
        if s[i] == '`' {
            lemma_run(s, '`', i);
            let e = run_end(s, '`', i);
            lemma_span_close(s, e - i, e);
            let close = span_close(s, e - i, e);
            lemma_mask_grows(s, m, e);
            if close < s.len() {
                lemma_mask_grows(s, fill(m, i, close + (e - i)), close + (e - i));
            }
        }
        lemma_ends(s, '$', i + 1);
        let d = span_end(s, '$', i + 1);
        if d < s.len() {
            lemma_mask_grows(s, fill(m, i, d + 1), d + 1);
            lemma_mask_grows(s, m, d + 1);
        }
    }
}

proof fn lemma_fenced_masked(s: Seq<char>, m: Seq<bool>, open: Option<Fence>, from: int, a: int)
    requires
        0 <= from <= s.len(),
        m.len() == s.len(),
        fenced_line(s, open, from, a),
    ensures
        0 <= a < s.len(),
        forall|k: int|
            a <= k < line_end(s, a) ==> #[trigger] mask_fences(s, m, open, from)[k],
    decreases s.len() - from,
{
    lemma_ends(s, '`', from);
    let end = line_end(s, from);
    let line = s.subrange(from, end);
    let next = if is_fenced(open, line) {
        fill(m, from, end)
    } else {
        m
    };
    let behind = open_behind(open, line);
    if a == from {
        lemma_fences_grow(s, next, behind, behind_line(s, from));
        assert forall|k: int| a <= k < line_end(s, a) implies #[trigger] mask_fences(
            s,
            m,
            open,
            from,
        )[k] by {
            assert(next[k]);
            assert(mask_fences(s, next, behind, behind_line(s, from))[k]);
        }
    } else {
        lemma_fenced_masked(s, next, behind, behind_line(s, from), a);
        assert(mask_fences(s, m, open, from) == mask_fences(
            s,
            next,
            behind,
            behind_line(s, from),
        ));
    }
}

proof fn lemma_span_masked(s: Seq<char>, m: Seq<bool>, from: int, a: int, b: int)
    requires
        0 <= from <= s.len(),
        m.len() == s.len(),
        is_span(s, m, from, a, b),
    ensures
        0 <= a < b <= s.len(),
        forall|k: int| a <= k < b ==> #[trigger] mask_inline_code(s, m, from)[k],
    decreases s.len() - from,
{
    if !m[from] && s[from] == '`' {
        lemma_run(s, '`', from);
        let e = run_end(s, '`', from);
        lemma_span_close(s, e - from, e);
        let close = span_close(s, e - from, e);
        if close >= s.len() {
            lemma_span_masked(s, m, e, a, b);
            assert(mask_inline_code(s, m, from) == mask_inline_code(s, m, e));
        } else {
            let end = close + (e - from);
            let more = fill(m, from, end);
            if a == from && b == end {
                lemma_mask_grows(s, more, end);
                assert forall|k: int| a <= k < b implies #[trigger] mask_inline_code(
                    s,
                    m,
                    from,
                )[k] by {
                    assert(more[k]);
                    assert(mask_inline_code(s, more, end)[k]);
                }
            } else {
                lemma_span_masked(s, more, end, a, b);
                assert(mask_inline_code(s, m, from) == mask_inline_code(s, more, end));
            }
        }
    } else {
        lemma_span_masked(s, m, from + 1, a, b);
        assert(mask_inline_code(s, m, from) == mask_inline_code(s, m, from + 1));
    }
}

/// Every character of a line of a fenced block is masked, whatever else the text holds.
pub proof fn fenced_blocks_are_masked(s: Seq<char>, a: int)
    requires
        fenced_line(s, None, 0, a),
    ensures
        0 <= a < s.len(),
        forall|k: int| a <= k < line_end(s, a) ==> #[trigger] mask_of(s)[k],
{
    let none = Seq::new(s.len(), |k: int| false);
    lemma_fenced_masked(s, none, None, 0, a);
    lemma_fences_grow(s, none, None, 0);
    let fences = mask_fences(s, none, None, 0);
    lemma_mask_grows(s, fences, 0);
    let display = mask_display_math(s, fences, 0);
    lemma_mask_grows(s, display, 0);
    let code = mask_inline_code(s, display, 0);
    lemma_mask_grows(s, code, 0);
    lemma_ends(s, '`', a);
    assert forall|k: int| a <= k < line_end(s, a) implies #[trigger] mask_of(s)[k] by {
        assert(fences[k]);
        assert(display[k]);
        assert(code[k]);
    }
}

/// Every character of an inline code span is masked, whatever else the text holds.
pub proof fn code_spans_are_masked(s: Seq<char>, a: int, b: int)
    requires
        is_span(s, mask_of_blocks(s), 0, a, b),
    ensures
        0 <= a < b <= s.len(),
        forall|k: int| a <= k < b ==> #[trigger] mask_of(s)[k],
{
    let none = Seq::new(s.len(), |k: int| false);
    lemma_fences_grow(s, none, None, 0);
    lemma_mask_grows(s, mask_fences(s, none, None, 0), 0);
    let display = mask_of_blocks(s);
    lemma_span_masked(s, display, 0, a, b);
    let code = mask_inline_code(s, display, 0);
    lemma_mask_grows(s, display, 0);
    lemma_mask_grows(s, code, 0);
    assert forall|k: int| a <= k < b implies #[trigger] mask_of(s)[k] by {
        assert(code[k]);
    }
}

proof fn lemma_prose_unfenced(s: Seq<char>, m: Seq<bool>, i: int)
    requires
        0 <= i <= s.len(),
        forall|k: int|
            0 <= k < s.len() ==> #[trigger] s[k] != '`' && s[k] != '~' && s[k] != '$',
    ensures
        mask_fences(s, m, None, i) == m,
    decreases s.len() - i,
{
    if i < s.len() {
        lemma_ends(s, '`', i);
        let line = s.subrange(i, line_end(s, i));
        lemma_lead(line, 0);
        if lead_end(line, 0) < line.len() {
            assert(line[lead_end(line, 0)] == s[i + lead_end(line, 0)]);
        }
        lemma_prose_unfenced(s, m, behind_line(s, i));
    }
}

proof fn lemma_prose_unmasked(s: Seq<char>, m: Seq<bool>, i: int)
    requires
        0 <= i <= s.len(),
        forall|k: int|
            0 <= k < s.len() ==> #[trigger] s[k] != '`' && s[k] != '~' && s[k] != '$',
    ensures
        mask_display_math(s, m, i) == m,
        mask_inline_code(s, m, i) == m,
        mask_inline_math(s, m, i) == m,
    decreases s.len() - i,
{
    if i < s.len() {
        assert(s[i] != '`' && s[i] != '~' && s[i] != '$');
        lemma_prose_unmasked(s, m, i + 1);
    }
}

proof fn lemma_nothing_blanked(s: Seq<char>, m: Seq<bool>)
    requires
        m.len() == s.len(),
        forall|k: int| 0 <= k < m.len() ==> !#[trigger] m[k],
    ensures
        blank(s, m) == s,
    decreases s.len(),
{
    if s.len() > 0 {
        assert(!m[m.len() - 1]);
        assert forall|k: int| 0 <= k < m.drop_last().len() implies !#[trigger] m.drop_last()[k] by {
            assert(!m[k]);
        }
        lemma_nothing_blanked(s.drop_last(), m.drop_last());
        assert(s =~= s.drop_last() + seq![s.last()]);
    } else {
        assert(blank(s, m) =~= s);
    }
}

/// Prose without backticks, tildes and dollar signs is left as it is.
pub proof fn plain_prose_is_untouched(s: Seq<char>)
    requires
        forall|k: int|
            0 <= k < s.len() ==> #[trigger] s[k] != '`' && s[k] != '~' && s[k] != '$',
    ensures
        masked_text(s) == s,
{
    let none = Seq::new(s.len(), |k: int| false);
    lemma_prose_unfenced(s, none, 0);
    lemma_prose_unmasked(s, none, 0);
    lemma_nothing_blanked(s, none);
}

// ---------------------------------------------------------------------------
// What becomes of code and math
// ---------------------------------------------------------------------------

/// A text is blanked character by character: what is not masked stays, and so do line
/// ends; anything else becomes as many spaces as it has bytes.
pub proof fn text_is_blanked_by_character(a: Seq<char>, ma: Seq<bool>, c: char, masked: bool)
    requires
        ma.len() == a.len(),
    ensures
        !masked || c == '\n' || c == '\r' ==> blank(a.push(c), ma.push(masked)) == blank(a, ma).push(
            c,
        ),
        masked && c != '\n' && c != '\r' ==> blank(a.push(c), ma.push(masked)) == blank(a, ma)
            + Seq::new(encode_utf8(seq![c]).len(), |k: int| ' '),
        blank(Seq::<char>::empty(), Seq::<bool>::empty()).len() == 0,
{
    assert(a.push(c).drop_last() =~= a);
    assert(ma.push(masked).drop_last() =~= ma);
    lemma_encode_char(c);
    assert(blank(a, ma) + seq![c] =~= blank(a, ma).push(c));
    assert(encode_utf8(seq![c]).len() == utf8_len(c));
}

/// Whether no line of the text opens a fenced block.
pub open spec fn unfenced(s: Seq<char>) -> bool {
    forall|i: int| 0 <= i <= s.len() ==> opening(#[trigger] s.subrange(i, line_end(s, i))) is None
}

proof fn lemma_unfenced_line(s: Seq<char>, m: Seq<bool>, i: int)
    requires
        0 <= i <= s.len(),
        unfenced(s),
    ensures
        mask_fences(s, m, None, i) == m,
    decreases s.len() - i,
{
    if i < s.len() {
        lemma_ends(s, '`', i);
        let line = s.subrange(i, line_end(s, i));
        assert(opening(line) is None);
        assert(!is_fenced(None, line));
        assert(open_behind(None, line) is None);
        lemma_unfenced_line(s, m, behind_line(s, i));
    }
}

proof fn lemma_no_dollars(s: Seq<char>, m: Seq<bool>, i: int, j: int)
    requires
        0 <= i <= j <= s.len(),
        m.len() == s.len(),
        forall|k: int| i <= k < j ==> #[trigger] s[k] != '$',
    ensures
        mask_display_math(s, m, i) == mask_display_math(s, m, j),
        mask_inline_math(s, m, i) == mask_inline_math(s, m, j),
    decreases j - i,
{
    if i < j {
        assert(s[i] != '$');
        lemma_no_dollars(s, m, i + 1, j);
    }
}

proof fn lemma_no_ticks(s: Seq<char>, m: Seq<bool>, i: int, j: int)
    requires
        0 <= i <= j <= s.len(),
        m.len() == s.len(),
        forall|k: int| i <= k < j ==> #[trigger] s[k] != '`',
    ensures
        mask_inline_code(s, m, i) == mask_inline_code(s, m, j),
    decreases j - i,
{
    if i < j {
        assert(s[i] != '`');
        lemma_no_ticks(s, m, i + 1, j);
    }
}

proof fn lemma_no_close(s: Seq<char>, n: int, i: int, j: int)
    requires
        0 <= i <= j <= s.len(),
        forall|k: int| i <= k < j ==> #[trigger] s[k] != '`' && s[k] != '\n',
    ensures
        span_close(s, n, i) == span_close(s, n, j),
    decreases j - i,
{
    if i < j {
        assert(s[i] != '`');
        lemma_no_close(s, n, i + 1, j);
    }
}

proof fn lemma_short_line(s: Seq<char>, i: int)
    requires
        0 <= i <= s.len(),
        forall|k: int| 0 <= k < s.len() ==> #[trigger] s[k] != '~',
        forall|k: int, q: int|
            0 <= k && q == k + 2 && q < s.len() ==> !(#[trigger] s[k] == '`' && s[k + 1] == '`'
                && #[trigger] s[q] == '`'),
    ensures
        opening(s.subrange(i, line_end(s, i))) is None,
{
    lemma_ends(s, '`', i);
    let line = s.subrange(i, line_end(s, i));
    lemma_lead(line, 0);
    let k = lead_end(line, 0);
    if k < line.len() {
        assert(line[k] == s[i + k]);
        if line[k] == '`' {
            let e = run_end(line, '`', k);
            lemma_run_holds(line, '`', k);
            if e - k >= 3 {
                assert(line[k] == '`' && line[k + 1] == '`' && line[k + 2] == '`');
                assert(s[i + k] == '`' && s[i + k + 1] == '`' && s[i + k + 2] == '`');
            }
        }
    }
}

proof fn lemma_run_holds(s: Seq<char>, c: char, i: int)
    requires
        0 <= i <= s.len(),
    ensures
        i <= run_end(s, c, i) <= s.len(),
        forall|k: int| i <= k < run_end(s, c, i) ==> #[trigger] s[k] == c,
    decreases s.len() - i,
{
    if i < s.len() && s[i] == c {
        lemma_run_holds(s, c, i + 1);
    }
}

/// Two backticks with text of one line between them and none other in the note make
/// that text code: it is masked with its backticks, and nothing else is. With a line
/// end between them they are text, and nothing is masked.
pub proof fn one_code_span_is_masked(s: Seq<char>, i: int, j: int)
    requires
        0 <= i,
        i + 1 < j < s.len(),
        s[i] == '`',
        s[j] == '`',
        forall|k: int| 0 <= k < s.len() && k != i && k != j ==> #[trigger] s[k] != '`',
        forall|k: int| 0 <= k < s.len() ==> #[trigger] s[k] != '~' && s[k] != '$',
    ensures
        (forall|k: int| i < k < j ==> #[trigger] s[k] != '\n') ==> forall|k: int|
            0 <= k < s.len() ==> (#[trigger] mask_of(s)[k] <==> i <= k <= j),
        (exists|k: int| i < k < j && #[trigger] s[k] == '\n') ==> forall|k: int|
            0 <= k < s.len() ==> !#[trigger] mask_of(s)[k],
{
    let none = Seq::new(s.len(), |k: int| false);
    let n = s.len() as int;
    assert(unfenced(s)) by {
        assert forall|q: int| 0 <= q <= s.len() implies opening(
            #[trigger] s.subrange(q, line_end(s, q)),
        ) is None by {
            lemma_short_line(s, q);
        }
    }
    lemma_unfenced_line(s, none, 0);
    lemma_no_dollars(s, none, 0, n);
    assert(mask_of_blocks(s) == none);
    lemma_no_ticks(s, none, 0, i);
    assert(s[i + 1] != '`');
    assert(run_end(s, '`', i) == i + 1) by {
        assert(run_end(s, '`', i + 1) == i + 1);
    }
    assert(run_end(s, '`', j) == j + 1) by {
        if j + 1 < n {
            assert(s[j + 1] != '`');
        }
        assert(run_end(s, '`', j + 1) == j + 1);
    }
    if forall|k: int| i < k < j ==> #[trigger] s[k] != '\n' {
        lemma_no_close(s, 1, i + 1, j);
        assert(span_close(s, 1, j) == j);
        let m = fill(none, i, j + 1);
        lemma_no_ticks(s, m, j + 1, n);
        assert(mask_inline_code(s, none, i) == m);
        lemma_no_dollars(s, m, 0, n);
        assert(mask_of(s) == m);
    } else {
        let b = choose|b: int| i < b < j && #[trigger] s[b] == '\n';
        lemma_line_stops(s, 1, i + 1, b);
        assert(span_close(s, 1, i + 1) == n);
        lemma_no_ticks(s, none, i + 1, j);
        if j + 1 < n {
            lemma_never_closed(s, 1, j + 1);
        }
        assert(span_close(s, 1, j + 1) >= n);
        lemma_no_ticks(s, none, j + 1, n);
        assert(mask_inline_code(s, none, j) == none);
        lemma_no_dollars(s, none, 0, n);
        assert(mask_of(s) == none);
    }
}

proof fn lemma_line_stops(s: Seq<char>, n: int, i: int, b: int)
    requires
        0 <= i <= b < s.len(),
        s[b] == '\n',
        forall|k: int| i <= k < b ==> #[trigger] s[k] != '`',
    ensures
        span_close(s, n, i) == s.len(),
    decreases b - i,
{
    if i < b && s[i] != '\n' {
        assert(s[i] != '`');
        lemma_line_stops(s, n, i + 1, b);
    }
}

proof fn lemma_never_closed(s: Seq<char>, n: int, i: int)
    requires
        0 <= i <= s.len(),
        forall|k: int| i <= k < s.len() ==> #[trigger] s[k] != '`',
    ensures
        span_close(s, n, i) == s.len(),
    decreases s.len() - i,
{
    if i < s.len() && s[i] != '\n' {
        assert(s[i] != '`');
        lemma_never_closed(s, n, i + 1);
    }
}

/// Two dollar signs with text of one line between them and none other in the note make
/// that text math, unless a backslash stands before one of them: it is masked with its
/// dollar signs, and nothing else is.
pub proof fn one_formula_is_masked(s: Seq<char>, i: int, j: int)
    requires
        0 <= i,
        i + 1 < j < s.len(),
        s[i] == '$',
        s[j] == '$',
        forall|k: int| 0 <= k < s.len() && k != i && k != j ==> #[trigger] s[k] != '$',
        forall|k: int| 0 <= k < s.len() ==> #[trigger] s[k] != '~' && s[k] != '`',
        i == 0 || s[i - 1] != '\\',
        forall|k: int| i < k < j ==> #[trigger] s[k] != '\n',
    ensures
        s[j - 1] != '\\' ==> forall|k: int|
            0 <= k < s.len() ==> (#[trigger] mask_of(s)[k] <==> i <= k <= j),
        s[j - 1] == '\\' ==> forall|k: int| 0 <= k < s.len() ==> !#[trigger] mask_of(s)[k],
{
    let none = Seq::new(s.len(), |k: int| false);
    let n = s.len() as int;
    assert(unfenced(s)) by {
        assert forall|q: int| 0 <= q <= s.len() implies opening(
            #[trigger] s.subrange(q, line_end(s, q)),
        ) is None by {
            lemma_short_line(s, q);
        }
    }
    lemma_unfenced_line(s, none, 0);
    lemma_no_double(s, none, 0);
    assert(mask_of_blocks(s) == none);
    lemma_no_ticks(s, none, 0, n);
    assert(mask_inline_code(s, none, 0) == none);
    lemma_no_dollars(s, none, 0, i);
    lemma_span_reaches(s, i + 1, j);
    if s[j - 1] != '\\' {
        let m = fill(none, i, j + 1);
        lemma_no_dollars(s, m, j + 1, n);
        assert(mask_inline_math(s, none, i) == m);
        assert(mask_of(s) == m);
    } else {
        lemma_no_dollars(s, none, j + 1, n);
        assert(mask_inline_math(s, none, i) == none);
        assert(mask_of(s) == none);
    }
}

proof fn lemma_no_double(s: Seq<char>, m: Seq<bool>, i: int)
    requires
        0 <= i <= s.len(),
        m.len() == s.len(),
        forall|k: int, q: int|
            0 <= k && q == k + 1 && q < s.len() ==> !(#[trigger] s[k] == '$' && #[trigger] s[q]
                == '$'),
    ensures
        mask_display_math(s, m, i) == m,
    decreases s.len() - i,
{
    if i < s.len() {
        if i + 1 < s.len() {
            assert(!(s[i] == '$' && s[i + 1] == '$'));
        }
        lemma_no_double(s, m, i + 1);
    }
}

proof fn lemma_span_reaches(s: Seq<char>, i: int, j: int)
    requires
        0 <= i <= j < s.len(),
        s[j] == '$',
        forall|k: int| i <= k < j ==> #[trigger] s[k] != '$' && s[k] != '\n',
    ensures
        span_end(s, '$', i) == j,
    decreases j - i,
{
    if i < j {
        assert(s[i] != '$');
        lemma_span_reaches(s, i + 1, j);
    }
}

/// Two pairs of dollar signs with no other between them make what stands between them
/// math, over any number of lines, unless a backslash stands before one of them.
pub proof fn one_display_is_masked(s: Seq<char>, i: int, j: int)
    requires
        0 <= i,
        i + 2 <= j,
        j + 1 < s.len(),
        s[i] == '$' && s[i + 1] == '$' && s[j] == '$' && s[j + 1] == '$',
        forall|k: int| 0 <= k < i || i + 2 <= k < j || j + 2 <= k < s.len() ==> #[trigger] s[k] != '$',
        forall|k: int| 0 <= k < s.len() ==> #[trigger] s[k] != '~' && s[k] != '`',
        i == 0 || s[i - 1] != '\\',
        s[j - 1] != '\\',
    ensures
        forall|k: int| 0 <= k < s.len() ==> (#[trigger] mask_of(s)[k] <==> i <= k < j + 2),
{
    let none = Seq::new(s.len(), |k: int| false);
    let n = s.len() as int;
    assert(unfenced(s)) by {
        assert forall|q: int| 0 <= q <= s.len() implies opening(
            #[trigger] s.subrange(q, line_end(s, q)),
        ) is None by {
            lemma_short_line(s, q);
        }
    }
    lemma_unfenced_line(s, none, 0);
    lemma_no_dollars(s, none, 0, i);
    lemma_next_pair(s, i + 2, j);
    let m = fill(none, i, j + 2);
    lemma_no_dollars(s, m, j + 2, n);
    assert(mask_display_math(s, none, i) == m);
    assert(mask_of_blocks(s) == m);
    lemma_no_ticks(s, m, 0, n);
    assert(mask_inline_code(s, m, 0) == m);
    lemma_masked_dollars(s, m, 0);
    assert(mask_of(s) == m);
}

proof fn lemma_next_pair(s: Seq<char>, i: int, j: int)
    requires
        0 <= i <= j,
        double_dollar_at(s, j),
        forall|k: int| i <= k < j ==> #[trigger] s[k] != '$',
    ensures
        next_double_dollar(s, i) == j,
    decreases j - i,
{
    if i < j {
        assert(s[i] != '$');
        lemma_next_pair(s, i + 1, j);
    }
}

proof fn lemma_masked_dollars(s: Seq<char>, m: Seq<bool>, i: int)
    requires
        0 <= i <= s.len(),
        m.len() == s.len(),
        forall|k: int| 0 <= k < s.len() && #[trigger] s[k] == '$' ==> m[k],
    ensures
        mask_inline_math(s, m, i) == m,
    decreases s.len() - i,
{
    if i < s.len() {
        lemma_masked_dollars(s, m, i + 1);
    }
}

} // verus!
