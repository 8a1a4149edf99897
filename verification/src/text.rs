//! Text as sequences of characters: the small vocabulary in which the rest of
//! the library states what its functions do to strings.

use vstd::prelude::*;

verus! {

// ---------------------------------------------------------------------------
// Views of collections
// ---------------------------------------------------------------------------

/// The views of the elements of a sequence, in order.
pub open spec fn views<T: View>(s: Seq<T>) -> Seq<T::V> {
    s.map_values(|t: T| t@)
}

/// The view of what an option holds.
pub open spec fn opt_view<T: View>(o: Option<T>) -> Option<T::V> {
    match o {
        Some(t) => Some(t@),
        None => None,
    }
}

/// Appending an element appends its view.
pub broadcast proof fn views_push<T: View>(s: Seq<T>, x: T)
    ensures
        #[trigger] views(s.push(x)) == views(s).push(x@),
{
    assert(views(s.push(x)) =~= views(s).push(x@));
}

/// The views of no elements are no views.
pub broadcast proof fn views_empty<T: View>()
    ensures
        #[trigger] views(Seq::<T>::empty()) == Seq::<T::V>::empty(),
{
    assert(views(Seq::<T>::empty()) =~= Seq::<T::V>::empty());
}

/// What holds of the views of growing sequences.
pub broadcast group group_views {
    views_push,
    views_empty,
}

/// The views of a sequence behind another follow its views.
pub proof fn lemma_views_concat<T: View>(a: Seq<T>, b: Seq<T>)
    ensures
        views(a + b) == views(a) + views(b),
{
    assert(views(a + b) =~= views(a) + views(b));
}

// ---------------------------------------------------------------------------
// Character classes
// ---------------------------------------------------------------------------

/// Whether a character outside ASCII has the Unicode property `White_Space`.
pub uninterp spec fn unicode_whitespace(c: char) -> bool;

/// Whether a character outside ASCII is alphabetic by Unicode.
pub uninterp spec fn unicode_alphabetic(c: char) -> bool;

/// Whether a character outside ASCII is alphabetic or numeric by Unicode.
pub uninterp spec fn unicode_alphanumeric(c: char) -> bool;

/// A character of the ASCII range.
pub open spec fn is_ascii_char(c: char) -> bool {
    c < '\u{80}'
}

/// The white space of ASCII: the space, and tab to carriage return.
pub open spec fn ascii_whitespace(c: char) -> bool {
    c == ' ' || ('\t' <= c && c <= '\r')
}

/// A decimal digit of ASCII.
pub open spec fn is_digit(c: char) -> bool {
    '0' <= c && c <= '9'
}

/// An ASCII letter.
pub open spec fn ascii_alphabetic(c: char) -> bool {
    ('a' <= c && c <= 'z') || ('A' <= c && c <= 'Z')
}

/// White space.
pub open spec fn is_white(c: char) -> bool {
    if is_ascii_char(c) {
        ascii_whitespace(c)
    } else {
        unicode_whitespace(c)
    }
}

/// A letter.
pub open spec fn is_alphabetic(c: char) -> bool {
    if is_ascii_char(c) {
        ascii_alphabetic(c)
    } else {
        unicode_alphabetic(c)
    }
}

/// A letter or a number.
pub open spec fn is_alnum(c: char) -> bool {
    if is_ascii_char(c) {
        ascii_alphabetic(c) || is_digit(c)
    } else {
        unicode_alphanumeric(c)
    }
}

/// Calls `char::is_whitespace`. Within ASCII its answer is stated; outside it
/// is the Unicode property.
#[verifier::external_body]
pub(crate) fn char_is_whitespace(c: char) -> (r: bool)
    ensures
        is_ascii_char(c) ==> r == ascii_whitespace(c),
        !is_ascii_char(c) ==> r == unicode_whitespace(c),
{
    c.is_whitespace()
}

/// Calls `char::is_alphabetic`. Within ASCII its answer is stated; outside it
/// is the Unicode property.
#[verifier::external_body]
pub(crate) fn char_is_alphabetic(c: char) -> (r: bool)
    ensures
        is_ascii_char(c) ==> r == ascii_alphabetic(c),
        !is_ascii_char(c) ==> r == unicode_alphabetic(c),
{
    c.is_alphabetic()
}

/// Calls `char::is_alphanumeric`. Within ASCII its answer is stated; outside
/// it is the Unicode property.
#[verifier::external_body]
pub(crate) fn char_is_alphanumeric(c: char) -> (r: bool)
    ensures
        is_ascii_char(c) ==> r == (ascii_alphabetic(c) || is_digit(c)),
        !is_ascii_char(c) ==> r == unicode_alphanumeric(c),
{
    c.is_alphanumeric()
}

/// The lower case of an ASCII letter; any other character is left as it is.
pub open spec fn ascii_lower(c: char) -> char {
    if 'A' <= c && c <= 'Z' {
        ((c as u32) + 32) as char
    } else {
        c
    }
}

/// `ascii_lower`, computed.
pub fn char_ascii_lower(c: char) -> (r: char)
    ensures
        r == ascii_lower(c),
{
    if 'A' <= c && c <= 'Z' {
        ((c as u8) + 32) as char
    } else {
        c
    }
}

/// The text in lower case, where it holds characters outside ASCII.
pub uninterp spec fn unicode_lowercase(s: Seq<char>) -> Seq<char>;

/// The upper case of one character, as a text.
pub uninterp spec fn unicode_uppercase(c: char) -> Seq<char>;

/// Only ASCII characters.
pub open spec fn all_ascii(s: Seq<char>) -> bool {
    forall|i: int| 0 <= i < s.len() ==> is_ascii_char(#[trigger] s[i])
}

/// The text in lower case.
pub open spec fn lowercase(s: Seq<char>) -> Seq<char> {
    if all_ascii(s) {
        s.map_values(|c: char| ascii_lower(c))
    } else {
        unicode_lowercase(s)
    }
}

/// The upper case of one character.
pub open spec fn uppercase_char(c: char) -> Seq<char> {
    if is_ascii_char(c) {
        seq![ascii_upper(c)]
    } else {
        unicode_uppercase(c)
    }
}

/// The text in upper case, where it holds characters outside ASCII.
pub uninterp spec fn unicode_uppercase_text(s: Seq<char>) -> Seq<char>;

/// The upper case of an ASCII letter; any other character is left as it is.
pub open spec fn ascii_upper(c: char) -> char {
    if 'a' <= c && c <= 'z' {
        ((c as u32) - 32) as char
    } else {
        c
    }
}

/// The text in upper case.
pub open spec fn uppercase(s: Seq<char>) -> Seq<char> {
    if all_ascii(s) {
        s.map_values(|c: char| ascii_upper(c))
    } else {
        unicode_uppercase_text(s)
    }
}

/// Calls `str::to_uppercase`. For ASCII texts the result is stated; for others
/// it is what Unicode's case mapping makes of the text.
#[verifier::external_body]
pub(crate) fn to_uppercase_text(s: &str) -> (r: String)
    ensures
        all_ascii(s@) ==> r@ == s@.map_values(|c: char| ascii_upper(c)),
        !all_ascii(s@) ==> r@ == unicode_uppercase_text(s@),
{
    s.to_uppercase()
}

/// Calls `str::to_lowercase`. For ASCII texts the result is stated; for others
/// it is what Unicode's case mapping makes of the text.
#[verifier::external_body]
pub(crate) fn to_lowercase(s: &str) -> (r: String)
    ensures
        all_ascii(s@) ==> r@ == s@.map_values(|c: char| ascii_lower(c)),
        !all_ascii(s@) ==> r@ == unicode_lowercase(s@),
{
    s.to_lowercase()
}

/// Calls `char::to_uppercase`. For ASCII characters the result is stated; for
/// others it is what Unicode's case mapping makes of the character.
#[verifier::external_body]
pub(crate) fn to_uppercase_char(c: char) -> (r: String)
    ensures
        is_ascii_char(c) ==> r@ == seq![ascii_upper(c)],
        !is_ascii_char(c) ==> r@ == unicode_uppercase(c),
{
    c.to_uppercase().to_string()
}

// ---------------------------------------------------------------------------
// Building and taking apart
// ---------------------------------------------------------------------------

/// `String::push` appends one character.
pub assume_specification[ String::push ](s: &mut String, c: char)
    ensures
        final(s)@ == old(s)@.push(c),
;

/// `==` on string slices compares their characters.
pub assume_specification[ <str as PartialEq>::eq ](a: &str, b: &str) -> (r: bool)
    ensures
        r == (a@ == b@),
;

/// Whether two texts are the same.
pub fn same(a: &str, b: &str) -> (r: bool)
    ensures
        r == (a@ == b@),
{
    *a == *b
}

/// The characters of a string.
pub fn chars_of(s: &str) -> (r: Vec<char>)
    ensures
        r@ == s@,
{
    let mut v: Vec<char> = Vec::new();
    for c in it: s.chars()
        invariant
            it.seq() == s@,
            v@ == s@.take(it.index() as int),
    {
        v.push(c);
        assert(s@.take(it.index() as int + 1) =~= s@.take(it.index() as int).push(c));
    }
    assert(s@.take(s@.len() as int) =~= s@);
    v
}

/// The string made of the characters from `i` up to `j`.
pub fn string_range(v: &Vec<char>, i: usize, j: usize) -> (r: String)
    requires
        i <= j <= v@.len(),
    ensures
        r@ == v@.subrange(i as int, j as int),
{
    let mut s = String::new();
    let mut k: usize = i;
    assert(s@ =~= v@.subrange(i as int, i as int));
    while k < j
        invariant
            i <= k <= j <= v@.len(),
            s@ == v@.subrange(i as int, k as int),
        decreases j - k,
    {
        s.push(v[k]);
        k += 1;
        assert(v@.subrange(i as int, k as int) =~= v@.subrange(i as int, k as int - 1).push(v@[k - 1]));
    }
    s
}

// ---------------------------------------------------------------------------
// Trimming
// ---------------------------------------------------------------------------

/// The text without the white space at its start.
pub open spec fn trim_start(s: Seq<char>) -> Seq<char>
    decreases s.len(),
{
    if s.len() > 0 && is_white(s[0]) {
        trim_start(s.drop_first())
    } else {
        s
    }
}

/// The text without the white space at its end.
pub open spec fn trim_end(s: Seq<char>) -> Seq<char>
    decreases s.len(),
{
    if s.len() > 0 && is_white(s.last()) {
        trim_end(s.drop_last())
    } else {
        s
    }
}

/// The text without the white space at both ends.
pub open spec fn trim(s: Seq<char>) -> Seq<char> {
    trim_end(trim_start(s))
}

/// The text without the leading characters that are `c`.
pub open spec fn trim_start_char(s: Seq<char>, c: char) -> Seq<char>
    decreases s.len(),
{
    if s.len() > 0 && s[0] == c {
        trim_start_char(s.drop_first(), c)
    } else {
        s
    }
}

/// Where the text begins once leading white space is skipped.
fn skip_white(v: &Vec<char>) -> (k: usize)
    ensures
        k <= v@.len(),
        v@.skip(k as int) == trim_start(v@),
{
    let mut k: usize = 0;
    assert(v@.skip(0) =~= v@);
    while k < v.len()
        invariant
            k <= v@.len(),
            trim_start(v@.skip(k as int)) == trim_start(v@),
        ensures
            k <= v@.len(),
            v@.skip(k as int) == trim_start(v@),
        decreases v.len() - k,
    {
        if !char_is_whitespace(v[k]) {
            break;
        }
        assert(v@.skip(k as int).drop_first() =~= v@.skip(k as int + 1));
        k += 1;
    }
    k
}

/// The text without white space at its end.
pub fn str_trim_end(s: &str) -> (r: String)
    ensures
        r@ == trim_end(s@),
{
    let v = chars_of(s);
    let k: usize = end_of_text(&v, 0);
    assert(v@.subrange(0, v@.len() as int) =~= v@);
    string_range(&v, 0, k)
}

/// Where the text that begins at `from` ends once trailing white space is cut.
fn end_of_text(v: &Vec<char>, from: usize) -> (k: usize)
    requires
        from <= v@.len(),
    ensures
        from <= k <= v@.len(),
        v@.subrange(from as int, k as int) == trim_end(v@.subrange(from as int, v@.len() as int)),
{
    let mut k: usize = v.len();
    while k > from
        invariant
            from <= k <= v@.len(),
            trim_end(v@.subrange(from as int, k as int)) == trim_end(
                v@.subrange(from as int, v@.len() as int),
            ),
        ensures
            from <= k <= v@.len(),
            v@.subrange(from as int, k as int) == trim_end(
                v@.subrange(from as int, v@.len() as int),
            ),
        decreases k,
    {
        if !char_is_whitespace(v[k - 1]) {
            break;
        }
        assert(v@.subrange(from as int, k as int).drop_last() =~= v@.subrange(
            from as int,
            k as int - 1,
        ));
        k -= 1;
    }
    k
}

/// The text without white space at both ends.
pub fn str_trim(s: &str) -> (r: String)
    ensures
        r@ == trim(s@),
{
    let v = chars_of(s);
    let i: usize = skip_white(&v);
    let j: usize = end_of_text(&v, i);
    assert(v@.skip(i as int) =~= v@.subrange(i as int, v@.len() as int));
    string_range(&v, i, j)
}

/// The text without white space at its start.
pub fn str_trim_start(s: &str) -> (r: String)
    ensures
        r@ == trim_start(s@),
{
    let v = chars_of(s);
    let i: usize = skip_white(&v);
    assert(v@.skip(i as int) =~= v@.subrange(i as int, v@.len() as int));
    string_range(&v, i, v.len())
}

/// The text without the leading characters that are `c`.
pub fn str_trim_start_char(s: &str, c: char) -> (r: String)
    ensures
        r@ == trim_start_char(s@, c),
{
    let v = chars_of(s);
    let mut k: usize = 0;
    assert(v@.skip(0) =~= v@);
    while k < v.len() && v[k] == c
        invariant
            k <= v@.len(),
            trim_start_char(v@.skip(k as int), c) == trim_start_char(v@, c),
        decreases v.len() - k,
    {
        assert(v@.skip(k as int).drop_first() =~= v@.skip(k as int + 1));
        k += 1;
    }
    assert(v@.skip(k as int) =~= v@.subrange(k as int, v@.len() as int));
    string_range(&v, k, v.len())
}

// ---------------------------------------------------------------------------
// Splitting
// ---------------------------------------------------------------------------

/// The pieces of the text between the characters that are `c`.
pub open spec fn split_on(s: Seq<char>, c: char) -> Seq<Seq<char>>
    decreases s.len(),
{
    if s.len() == 0 {
        seq![Seq::empty()]
    } else {
        let before = split_on(s.drop_last(), c);
        if s.last() == c {
            before.push(Seq::empty())
        } else {
            before.drop_last().push(before.last().push(s.last()))
        }
    }
}

/// A line without the carriage return that may end it.
pub open spec fn without_cr(line: Seq<char>) -> Seq<char> {
    if line.len() > 0 && line.last() == '\r' {
        line.drop_last()
    } else {
        line
    }
}

/// The lines of the text: it is cut at each line feed, a carriage return before
/// a line feed belongs to the line end, and no empty line follows the last line
/// feed. A carriage return at the very end of the text, with no line feed
/// behind it, is kept.
pub open spec fn lines_of(s: Seq<char>) -> Seq<Seq<char>> {
    let parts = split_on(s, '\n');
    let ended = parts.drop_last().map_values(|l: Seq<char>| without_cr(l));
    if parts.last().len() == 0 {
        ended
    } else {
        ended.push(parts.last())
    }
}

/// The words of the text so far, and the word that is still open.
pub open spec fn word_state(s: Seq<char>) -> (Seq<Seq<char>>, Seq<char>)
    decreases s.len(),
{
    if s.len() == 0 {
        (Seq::empty(), Seq::empty())
    } else {
        let (done, open) = word_state(s.drop_last());
        if !is_white(s.last()) {
            (done, open.push(s.last()))
        } else if open.len() > 0 {
            (done.push(open), Seq::empty())
        } else {
            (done, open)
        }
    }
}

/// The words of the text: its longest stretches without white space.
pub open spec fn words_of(s: Seq<char>) -> Seq<Seq<char>> {
    let (done, open) = word_state(s);
    if open.len() > 0 {
        done.push(open)
    } else {
        done
    }
}

/// There is always at least one piece.
pub broadcast proof fn split_on_nonempty(s: Seq<char>, c: char)
    ensures
        (#[trigger] split_on(s, c)).len() > 0,
    decreases s.len(),
{
    if s.len() > 0 {
        split_on_nonempty(s.drop_last(), c);
    }
}

/// The pieces of the text between the characters that are `c`.
pub fn str_split(s: &str, c: char) -> (r: Vec<String>)
    ensures
        views(r@) == split_on(s@, c),
{
    broadcast use {group_views, split_on_nonempty};

    let v = chars_of(s);
    let mut parts: Vec<String> = Vec::new();
    let mut cur = String::new();
    let mut i: usize = 0;
    assert(v@.take(0) =~= Seq::empty());
    assert(views(parts@).push(cur@) =~= split_on(v@.take(0), c));
    while i < v.len()
        invariant
            i <= v@.len(),
            views(parts@).push(cur@) == split_on(v@.take(i as int), c),
        decreases v.len() - i,
    {
        let ch = v[i];
        assert(v@.take(i as int + 1).drop_last() =~= v@.take(i as int));
        let ghost before = views(parts@).push(cur@);
        assert(before.drop_last() =~= views(parts@));
        if ch == c {
            parts.push(cur);
            cur = String::new();
        } else {
            cur.push(ch);
        }
        i += 1;
    }
    assert(v@.take(v@.len() as int) =~= v@);
    parts.push(cur);
    parts
}

/// The lines of the text.
pub fn str_lines(s: &str) -> (r: Vec<String>)
    ensures
        views(r@) == lines_of(s@),
{
    broadcast use {group_views, split_on_nonempty};

    let parts = str_split(s, '\n');
    let ghost pieces = split_on(s@, '\n');
    let last: usize = parts.len() - 1;
    let mut out: Vec<String> = Vec::new();
    let mut i: usize = 0;
    let ghost ended = pieces.drop_last().map_values(|l: Seq<char>| without_cr(l));
    assert(views(out@) =~= ended.take(0));
    while i < last
        invariant
            i <= last,
            last == parts@.len() - 1,
            views(parts@) == pieces,
            ended == pieces.drop_last().map_values(|l: Seq<char>| without_cr(l)),
            views(out@) == ended.take(i as int),
        decreases last - i,
    {
        assert(parts@[i as int]@ == pieces[i as int]);
        let line = chars_of(parts[i].as_str());
        let n: usize = line.len();
        if n > 0 && line[n - 1] == '\r' {
            let cut = string_range(&line, 0, n - 1);
            assert(cut@ =~= pieces[i as int].drop_last());
            out.push(cut);
        } else {
            out.push(parts[i].clone());
        }
        i += 1;
        assert(ended.take(i as int) =~= ended.take(i as int - 1).push(ended[i as int - 1]));
    }
    assert(ended.take(last as int) =~= ended);
    assert(parts@[last as int]@ == pieces.last());
    if !parts[last].as_str().is_empty() {
        out.push(parts[last].clone());
    }
    out
}

/// The words of the text.
pub fn str_words(s: &str) -> (r: Vec<String>)
    ensures
        views(r@) == words_of(s@),
{
    broadcast use group_views;

    let v = chars_of(s);
    let mut done: Vec<String> = Vec::new();
    let mut open = String::new();
    let mut i: usize = 0;
    assert(v@.take(0) =~= Seq::empty());
    while i < v.len()
        invariant
            i <= v@.len(),
            (views(done@), open@) == word_state(v@.take(i as int)),
        decreases v.len() - i,
    {
        let ch = v[i];
        assert(v@.take(i as int + 1).drop_last() =~= v@.take(i as int));
        if !char_is_whitespace(ch) {
            open.push(ch);
        } else if !open.as_str().is_empty() {
            done.push(open);
            open = String::new();
        }
        i += 1;
    }
    assert(v@.take(v@.len() as int) =~= v@);
    if !open.as_str().is_empty() {
        done.push(open);
    }
    done
}

// ---------------------------------------------------------------------------
// Searching
// ---------------------------------------------------------------------------

/// Whether `p` stands in `s` at position `i`.
pub open spec fn occurs_at(s: Seq<char>, p: Seq<char>, i: int) -> bool {
    0 <= i && i + p.len() <= s.len() && s.subrange(i, i + p.len()) == p
}

/// The first position, from `i` on, at which `p` stands in `s`.
pub open spec fn find_from(s: Seq<char>, p: Seq<char>, i: int) -> Option<int>
    decreases s.len() - i + 1,
{
    if i + p.len() > s.len() {
        None
    } else if occurs_at(s, p, i) {
        Some(i)
    } else {
        find_from(s, p, i + 1)
    }
}

/// Whether `p` stands anywhere in `s`.
pub open spec fn contains_str(s: Seq<char>, p: Seq<char>) -> bool {
    exists|i: int| occurs_at(s, p, i)
}

/// What `find_from` finds is the first occurrence from `i` on; where it finds
/// none there is none.
pub proof fn lemma_find_from(s: Seq<char>, p: Seq<char>, i: int)
    requires
        0 <= i,
    ensures
        match find_from(s, p, i) {
            Some(k) => i <= k && occurs_at(s, p, k) && (forall|j: int|
                i <= j < k ==> !occurs_at(s, p, j)),
            None => forall|j: int| i <= j ==> !occurs_at(s, p, j),
        },
    decreases s.len() - i + 1,
{
    if i + p.len() <= s.len() && !occurs_at(s, p, i) {
        lemma_find_from(s, p, i + 1);
    }
}

/// Whether the characters `p` stand in `s` at `i`.
pub fn stands_at(s: &Vec<char>, p: &Vec<char>, i: usize) -> (r: bool)
    requires
        i <= s@.len(),
    ensures
        r == occurs_at(s@, p@, i as int),
{
    let n: usize = s.len();
    if p.len() > n - i {
        return false;
    }
    let mut k: usize = 0;
    while k < p.len()
        invariant
            k <= p@.len(),
            i + p@.len() <= s@.len() <= usize::MAX,
            forall|j: int| 0 <= j < k ==> s@[i + j] == p@[j],
        decreases p.len() - k,
    {
        if s[i + k] != p[k] {
            assert(s@.subrange(i as int, i + p@.len())[k as int] != p@[k as int]);
            return false;
        }
        k += 1;
    }
    assert(s@.subrange(i as int, i + p@.len()) =~= p@);
    true
}

/// The first position, from `from` on, at which `p` stands in `s`.
pub fn find_chars(s: &Vec<char>, p: &Vec<char>, from: usize) -> (r: Option<usize>)
    requires
        from <= s@.len(),
    ensures
        match r {
            Some(k) => find_from(s@, p@, from as int) == Some(k as int),
            None => find_from(s@, p@, from as int) is None,
        },
{
    let mut i: usize = from;
    while i <= s.len() && p.len() <= s.len() - i
        invariant
            from <= i,
            find_from(s@, p@, i as int) == find_from(s@, p@, from as int),
        decreases s@.len() + 1 - i,
    {
        if stands_at(s, p, i) {
            return Some(i);
        }
        if i == s.len() {
            assert(find_from(s@, p@, i + 1) is None);
            return None;
        }
        i += 1;
    }
    None
}

/// Whether `p` stands anywhere in `s`.
pub fn str_contains(s: &str, p: &str) -> (r: bool)
    ensures
        r == contains_str(s@, p@),
{
    let sv = chars_of(s);
    let pv = chars_of(p);
    proof {
        lemma_find_from(s@, p@, 0);
    }
    match find_chars(&sv, &pv, 0) {
        Some(k) => {
            assert(occurs_at(s@, p@, k as int));
            true
        },
        None => {
            assert forall|i: int| !occurs_at(s@, p@, i) by {
                if i < 0 {
                }
            }
            false
        },
    }
}

/// Whether the text holds the character.
pub fn str_contains_char(s: &str, c: char) -> (r: bool)
    ensures
        r == s@.contains(c),
{
    let v = chars_of(s);
    let mut i: usize = 0;
    while i < v.len()
        invariant
            i <= v@.len(),
            v@ == s@,
            forall|j: int| 0 <= j < i ==> v@[j] != c,
        decreases v.len() - i,
    {
        if v[i] == c {
            assert(v@[i as int] == c);
            return true;
        }
        i += 1;
    }
    false
}

/// Whether `p` begins the text.
pub fn str_starts_with(s: &str, p: &str) -> (r: bool)
    ensures
        r == p@.is_prefix_of(s@),
{
    let sv = chars_of(s);
    let pv = chars_of(p);
    stands_at(&sv, &pv, 0)
}

/// Whether `p` ends the text.
pub fn str_ends_with(s: &str, p: &str) -> (r: bool)
    ensures
        r == p@.is_suffix_of(s@),
{
    let sv = chars_of(s);
    let pv = chars_of(p);
    if pv.len() > sv.len() {
        return false;
    }
    stands_at(&sv, &pv, sv.len() - pv.len())
}

/// The text from position `i` up to `j`.
pub fn str_range(s: &str, i: usize, j: usize) -> (r: String)
    requires
        i <= j <= s@.len(),
    ensures
        r@ == s@.subrange(i as int, j as int),
{
    let v = chars_of(s);
    string_range(&v, i, j)
}

/// The pieces of the text between the occurrences of `p`, taken from the left
/// and without overlap.
pub open spec fn split_str(s: Seq<char>, p: Seq<char>) -> Seq<Seq<char>>
    recommends
        p.len() > 0,
    decreases s.len(),
    when p.len() > 0
    via split_str_shrinks
{
    match find_from(s, p, 0) {
        None => seq![s],
        Some(k) => seq![s.take(k)] + split_str(s.skip(k + p.len()), p),
    }
}

#[via_fn]
proof fn split_str_shrinks(s: Seq<char>, p: Seq<char>) {
    lemma_find_from(s, p, 0);
}

/// What is found behind `from` is what is found in the rest of the text.
pub proof fn lemma_find_in_rest(s: Seq<char>, p: Seq<char>, from: int, i: int)
    requires
        0 <= from <= i,
        from <= s.len(),
    ensures
        find_from(s, p, i) == match find_from(s.skip(from), p, i - from) {
            Some(k) => Some(k + from),
            None => None::<int>,
        },
    decreases s.len() - i + 1,
{
    let rest = s.skip(from);
    if i + p.len() <= s.len() {
        assert(rest.subrange(i - from, i - from + p.len()) =~= s.subrange(i, i + p.len()));
        if !occurs_at(s, p, i) {
            lemma_find_in_rest(s, p, from, i + 1);
        }
    }
}

/// The pieces of the text between the occurrences of `p`.
pub fn str_split_str(s: &str, p: &str) -> (r: Vec<String>)
    requires
        p@.len() > 0,
    ensures
        views(r@) == split_str(s@, p@),
{
    broadcast use group_views;

    let sv = chars_of(s);
    let pv = chars_of(p);
    let n: usize = sv.len();
    let mut parts: Vec<String> = Vec::new();
    let mut from: usize = 0;
    assert(s@.skip(0) =~= s@);
    assert(views(parts@) + split_str(s@, p@) =~= split_str(s@, p@));
    loop
        invariant
            from <= n,
            n == sv@.len(),
            sv@ == s@,
            pv@ == p@,
            p@.len() > 0,
            views(parts@) + split_str(s@.skip(from as int), p@) == split_str(s@, p@),
        decreases sv@.len() - from,
    {
        let ghost rest = s@.skip(from as int);
        let ghost before = views(parts@);
        proof {
            lemma_find_in_rest(s@, p@, from as int, from as int);
            lemma_find_from(rest, p@, 0);
        }
        match find_chars(&sv, &pv, from) {
            None => {
                parts.push(string_range(&sv, from, sv.len()));
                assert(rest =~= s@.subrange(from as int, s@.len() as int));
                assert(views(parts@) =~= before + seq![rest]);
                return parts;
            },
            Some(k) => {
                parts.push(string_range(&sv, from, k));
                assert(rest.take(k - from) =~= s@.subrange(from as int, k as int));
                assert(rest.skip(k - from + p@.len()) =~= s@.skip(k + p@.len()));
                assert(views(parts@) + split_str(s@.skip(k + p@.len()), p@) =~= before + (seq![
                    rest.take(k - from),
                ] + split_str(s@.skip(k + p@.len()), p@)));
                from = k + pv.len();
            },
        }
    }
}

// ---------------------------------------------------------------------------
// Putting together
// ---------------------------------------------------------------------------

/// The parts in order, with `sep` between neighbours.
pub open spec fn join(parts: Seq<Seq<char>>, sep: Seq<char>) -> Seq<char>
    decreases parts.len(),
{
    if parts.len() == 0 {
        Seq::empty()
    } else if parts.len() == 1 {
        parts[0]
    } else {
        join(parts.drop_last(), sep) + sep + parts.last()
    }
}

/// The parts in order, with `sep` between neighbours.
pub fn str_join(parts: &Vec<String>, sep: &str) -> (r: String)
    ensures
        r@ == join(views(parts@), sep@),
{
    let mut out = String::new();
    let mut i: usize = 0;
    let ghost all = views(parts@);
    while i < parts.len()
        invariant
            i <= parts@.len(),
            all == views(parts@),
            out@ == join(all.take(i as int), sep@),
        decreases parts.len() - i,
    {
        assert(all.take(i as int + 1).drop_last() =~= all.take(i as int));
        if i > 0 {
            out.append(sep);
        } else {
            assert(out@ =~= Seq::empty());
            assert(Seq::<char>::empty() + parts@[0]@ =~= parts@[0]@);
        }
        out.append(parts[i].as_str());
        i += 1;
    }
    assert(all.take(all.len() as int) =~= all);
    out
}

/// The digit that stands for `d`.
pub open spec fn digit_char(d: nat) -> char {
    (('0' as u32) + d) as char
}

/// A number in decimal.
pub open spec fn decimal(n: nat) -> Seq<char>
    decreases n,
{
    if n < 10 {
        seq![digit_char(n)]
    } else {
        decimal(n / 10).push(digit_char(n % 10))
    }
}

/// A number in decimal.
pub fn to_decimal(n: u64) -> (r: String)
    ensures
        r@ == decimal(n as nat),
    decreases n,
{
    let d: u8 = (n % 10) as u8;
    let c = (48u8 + d) as char;
    assert(c == digit_char((n % 10) as nat));
    if n < 10 {
        let mut s = String::new();
        s.push(c);
        assert(s@ =~= seq![digit_char(n as nat)]);
        s
    } else {
        let mut s = to_decimal(n / 10);
        s.push(c);
        s
    }
}

/// Appends a number in decimal.
pub fn push_decimal(out: &mut String, n: usize)
    ensures
        final(out)@ == old(out)@ + decimal(n as nat),
{
    let d = to_decimal(n as u64);
    out.append(d.as_str());
}

/// The text with each `a` replaced by `b`.
pub open spec fn replace_char(s: Seq<char>, a: char, b: char) -> Seq<char> {
    s.map_values(|c: char| if c == a { b } else { c })
}

/// The text with each `a` replaced by `b`.
pub fn str_replace_char(s: &str, a: char, b: char) -> (r: String)
    ensures
        r@ == replace_char(s@, a, b),
{
    let v = chars_of(s);
    let mut out = String::new();
    let mut i: usize = 0;
    assert(out@ =~= replace_char(s@, a, b).take(0));
    while i < v.len()
        invariant
            i <= v@.len(),
            v@ == s@,
            out@ == replace_char(s@, a, b).take(i as int),
        decreases v.len() - i,
    {
        out.push(if v[i] == a { b } else { v[i] });
        i += 1;
        assert(out@ =~= replace_char(s@, a, b).take(i as int));
    }
    assert(replace_char(s@, a, b).take(i as int) =~= replace_char(s@, a, b));
    out
}

// ---------------------------------------------------------------------------
// Order
// ---------------------------------------------------------------------------

/// The lexicographic order of texts by code point, strict.
pub open spec fn text_lt(a: Seq<char>, b: Seq<char>) -> bool
    decreases a.len(),
{
    if b.len() == 0 {
        false
    } else if a.len() == 0 {
        true
    } else if a[0] == b[0] {
        text_lt(a.drop_first(), b.drop_first())
    } else {
        a[0] < b[0]
    }
}

/// Whether `a` comes before `b` in the lexicographic order.
pub fn str_lt(a: &str, b: &str) -> (r: bool)
    ensures
        r == text_lt(a@, b@),
{
    let av = chars_of(a);
    let bv = chars_of(b);
    let mut i: usize = 0;
    assert(a@.skip(0) =~= a@);
    assert(b@.skip(0) =~= b@);
    while i < av.len() && i < bv.len()
        invariant
            i <= av@.len(),
            i <= bv@.len(),
            av@ == a@,
            bv@ == b@,
            text_lt(a@.skip(i as int), b@.skip(i as int)) == text_lt(a@, b@),
        decreases av.len() - i,
    {
        if av[i] != bv[i] {
            return av[i] < bv[i];
        }
        assert(a@.skip(i as int).drop_first() =~= a@.skip(i as int + 1));
        assert(b@.skip(i as int).drop_first() =~= b@.skip(i as int + 1));
        i += 1;
    }
    i < bv.len()
}

/// The order is irreflexive.
pub proof fn lemma_text_lt_irreflexive(a: Seq<char>)
    ensures
        !text_lt(a, a),
    decreases a.len(),
{
    if a.len() > 0 {
        lemma_text_lt_irreflexive(a.drop_first());
    }
}

/// The order is transitive.
pub proof fn lemma_text_lt_transitive(a: Seq<char>, b: Seq<char>, c: Seq<char>)
    requires
        text_lt(a, b),
        text_lt(b, c),
    ensures
        text_lt(a, c),
    decreases a.len(),
{
    if a.len() > 0 && a[0] == b[0] && b[0] == c[0] {
        lemma_text_lt_transitive(a.drop_first(), b.drop_first(), c.drop_first());
    }
}

/// The order is total.
pub proof fn lemma_text_lt_total(a: Seq<char>, b: Seq<char>)
    ensures
        text_lt(a, b) || text_lt(b, a) || a == b,
    decreases a.len(),
{
    if a.len() > 0 && b.len() > 0 && a[0] == b[0] {
        lemma_text_lt_total(a.drop_first(), b.drop_first());
        if a.drop_first() == b.drop_first() {
            assert(a =~= seq![a[0]] + a.drop_first());
            assert(b =~= seq![b[0]] + b.drop_first());
        }
    } else if a.len() == 0 && b.len() == 0 {
        assert(a =~= b);
    }
}

// ---------------------------------------------------------------------------
// Copies
// ---------------------------------------------------------------------------

/// A copy of an optional string.
pub fn clone_opt(o: &Option<String>) -> (r: Option<String>)
    ensures
        opt_view(r) == opt_view(*o),
{
    match o {
        Some(s) => Some(s.clone()),
        None => None,
    }
}

/// A copy of a list of strings.
pub fn clone_strings(v: &Vec<String>) -> (r: Vec<String>)
    ensures
        views(r@) == views(v@),
{
    broadcast use group_views;

    let mut out: Vec<String> = Vec::new();
    let mut i: usize = 0;
    while i < v.len()
        invariant
            i <= v@.len(),
            views(out@) == views(v@).take(i as int),
        decreases v.len() - i,
    {
        out.push(v[i].clone());
        i += 1;
        assert(views(v@).take(i as int) =~= views(v@).take(i as int - 1).push(v@[i as int - 1]@));
    }
    assert(views(v@).take(i as int) =~= views(v@));
    out
}

/// Whether the list holds the text.
pub fn holds_str(v: &Vec<String>, s: &str) -> (r: bool)
    ensures
        r == views(v@).contains(s@),
{
    let mut i: usize = 0;
    while i < v.len()
        invariant
            i <= v@.len(),
            forall|j: int| 0 <= j < i ==> #[trigger] views(v@)[j] != s@,
        decreases v.len() - i,
    {
        assert(views(v@)[i as int] == v@[i as int]@);
        if same(v[i].as_str(), s) {
            return true;
        }
        i += 1;
    }
    false
}

// ---------------------------------------------------------------------------
// What holds of texts
// ---------------------------------------------------------------------------

/// Trimming takes the white space off both ends and nothing else: what is left is a
/// piece of the text that neither begins nor ends with white space, and around it there
/// is only white space.
pub proof fn trimming_takes_white_space_off(s: Seq<char>) -> (bounds: (int, int))
    ensures
        0 <= bounds.0 <= bounds.1 <= s.len(),
        trim(s) == s.subrange(bounds.0, bounds.1),
        forall|i: int| 0 <= i < bounds.0 || bounds.1 <= i < s.len() ==> is_white(#[trigger] s[i]),
        bounds.0 < bounds.1 ==> !is_white(s[bounds.0]) && !is_white(s[bounds.1 - 1]),
{
    let a = lemma_start_trimmed(s);
    let rest = s.skip(a);
    let b = lemma_end_trimmed(rest);
    assert(trim(s) =~= s.subrange(a, a + b));
    assert forall|i: int| 0 <= i < a || a + b <= i < s.len() implies is_white(#[trigger] s[i]) by {
        if i >= a {
            assert(s[i] == rest[i - a]);
        }
    }
    if b > 0 {
        assert(s[a + b - 1] == rest[b - 1]);
    }
    (a, a + b)
}

proof fn lemma_start_trimmed(s: Seq<char>) -> (a: int)
    ensures
        0 <= a <= s.len(),
        trim_start(s) == s.skip(a),
        forall|i: int| 0 <= i < a ==> is_white(#[trigger] s[i]),
        a < s.len() ==> !is_white(s[a]),
    decreases s.len(),
{
    if s.len() > 0 && is_white(s[0]) {
        let rest = s.drop_first();
        let a = lemma_start_trimmed(rest);
        assert(rest.skip(a) =~= s.skip(a + 1));
        assert forall|i: int| 0 <= i < a + 1 implies is_white(#[trigger] s[i]) by {
            if i > 0 {
                assert(s[i] == rest[i - 1]);
            }
        }
        a + 1
    } else {
        assert(s.skip(0) =~= s);
        0
    }
}

proof fn lemma_end_trimmed(s: Seq<char>) -> (b: int)
    ensures
        0 <= b <= s.len(),
        trim_end(s) == s.take(b),
        forall|i: int| b <= i < s.len() ==> is_white(#[trigger] s[i]),
        b > 0 ==> !is_white(s[b - 1]),
    decreases s.len(),
{
    if s.len() > 0 && is_white(s.last()) {
        let rest = s.drop_last();
        let b = lemma_end_trimmed(rest);
        assert(rest.take(b) =~= s.take(b));
        assert forall|i: int| b <= i < s.len() implies is_white(#[trigger] s[i]) by {
            if i < rest.len() {
                assert(s[i] == rest[i]);
            }
        }
        b
    } else {
        assert(s.take(s.len() as int) =~= s);
        s.len() as int
    }
}

/// Taking a character off the front takes every copy of it there off and nothing else.
pub proof fn leading_copies_are_taken_off(s: Seq<char>, c: char) -> (a: int)
    ensures
        0 <= a <= s.len(),
        trim_start_char(s, c) == s.skip(a),
        forall|i: int| 0 <= i < a ==> #[trigger] s[i] == c,
        a < s.len() ==> s[a] != c,
    decreases s.len(),
{
    if s.len() > 0 && s[0] == c {
        let rest = s.drop_first();
        let a = leading_copies_are_taken_off(rest, c);
        assert(rest.skip(a) =~= s.skip(a + 1));
        assert forall|i: int| 0 <= i < a + 1 implies #[trigger] s[i] == c by {
            if i > 0 {
                assert(s[i] == rest[i - 1]);
            }
        }
        a + 1
    } else {
        assert(s.skip(0) =~= s);
        0
    }
}

/// The pieces of a split text, joined by what it was split at, are the text, and none
/// of them holds what it was split at.
pub proof fn split_pieces_join_again(s: Seq<char>, c: char)
    ensures
        join(split_on(s, c), seq![c]) == s,
        forall|i: int| 0 <= i < split_on(s, c).len() ==> !(#[trigger] split_on(s, c)[i]).contains(c),
    decreases s.len(),
{
    let r = split_on(s, c);
    let sep = seq![c];
    if s.len() == 0 {
        assert(join(r, sep) =~= s);
    } else {
        let rest = s.drop_last();
        let before = split_on(rest, c);
        split_on_nonempty(rest, c);
        split_pieces_join_again(rest, c);
        assert(rest.push(s.last()) =~= s);
        if s.last() == c {
            assert(r.drop_last() =~= before);
            assert(join(r, sep) =~= join(before, sep) + sep + Seq::<char>::empty());
            assert(join(r, sep) =~= s);
        } else {
            assert(r.drop_last() =~= before.drop_last());
            assert(r.last() == before.last().push(s.last()));
            if r.len() == 1 {
                assert(join(r, sep) =~= s);
            } else {
                assert(join(r, sep) =~= join(before.drop_last(), sep) + sep + r.last());
                assert(join(before, sep) =~= join(before.drop_last(), sep) + sep + before.last());
                assert(join(r, sep) =~= s);
            }
            assert forall|i: int| 0 <= i < r.len() implies !(#[trigger] r[i]).contains(c) by {
                if i < r.len() - 1 {
                    assert(r[i] == before[i]);
                } else {
                    let piece = before[before.len() - 1];
                    assert(!piece.contains(c));
                    if r[i].contains(c) {
                        let k = choose|k: int| 0 <= k < r[i].len() && r[i][k] == c;
                        assert(piece[k] == c);
                    }
                }
            }
        }
    }
}

/// Joining is done piece by piece: what is joined of a first and a second part is
/// joined of each, with the separator between. One piece alone is itself.
pub proof fn joined_parts_join(a: Seq<Seq<char>>, b: Seq<Seq<char>>, sep: Seq<char>)
    ensures
        a.len() > 0 && b.len() > 0 ==> join(a + b, sep) == join(a, sep) + sep + join(b, sep),
        a.len() == 0 ==> join(a + b, sep) == join(b, sep),
        a.len() == 1 ==> join(a, sep) == a[0],
        a.len() == 0 ==> join(a, sep).len() == 0,
    decreases b.len(),
{
    if a.len() == 0 {
        assert(a + b =~= b);
    } else if b.len() == 1 {
        assert((a + b).drop_last() =~= a);
        assert(join(a + b, sep) =~= join(a, sep) + sep + b[0]);
    } else if b.len() > 1 {
        joined_parts_join(a, b.drop_last(), sep);
        assert((a + b).drop_last() =~= a + b.drop_last());
        assert(join(a + b, sep) =~= join(a, sep) + sep + join(b, sep));
    }
}

/// A text without white space is one word, and an empty one has none. White space ends
/// a word: the words of a text are those before it and those behind it.
pub proof fn white_space_parts_words(a: Seq<char>, c: char, b: Seq<char>)
    requires
        is_white(c),
    ensures
        words_of(a + seq![c] + b) == words_of(a) + words_of(b),
        a.len() == 0 ==> words_of(a).len() == 0,
        a.len() > 0 && (forall|i: int| 0 <= i < a.len() ==> !is_white(#[trigger] a[i])) ==> words_of(a)
            == seq![a],
{
    if forall|i: int| 0 <= i < a.len() ==> !is_white(#[trigger] a[i]) {
        lemma_one_word(a);
        assert(words_of(a) =~= if a.len() > 0 {
            seq![a]
        } else {
            Seq::empty()
        });
    }
    let s = a + seq![c];
    assert(s.drop_last() =~= a);
    assert(word_state(s) == (words_of(a), Seq::<char>::empty()));
    lemma_words_behind(s, b);
}

proof fn lemma_one_word(a: Seq<char>)
    requires
        forall|i: int| 0 <= i < a.len() ==> !is_white(#[trigger] a[i]),
    ensures
        word_state(a) == (Seq::<Seq<char>>::empty(), a),
    decreases a.len(),
{
    if a.len() > 0 {
        assert forall|i: int| 0 <= i < a.drop_last().len() implies !is_white(
            #[trigger] a.drop_last()[i],
        ) by {
            assert(a.drop_last()[i] == a[i]);
        }
        lemma_one_word(a.drop_last());
        assert(!is_white(a[a.len() - 1]));
        assert(a.drop_last().push(a.last()) =~= a);
    } else {
        assert(a =~= Seq::<char>::empty());
    }
}

proof fn lemma_words_behind(s: Seq<char>, b: Seq<char>)
    requires
        word_state(s).1.len() == 0,
    ensures
        word_state(s + b) == (word_state(s).0 + word_state(b).0, word_state(b).1),
        words_of(s + b) == word_state(s).0 + words_of(b),
    decreases b.len(),
{
    if b.len() == 0 {
        assert(s + b =~= s);
        assert(word_state(s).0 + word_state(b).0 =~= word_state(s).0);
        assert(word_state(s).1 =~= word_state(b).1);
    } else {
        lemma_words_behind(s, b.drop_last());
        assert((s + b).drop_last() =~= s + b.drop_last());
        assert((s + b).last() == b.last());
        let open = word_state(b.drop_last()).1;
        assert(word_state(s).0 + word_state(b.drop_last()).0.push(open) =~= (word_state(s).0
            + word_state(b.drop_last()).0).push(open));
    }
    let (done, open) = word_state(b);
    assert((word_state(s).0 + done).push(open) =~= word_state(s).0 + done.push(open));
}

/// The order of texts is decided where they first differ; a text comes before those
/// that it begins.
pub proof fn first_difference_decides(a: Seq<char>, b: Seq<char>, k: int)
    requires
        0 <= k <= a.len(),
        k <= b.len(),
        a.take(k) == b.take(k),
    ensures
        k < a.len() && k < b.len() && a[k] != b[k] ==> text_lt(a, b) == (a[k] < b[k]),
        k == a.len() ==> text_lt(a, b) == (k < b.len()),
        k == b.len() ==> !text_lt(a, b),
    decreases k,
{
    if k > 0 {
        assert(a.take(k)[0] == a[0] && b.take(k)[0] == b[0]);
        assert(a.drop_first().take(k - 1) =~= a.take(k).drop_first());
        assert(b.drop_first().take(k - 1) =~= b.take(k).drop_first());
        first_difference_decides(a.drop_first(), b.drop_first(), k - 1);
        if k < a.len() && k < b.len() {
            assert(a.drop_first()[k - 1] == a[k] && b.drop_first()[k - 1] == b[k]);
        }
    }
}

/// Of two different texts exactly one comes before the other, and what comes before a
/// text comes before all that the text comes before.
pub proof fn texts_are_ordered(a: Seq<char>, b: Seq<char>, c: Seq<char>)
    ensures
        !text_lt(a, a),
        a != b ==> text_lt(a, b) != text_lt(b, a),
        text_lt(a, b) && text_lt(b, c) ==> text_lt(a, c),
    decreases a.len() + b.len() + c.len(),
{
    if a.len() > 0 {
        texts_are_ordered(a.drop_first(), Seq::empty(), Seq::empty());
    }
    if a.len() > 0 && b.len() > 0 {
        texts_are_ordered(a.drop_first(), b.drop_first(), if c.len() > 0 {
            c.drop_first()
        } else {
            c
        });
        if a[0] == b[0] && a.drop_first() == b.drop_first() {
            assert(a =~= seq![a[0]] + a.drop_first());
            assert(b =~= seq![b[0]] + b.drop_first());
        }
    } else if a.len() == 0 && b.len() == 0 {
        assert(a =~= b);
    }
}

/// A text in lower case is in lower case, and none of its letters of ASCII is a capital.
pub proof fn lower_case_stays(s: Seq<char>)
    requires
        all_ascii(s),
    ensures
        lowercase(lowercase(s)) == lowercase(s),
        lowercase(s).len() == s.len(),
        forall|i: int|
            0 <= i < s.len() ==> {
                &&& !('A' <= #[trigger] lowercase(s)[i] <= 'Z')
                &&& 'A' <= s[i] <= 'Z' ==> lowercase(s)[i] as int == s[i] as int + 32
                &&& !('A' <= s[i] <= 'Z') ==> lowercase(s)[i] == s[i]
            },
{
    let low = lowercase(s);
    assert forall|i: int| 0 <= i < low.len() implies is_ascii_char(#[trigger] low[i]) by {
        assert(is_ascii_char(s[i]));
    }
    assert(lowercase(low) =~= low);
}

/// The lines of a text: what stands before a line feed, without a carriage return at its
/// end, is a line, and so is what follows the last line feed, unless it is empty.
pub proof fn line_feeds_end_lines(a: Seq<char>, b: Seq<char>)
    requires
        !a.contains('\n'),
    ensures
        lines_of(a + seq!['\n'] + b) == seq![
            if a.len() > 0 && a[a.len() - 1] == '\r' {
                a.take(a.len() - 1)
            } else {
                a
            },
        ] + lines_of(b),
        a.len() > 0 ==> lines_of(a) == seq![a],
        a.len() == 0 ==> lines_of(a).len() == 0,
{
    lemma_no_cut(a);
    let s = a + seq!['\n'];
    assert(s.drop_last() =~= a);
    assert(split_on(s, '\n') =~= seq![a, Seq::<char>::empty()]);
    lemma_cut_behind(s, b, a);
    let parts = split_on(s + b, '\n');
    let ends = split_on(b, '\n');
    split_on_nonempty(b, '\n');
    assert(parts =~= seq![a] + ends);
    assert(parts.last() == ends.last());
    let f = |l: Seq<char>| without_cr(l);
    assert(parts.drop_last() =~= seq![a] + ends.drop_last());
    assert(parts.drop_last().map_values(f) =~= seq![without_cr(a)] + ends.drop_last().map_values(
        f,
    ));
    assert(without_cr(a) =~= if a.len() > 0 && a[a.len() - 1] == '\r' {
        a.take(a.len() - 1)
    } else {
        a
    });
    assert(lines_of(s + b) =~= seq![without_cr(a)] + lines_of(b));
    assert(lines_of(a) =~= if a.len() > 0 {
        seq![a]
    } else {
        Seq::empty()
    });
}

proof fn lemma_no_cut(a: Seq<char>)
    requires
        !a.contains('\n'),
    ensures
        split_on(a, '\n') == seq![a],
    decreases a.len(),
{
    if a.len() > 0 {
        assert(!a.drop_last().contains('\n')) by {
            if a.drop_last().contains('\n') {
                let k = choose|k: int| 0 <= k < a.drop_last().len() && a.drop_last()[k] == '\n';
                assert(a[k] == '\n');
            }
        }
        lemma_no_cut(a.drop_last());
        assert(a[a.len() - 1] != '\n');
        assert(a.drop_last().push(a.last()) =~= a);
        assert(split_on(a, '\n') =~= seq![a]);
    } else {
        assert(a =~= Seq::<char>::empty());
        assert(split_on(a, '\n') =~= seq![a]);
    }
}

proof fn lemma_cut_behind(s: Seq<char>, b: Seq<char>, a: Seq<char>)
    requires
        split_on(s, '\n') == seq![a, Seq::<char>::empty()],
    ensures
        split_on(s + b, '\n') == seq![a] + split_on(b, '\n'),
    decreases b.len(),
{
    if b.len() == 0 {
        assert(s + b =~= s);
        assert(split_on(s + b, '\n') =~= seq![a] + split_on(b, '\n'));
    } else {
        lemma_cut_behind(s, b.drop_last(), a);
        split_on_nonempty(b.drop_last(), '\n');
        assert((s + b).drop_last() =~= s + b.drop_last());
        assert((s + b).last() == b.last());
        let before = split_on(b.drop_last(), '\n');
        assert((seq![a] + before).last() == before.last());
        assert((seq![a] + before).drop_last() =~= seq![a] + before.drop_last());
        assert(split_on(s + b, '\n') =~= seq![a] + split_on(b, '\n'));
    }
}

/// A text cut at each occurrence of another is put together again by it.
pub proof fn cut_pieces_join_again(s: Seq<char>, p: Seq<char>)
    requires
        p.len() > 0,
    ensures
        join(split_str(s, p), p) == s,
        split_str(s, p).len() >= 1,
        split_str(s, p).len() == 1 <==> !contains_str(s, p),
    decreases s.len(),
{
    lemma_find_from(s, p, 0);
    match find_from(s, p, 0) {
        None => {
            assert forall|i: int| !occurs_at(s, p, i) by {
                if i >= 0 {
                }
            }
            assert(split_str(s, p) =~= seq![s]);
        },
        Some(k) => {
            let rest = s.skip(k + p.len());
            cut_pieces_join_again(rest, p);
            let first = seq![s.take(k)];
            joined_parts_join(first, split_str(rest, p), p);
            assert(s =~= s.take(k) + p + rest) by {
                assert(s.subrange(k, k + p.len()) == p);
            }
            assert(occurs_at(s, p, k));
        },
    }
}

} // verus!
