//! Synthesized parts of notes: what stands between two markers is replaced, and
//! what stands outside is kept.

use crate::text::{
    chars_of, contains_str, find_chars, find_from, lemma_find_from, occurs_at, stands_at,
    str_trim, str_trim_end, string_range, trim, trim_end,
};
use vstd::prelude::*;

verus! {

// ---------------------------------------------------------------------------
// Updating a note between markers
// ---------------------------------------------------------------------------

/// Begins what is synthesized.
pub const SYNTHESIS_BEGIN: &'static str = "<!-- ATLASWIKI:BEGIN_SYNTHESIS -->";

/// Ends what is synthesized.
pub const SYNTHESIS_END: &'static str = "<!-- ATLASWIKI:END_SYNTHESIS -->";

/// A synthesized body between its markers.
pub open spec fn marked(body: Seq<char>) -> Seq<char> {
    SYNTHESIS_BEGIN@ + "\n"@ + trim(body) + "\n"@ + SYNTHESIS_END@
}

/// Where the first begin marker stands.
pub open spec fn begin_at(text: Seq<char>) -> Option<int> {
    find_from(text, SYNTHESIS_BEGIN@, 0)
}

/// Where the marked part of a text begins and ends: from the first begin marker
/// to the end of the first end marker behind it.
pub open spec fn marked_part(text: Seq<char>) -> Option<(int, int)> {
    match begin_at(text) {
        Some(b) => match find_from(text, SYNTHESIS_END@, b) {
            Some(e) => Some((b, e + SYNTHESIS_END@.len())),
            None => None,
        },
        None => None,
    }
}

/// A text whose first begin marker stands at `b`, with a new body there. The marked
/// part is replaced; where no end marker follows, the begin marker alone. A text that
/// has the body there stays as it is.
pub open spec fn replaced(text: Seq<char>, b: int, body: Seq<char>) -> Seq<char> {
    if occurs_at(text, marked(body), b) {
        text
    } else {
        let e = match find_from(text, SYNTHESIS_END@, b) {
            Some(e) => e + SYNTHESIS_END@.len(),
            None => b + SYNTHESIS_BEGIN@.len(),
        };
        text.take(b) + marked(body) + text.skip(e)
    }
}

/// A note with a new synthesized body. It stands at the first begin marker of the
/// note, or of the header where the note is blank; where there is none, the marked
/// body follows the note or the header.
pub open spec fn updated(
    existing: Seq<char>,
    body: Seq<char>,
    header: Option<Seq<char>>,
) -> Seq<char> {
    match begin_at(existing) {
        Some(b) => replaced(existing, b, body),
        None => if trim(existing).len() == 0 {
            match header {
                Some(h) => match begin_at(trim(h)) {
                    Some(b) => replaced(trim(h), b, body),
                    None => trim(h) + "\n\n"@ + marked(body) + "\n"@,
                },
                None => marked(body) + "\n"@,
            }
        } else {
            trim_end(existing) + "\n\n"@ + marked(body) + "\n"@
        },
    }
}

fn replace_at(text: &Vec<char>, b: usize, block: &str, Ghost(body): Ghost<Seq<char>>) -> (r: String)
    requires
        begin_at(text@) == Some(b as int),
        block@ == marked(body),
    ensures
        r@ == replaced(text@, b as int, body),
{
    let n: usize = text.len();
    let begin = chars_of(SYNTHESIS_BEGIN);
    let end = chars_of(SYNTHESIS_END);
    let wanted = chars_of(block);
    proof {
        lemma_find_from(text@, begin@, 0);
        lemma_find_from(text@, end@, b as int);
    }
    if stands_at(text, &wanted, b) {
        let out = string_range(text, 0, n);
        assert(out@ =~= text@);
        return out;
    }
    let stop: usize = match find_chars(text, &end, b) {
        Some(e) => e + end.len(),
        None => b + begin.len(),
    };
    let mut out = string_range(text, 0, b);
    assert(out@ =~= text@.take(b as int));
    out.append(block);
    let after = string_range(text, stop, n);
    assert(after@ =~= text@.skip(stop as int));
    out.append(after.as_str());
    out
}

/// Puts a synthesized body into a note, between markers, in place of an earlier
/// one. What stands outside the markers is kept.
pub fn update_synthesis_content(
    existing: &str,
    synthesized_body: &str,
    default_header: Option<&str>,
) -> (r: String)
    ensures
        r@ == updated(
            existing@,
            synthesized_body@,
            match default_header {
                Some(h) => Some(h@),
                None => None,
            },
        ),
{
    let body = str_trim(synthesized_body);
    let mut block = SYNTHESIS_BEGIN.to_owned();
    block.append("\n");
    block.append(body.as_str());
    block.append("\n");
    block.append(SYNTHESIS_END);
    assert(block@ == marked(synthesized_body@));

    let text = chars_of(existing);
    let begin = chars_of(SYNTHESIS_BEGIN);
    if let Some(b) = find_chars(&text, &begin, 0) {
        return replace_at(&text, b, block.as_str(), Ghost(synthesized_body@));
    }
    let trimmed = str_trim(existing);
    if trimmed.as_str().is_empty() {
        match default_header {
            Some(h) => {
                let mut out = str_trim(h);
                let head = chars_of(out.as_str());
                if let Some(b) = find_chars(&head, &begin, 0) {
                    return replace_at(&head, b, block.as_str(), Ghost(synthesized_body@));
                }
                out.append("\n\n");
                out.append(block.as_str());
                out.append("\n");
                out
            },
            None => {
                block.append("\n");
                block
            },
        }
    } else {
        let mut out = str_trim_end(existing);
        out.append("\n\n");
        out.append(block.as_str());
        out.append("\n");
        out
    }
}

proof fn lemma_find_is(s: Seq<char>, p: Seq<char>, i: int, k: int)
    requires
        0 <= i <= k,
        occurs_at(s, p, k),
        forall|j: int| i <= j < k ==> !occurs_at(s, p, j),
    ensures
        find_from(s, p, i) == Some(k),
{
    lemma_find_from(s, p, i);
}

/// A marker holds no line feed, and an end marker is no part of a begin marker.
proof fn lemma_markers()
    ensures
        forall|i: int| 0 <= i < SYNTHESIS_BEGIN@.len() ==> #[trigger] SYNTHESIS_BEGIN@[i] != '\n',
        forall|i: int| 0 <= i < SYNTHESIS_END@.len() ==> #[trigger] SYNTHESIS_END@[i] != '\n',
        SYNTHESIS_BEGIN@.len() == 34,
        SYNTHESIS_END@.len() == 32,
        forall|j: int| !occurs_at(SYNTHESIS_BEGIN@, SYNTHESIS_END@, j),
        "\n"@ == seq!['\n'],
        "\n\n"@ == seq!['\n', '\n'],
{
    reveal_strlit("<!-- ATLASWIKI:BEGIN_SYNTHESIS -->");
    reveal_strlit("<!-- ATLASWIKI:END_SYNTHESIS -->");
    reveal_strlit("\n");
    reveal_strlit("\n\n");
    assert("\n"@ =~= seq!['\n']);
    assert("\n\n"@ =~= seq!['\n', '\n']);
    let b = SYNTHESIS_BEGIN@;
    let e = SYNTHESIS_END@;
    assert forall|j: int| !occurs_at(b, e, j) by {
        if occurs_at(b, e, j) {
            let w = b.subrange(j, j + e.len());
            assert(w[0] == b[j] && w[0] == e[0]);
            assert(w[15] == b[j + 15] && w[15] == e[15]);
        }
    }
}

/// What holds no line feed stands on one side of every line feed.
proof fn lemma_beside_newline(s: Seq<char>, p: Seq<char>, j: int, at: int)
    requires
        occurs_at(s, p, j),
        p.len() > 0,
        forall|i: int| 0 <= i < p.len() ==> #[trigger] p[i] != '\n',
        0 <= at < s.len(),
        s[at] == '\n',
    ensures
        j + p.len() <= at || j > at,
{
    if j <= at < j + p.len() {
        assert(s.subrange(j, j + p.len())[at - j] == s[at]);
        assert(p[at - j] == '\n');
    }
}

/// A text that has the marked body at its first begin marker stays as it is.
proof fn lemma_put_again(
    before: Seq<char>,
    body: Seq<char>,
    after: Seq<char>,
    header: Option<Seq<char>>,
)
    requires
        begin_at(before + marked(body) + after) == Some(before.len() as int),
    ensures
        updated(before + marked(body) + after, body, header) == before + marked(body) + after,
{
    let r = before + marked(body) + after;
    let b = before.len() as int;
    assert(r.subrange(b, b + marked(body).len()) =~= marked(body));
}

/// The first end marker behind the begin marker of a marked body that holds none is
/// the body's own.
proof fn lemma_own_end(r: Seq<char>, b: int, body: Seq<char>)
    requires
        occurs_at(r, marked(body), b),
    ensures
        occurs_at(r, SYNTHESIS_END@, b + marked(body).len() - SYNTHESIS_END@.len()),
        marked(body).len() >= SYNTHESIS_BEGIN@.len() + SYNTHESIS_END@.len(),
        !contains_str(trim(body), SYNTHESIS_END@) ==> find_from(r, SYNTHESIS_END@, b) == Some(
            b + marked(body).len() - SYNTHESIS_END@.len(),
        ),
{
    lemma_markers();
    let begin = SYNTHESIS_BEGIN@;
    let end = SYNTHESIS_END@;
    let t = trim(body);
    let m = marked(body);
    let first = b + begin.len();
    let x = first + 1 + t.len() + 1;
    assert(m.len() == begin.len() + 1 + t.len() + 1 + end.len());
    assert forall|k: int| 0 <= k < m.len() implies r[b + k] == #[trigger] m[k] by {
        assert(r.subrange(b, b + m.len())[k] == m[k]);
    }
    assert(r[first] == '\n') by {
        assert(m[begin.len() as int] == '\n');
    }
    assert(r[x - 1] == '\n') by {
        assert(m[(begin.len() + 1 + t.len()) as int] == '\n');
    }
    assert(r.subrange(x, x + end.len()) =~= end) by {
        assert forall|k: int| 0 <= k < end.len() implies r[x + k] == end[k] by {
            assert(m[x - b + k] == end[k]);
        }
    }
    assert(occurs_at(r, end, x));
    if !contains_str(t, end) {
        assert forall|j: int| b <= j < x implies !occurs_at(r, end, j) by {
            if occurs_at(r, end, j) {
                lemma_beside_newline(r, end, j, first);
                lemma_beside_newline(r, end, j, x - 1);
                if j + end.len() <= first {
                    assert forall|i: int| 0 <= i < end.len() implies begin[j - b + i] == end[i] by {
                        assert(m[j - b + i] == begin[j - b + i]);
                        assert(r.subrange(j, j + end.len())[i] == end[i]);
                    }
                    assert(begin.subrange(j - b, j - b + end.len()) =~= end);
                    assert(occurs_at(begin, end, j - b));
                } else {
                    let k = j - first - 1;
                    assert forall|i: int| 0 <= i < end.len() implies t[k + i] == end[i] by {
                        assert(m[j - b + i] == t[k + i]);
                        assert(r.subrange(j, j + end.len())[i] == end[i]);
                    }
                    assert(t.subrange(k, k + end.len()) =~= end);
                    assert(occurs_at(t, end, k));
                }
            }
        }
        lemma_find_is(r, end, b, x);
    }
}

/// A text with a new body at its first begin marker has its first begin marker there,
/// and the body behind it.
proof fn lemma_replaced(text: Seq<char>, b: int, body: Seq<char>)
    requires
        begin_at(text) == Some(b),
    ensures
        begin_at(replaced(text, b, body)) == Some(b),
        occurs_at(replaced(text, b, body), marked(body), b),
{
    lemma_markers();
    let begin = SYNTHESIS_BEGIN@;
    let m = marked(body);
    let r = replaced(text, b, body);
    lemma_find_from(text, begin, 0);
    lemma_find_from(text, SYNTHESIS_END@, b);
    if !occurs_at(text, m, b) {
        assert(r.subrange(b, b + m.len()) =~= m);
        assert(r.subrange(b, b + begin.len()) =~= begin);
        assert forall|j: int| 0 <= j < b implies !occurs_at(r, begin, j) by {
            if occurs_at(r, begin, j) {
                assert forall|i: int| 0 <= i < begin.len() implies text[j + i] == begin[i] by {
                    assert(r.subrange(j, j + begin.len())[i] == r[j + i]);
                    if j + i >= b {
                        assert(r[j + i] == begin[j + i - b]);
                        assert(text.subrange(b, b + begin.len())[j + i - b] == text[j + i]);
                    }
                }
                assert(text.subrange(j, j + begin.len()) =~= begin);
                assert(occurs_at(text, begin, j));
            }
        }
        lemma_find_is(r, begin, 0, b);
    }
}

/// In a text that ends in line feeds and holds no begin marker before them, the
/// first begin marker is the one that follows.
proof fn lemma_first_begin(front: Seq<char>, gap: Seq<char>, body: Seq<char>, after: Seq<char>)
    requires
        !contains_str(front, SYNTHESIS_BEGIN@),
        gap == "\n\n"@ || (gap.len() == 0 && front.len() == 0),
    ensures
        begin_at(front + gap + marked(body) + after) == Some((front + gap).len() as int),
{
    lemma_markers();
    let begin = SYNTHESIS_BEGIN@;
    let h = front + gap;
    let r = h + marked(body) + after;
    let k = h.len() as int;
    assert(r.subrange(k, k + begin.len()) =~= begin);
    assert forall|j: int| 0 <= j < k implies !occurs_at(r, begin, j) by {
        if occurs_at(r, begin, j) {
            let at = front.len() as int;
            assert(r[at] == '\n');
            assert(r[at + 1] == '\n');
            lemma_beside_newline(r, begin, j, at);
            lemma_beside_newline(r, begin, j, at + 1);
            assert(front.subrange(j, j + begin.len()) =~= r.subrange(j, j + begin.len()));
            assert(occurs_at(front, begin, j));
        }
    }
    lemma_find_is(r, begin, 0, k);
}

proof fn lemma_trim_end_prefix(s: Seq<char>)
    ensures
        trim_end(s).len() <= s.len(),
        trim_end(s) == s.take(trim_end(s).len() as int),
    decreases s.len(),
{
    if s.len() > 0 && crate::text::is_white(s.last()) {
        lemma_trim_end_prefix(s.drop_last());
        let n = trim_end(s).len() as int;
        assert(s.drop_last().take(n) =~= s.take(n));
    } else {
        assert(s.take(s.len() as int) =~= s);
    }
}

/// A text without a begin marker has none when its end is trimmed.
proof fn lemma_unmarked_front(text: Seq<char>)
    requires
        begin_at(text) is None,
    ensures
        !contains_str(trim_end(text), SYNTHESIS_BEGIN@),
{
    let begin = SYNTHESIS_BEGIN@;
    let front = trim_end(text);
    lemma_find_from(text, begin, 0);
    lemma_trim_end_prefix(text);
    if contains_str(front, begin) {
        let j = choose|j: int| occurs_at(front, begin, j);
        assert(text.subrange(j, j + begin.len()) =~= front.subrange(j, j + begin.len()));
        assert(occurs_at(text, begin, j));
    }
}

/// Putting the same body in once more changes nothing.
pub proof fn update_is_idempotent(
    existing: Seq<char>,
    body: Seq<char>,
    header: Option<Seq<char>>,
)
    ensures
        updated(updated(existing, body, header), body, header) == updated(existing, body, header),
{
    lemma_markers();
    let begin = SYNTHESIS_BEGIN@;
    lemma_find_from(existing, begin, 0);
    match begin_at(existing) {
        Some(b) => lemma_replaced(existing, b, body),
        None => {
            if trim(existing).len() == 0 {
                match header {
                    Some(h) => {
                        lemma_find_from(trim(h), begin, 0);
                        match begin_at(trim(h)) {
                            Some(b) => lemma_replaced(trim(h), b, body),
                            None => {
                                lemma_first_begin(trim(h), "\n\n"@, body, "\n"@);
                                lemma_put_again(trim(h) + "\n\n"@, body, "\n"@, header);
                            },
                        }
                    },
                    None => {
                        let none = Seq::<char>::empty();
                        assert(!contains_str(none, begin));
                        lemma_first_begin(none, none, body, "\n"@);
                        assert(none + none =~= none);
                        lemma_put_again(none, body, "\n"@, header);
                        assert(none + marked(body) =~= marked(body));
                        assert(none + none + marked(body) =~= marked(body));
                    },
                }
            } else {
                let front = trim_end(existing);
                lemma_unmarked_front(existing);
                lemma_first_begin(front, "\n\n"@, body, "\n"@);
                lemma_put_again(front + "\n\n"@, body, "\n"@, header);
            }
        },
    }
}

/// What stands outside the markers of a note is kept, character for character; a body
/// that holds no end marker is all that stands between.
pub proof fn update_keeps_surroundings(
    existing: Seq<char>,
    body: Seq<char>,
    header: Option<Seq<char>>,
)
    requires
        marked_part(existing) is Some,
    ensures
        ({
            let (b, e) = marked_part(existing).unwrap();
            let r = updated(existing, body, header);
            let kept = existing.skip(e);
            &&& 0 <= b < e <= existing.len()
            &&& r.len() >= b + kept.len()
            &&& r.take(b) == existing.take(b)
            &&& r.skip(r.len() - kept.len()) == kept
            &&& !contains_str(trim(body), SYNTHESIS_END@) ==> r == existing.take(b) + marked(body)
                + kept
        }),
{
    lemma_markers();
    let (b, e) = marked_part(existing).unwrap();
    let r = updated(existing, body, header);
    let kept = existing.skip(e);
    lemma_find_from(existing, SYNTHESIS_BEGIN@, 0);
    lemma_find_from(existing, SYNTHESIS_END@, b);
    if occurs_at(existing, marked(body), b) {
        lemma_own_end(existing, b, body);
        assert(r.skip(r.len() - kept.len()) =~= kept);
        if !contains_str(trim(body), SYNTHESIS_END@) {
            assert(r =~= existing.take(b) + marked(body) + kept) by {
                assert(existing.subrange(b, e) =~= marked(body));
            }
        }
    } else {
        assert(r.take(b) =~= existing.take(b));
        assert(r.skip(r.len() - kept.len()) =~= kept);
    }
}

/// Where no end marker follows the begin marker of a note, the note keeps all but that
/// marker.
pub proof fn lone_marker_keeps_text(
    existing: Seq<char>,
    body: Seq<char>,
    header: Option<Seq<char>>,
)
    requires
        begin_at(existing) is Some,
        marked_part(existing) is None,
    ensures
        ({
            let b = begin_at(existing).unwrap();
            updated(existing, body, header) == existing.take(b) + marked(body) + existing.skip(
                b + SYNTHESIS_BEGIN@.len(),
            )
        }),
{
    let b = begin_at(existing).unwrap();
    lemma_find_from(existing, SYNTHESIS_BEGIN@, 0);
    lemma_find_from(existing, SYNTHESIS_END@, b);
    if occurs_at(existing, marked(body), b) {
        lemma_own_end(existing, b, body);
    }
}

/// Where what a new body replaces ends.
spec fn replaced_end(text: Seq<char>, b: int) -> int {
    match find_from(text, SYNTHESIS_END@, b) {
        Some(e) => e + SYNTHESIS_END@.len(),
        None => b + SYNTHESIS_BEGIN@.len(),
    }
}

/// A body without an end marker stands in place of what it replaces, whether or not it
/// stood there before.
proof fn lemma_replaced_plainly(text: Seq<char>, b: int, body: Seq<char>)
    requires
        begin_at(text) == Some(b),
        !contains_str(trim(body), SYNTHESIS_END@),
    ensures
        0 <= b < replaced_end(text, b) <= text.len(),
        replaced(text, b, body) == text.take(b) + marked(body) + text.skip(replaced_end(text, b)),
{
    lemma_markers();
    lemma_find_from(text, SYNTHESIS_BEGIN@, 0);
    lemma_find_from(text, SYNTHESIS_END@, b);
    if occurs_at(text, marked(body), b) {
        lemma_own_end(text, b, body);
        let e = replaced_end(text, b);
        assert(text =~= text.take(b) + marked(body) + text.skip(e)) by {
            assert(text.subrange(b, e) =~= marked(body));
        }
    }
}

/// At a begin marker, a later body leaves nothing of an earlier one.
proof fn lemma_replaced_later(text: Seq<char>, b: int, body: Seq<char>, later: Seq<char>)
    requires
        begin_at(text) == Some(b),
        !contains_str(trim(body), SYNTHESIS_END@),
        !contains_str(trim(later), SYNTHESIS_END@),
    ensures
        begin_at(replaced(text, b, body)) == Some(b),
        replaced(replaced(text, b, body), b, later) == replaced(text, b, later),
{
    let r = replaced(text, b, body);
    lemma_replaced(text, b, body);
    lemma_replaced_plainly(text, b, body);
    lemma_replaced_plainly(text, b, later);
    lemma_replaced_plainly(r, b, later);
    lemma_own_end(r, b, body);
    assert(r.take(b) =~= text.take(b));
    assert(r.skip(replaced_end(r, b)) =~= text.skip(replaced_end(text, b)));
}

/// Behind a text without a begin marker, a later body leaves nothing of an earlier one.
proof fn lemma_appended_later(
    front: Seq<char>,
    gap: Seq<char>,
    body: Seq<char>,
    later: Seq<char>,
    header: Option<Seq<char>>,
)
    requires
        !contains_str(front, SYNTHESIS_BEGIN@),
        gap == "\n\n"@ || (gap.len() == 0 && front.len() == 0),
        !contains_str(trim(body), SYNTHESIS_END@),
        !contains_str(trim(later), SYNTHESIS_END@),
    ensures
        updated(front + gap + marked(body) + "\n"@, later, header) == front + gap + marked(later)
            + "\n"@,
{
    let r = front + gap + marked(body) + "\n"@;
    let b = (front + gap).len() as int;
    lemma_first_begin(front, gap, body, "\n"@);
    assert(r.subrange(b, b + marked(body).len()) =~= marked(body));
    lemma_replaced_plainly(r, b, later);
    lemma_own_end(r, b, body);
    assert(r.take(b) =~= front + gap);
    assert(r.skip(replaced_end(r, b)) =~= "\n"@);
}

/// A later body gives the same note whether or not an earlier one was put in first, as long
/// as neither holds an end marker.
pub proof fn later_body_takes_over(
    existing: Seq<char>,
    body: Seq<char>,
    later: Seq<char>,
    header: Option<Seq<char>>,
)
    requires
        !contains_str(trim(body), SYNTHESIS_END@),
        !contains_str(trim(later), SYNTHESIS_END@),
    ensures
        updated(updated(existing, body, header), later, header) == updated(existing, later, header),
{
    lemma_markers();
    let begin = SYNTHESIS_BEGIN@;
    lemma_find_from(existing, begin, 0);
    match begin_at(existing) {
        Some(b) => lemma_replaced_later(existing, b, body, later),
        None => {
            if trim(existing).len() == 0 {
                match header {
                    Some(h) => {
                        lemma_find_from(trim(h), begin, 0);
                        match begin_at(trim(h)) {
                            Some(b) => lemma_replaced_later(trim(h), b, body, later),
                            None => lemma_appended_later(trim(h), "\n\n"@, body, later, header),
                        }
                    },
                    None => {
                        let none = Seq::<char>::empty();
                        assert(!contains_str(none, begin));
                        lemma_appended_later(none, none, body, later, header);
                        assert(none + none + marked(body) =~= marked(body));
                        assert(none + none + marked(later) =~= marked(later));
                    },
                }
            } else {
                let front = trim_end(existing);
                lemma_unmarked_front(existing);
                lemma_appended_later(front, "\n\n"@, body, later, header);
            }
        },
    }
}

/// A note without markers keeps its text, but for white space at its end, and the body
/// follows between the markers. A blank note begins with the header instead.
pub proof fn unmarked_note_keeps_its_text(
    existing: Seq<char>,
    body: Seq<char>,
    header: Option<Seq<char>>,
)
    requires
        begin_at(existing) is None,
    ensures
        ({
            let part = SYNTHESIS_BEGIN@ + "\n"@ + trim(body) + "\n"@ + SYNTHESIS_END@;
            let r = updated(existing, body, header);
            &&& trim(existing).len() > 0 ==> r == trim_end(existing) + "\n\n"@ + part + "\n"@
            &&& trim(existing).len() == 0 && header is None ==> r == part + "\n"@
            &&& trim(existing).len() == 0 && header is Some && begin_at(trim(header->0)) is None
                ==> r == trim(header->0) + "\n\n"@ + part + "\n"@
        }),
{
}

} // verus!
