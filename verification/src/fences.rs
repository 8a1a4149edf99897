//! Fenced code blocks: which lines open, close and belong to one.

use vstd::prelude::*;

verus! {

/// An open block: the character of its fence and how many of them there are, how
/// many characters stand in front of them, and whether a quote mark is among those.
#[derive(Debug, Clone, Copy)]
pub struct Fence {
    pub mark: char,
    pub count: usize,
    pub lead: usize,
    pub quoted: bool,
}

/// The position behind the characters `c` that stand at `i`.
pub open spec fn run_end(s: Seq<char>, c: char, i: int) -> int
    decreases s.len() - i,
{
    if i < s.len() && s[i] == c {
        run_end(s, c, i + 1)
    } else {
        i
    }
}

/// A run ends where it begins or behind it.
pub proof fn lemma_run(s: Seq<char>, c: char, i: int)
    requires
        i <= s.len(),
    ensures
        i <= run_end(s, c, i) <= s.len(),
        i < s.len() && s[i] == c ==> i < run_end(s, c, i),
    decreases s.len() - i,
{
    if i < s.len() && s[i] == c {
        lemma_run(s, c, i + 1);
    }
}

/// What may stand in front of a closing fence: indentation, and in a quote the marks
/// of the quote.
pub open spec fn is_indent(c: char, quoted: bool) -> bool {
    c == ' ' || c == '\t' || (quoted && c == '>')
}

/// The position behind the digits that stand at `i`.
pub open spec fn digits_end(line: Seq<char>, i: int) -> int
    decreases line.len() - i,
{
    if i < line.len() && '0' <= line[i] <= '9' {
        digits_end(line, i + 1)
    } else {
        i
    }
}

/// The position behind the mark of a list item that stands at `i`: a dash, star or plus,
/// or a number with a full stop or bracket, and white space behind it. It is `i` where
/// there is none.
pub open spec fn mark_end(line: Seq<char>, i: int) -> int {
    let d = digits_end(line, i);
    let e = if line[i] == '-' || line[i] == '*' || line[i] == '+' {
        i + 1
    } else if d > i && d < line.len() && (line[d] == '.' || line[d] == ')') {
        d + 1
    } else {
        i
    };
    if e < line.len() && (line[e] == ' ' || line[e] == '\t') {
        e
    } else {
        i
    }
}

/// The position behind what may stand in front of an opening fence: indentation and the
/// marks of quotes and list items.
pub open spec fn lead_end(line: Seq<char>, i: int) -> int
    decreases line.len() - i,
{
    if i >= line.len() {
        i
    } else if is_indent(line[i], true) {
        lead_end(line, i + 1)
    } else if mark_end(line, i) > i {
        lead_end(line, mark_end(line, i))
    } else {
        i
    }
}

/// The lead ends where the search begins or behind it.
pub proof fn lemma_lead(line: Seq<char>, i: int)
    requires
        i <= line.len(),
    ensures
        i <= lead_end(line, i) <= line.len(),
    decreases line.len() - i,
{
    if i < line.len() {
        if is_indent(line[i], true) {
            lemma_lead(line, i + 1);
        } else if mark_end(line, i) > i {
            lemma_lead(line, mark_end(line, i));
        }
    }
}

/// The position behind what stands in front of a closing fence.
pub open spec fn indent_end(line: Seq<char>, quoted: bool, i: int) -> int
    decreases line.len() - i,
{
    if i < line.len() && is_indent(line[i], quoted) {
        indent_end(line, quoted, i + 1)
    } else {
        i
    }
}

/// The block that a line opens: three or more backticks or tildes in front of the
/// line's text. No other backtick stands behind backticks that open a block.
pub open spec fn opening(line: Seq<char>) -> Option<Fence> {
    let k = lead_end(line, 0);
    let e = run_end(line, line[k], k);
    if k < line.len() && (line[k] == '`' || line[k] == '~') && e - k >= 3 && (line[k] == '`' ==> !(
    exists|j: int| e <= j < line.len() && #[trigger] line[j] == '`')) {
        Some(
            Fence {
                mark: line[k],
                count: (e - k) as usize,
                lead: k as usize,
                quoted: exists|j: int| 0 <= j < k && #[trigger] line[j] == '>',
            },
        )
    } else {
        None
    }
}

/// Whether a line closes a block: at least as many of the block's characters as
/// opened it and nothing behind them. They are indented by three spaces at most, or
/// no further than the opening fence stands from the start of its line.
pub open spec fn closes(f: Fence, line: Seq<char>) -> bool {
    let k = indent_end(line, f.quoted, 0);
    let e = run_end(line, f.mark, k);
    &&& e - k >= f.count
    &&& f.quoted || k <= f.lead || (k <= 3 && !(exists|j: int|
        0 <= j < k && #[trigger] line[j] == '\t'))
    &&& forall|j: int|
        e <= j < line.len() ==> #[trigger] line[j] == ' ' || line[j] == '\t' || line[j] == '\r'
}

/// Whether a line ends the quote that a block stands in, and the block with it.
pub open spec fn leaves_quote(f: Fence, line: Seq<char>) -> bool {
    f.quoted && !(exists|j: int|
        0 <= j < indent_end(line, true, 0) && #[trigger] line[j] == '>')
}

/// Whether the block that is open in front of a line reaches into the line.
pub open spec fn goes_on(open: Option<Fence>, line: Seq<char>) -> bool {
    open matches Some(f) && !leaves_quote(f, line)
}

/// Whether a line belongs to a fenced block; its fences do too.
pub open spec fn is_fenced(open: Option<Fence>, line: Seq<char>) -> bool {
    goes_on(open, line) || opening(line) is Some
}

/// The block that is open behind a line. One that no line closes stays open.
pub open spec fn open_behind(open: Option<Fence>, line: Seq<char>) -> Option<Fence> {
    if goes_on(open, line) {
        if closes(open->0, line) {
            None
        } else {
            open
        }
    } else {
        opening(line)
    }
}

/// The block that is open behind these lines.
pub open spec fn fence_open(lines: Seq<Seq<char>>) -> Option<Fence>
    decreases lines.len(),
{
    if lines.len() == 0 {
        None
    } else {
        open_behind(fence_open(lines.drop_last()), lines.last())
    }
}

/// Finds the end of a run.
pub fn find_run_end(s: &[char], c: char, from: usize) -> (r: usize)
    requires
        from <= s@.len(),
    ensures
        r == run_end(s@, c, from as int),
        from <= r <= s@.len(),
{
    let mut i: usize = from;
    while i < s.len() && s[i] == c
        invariant
            from <= i <= s@.len(),
            run_end(s@, c, i as int) == run_end(s@, c, from as int),
        decreases s.len() - i,
    {
        i += 1;
    }
    i
}

fn holds_between(s: &[char], c: char, a: usize, b: usize) -> (r: bool)
    requires
        a <= b <= s@.len(),
    ensures
        r == exists|j: int| a <= j < b && #[trigger] s@[j] == c,
{
    let mut i: usize = a;
    while i < b
        invariant
            a <= i <= b <= s@.len(),
            forall|j: int| a <= j < i ==> #[trigger] s@[j] != c,
        decreases b - i,
    {
        if s[i] == c {
            return true;
        }
        i += 1;
    }
    false
}

fn find_mark_end(line: &[char], from: usize) -> (r: usize)
    requires
        from < line@.len(),
    ensures
        r == mark_end(line@, from as int),
        from <= r < line@.len(),
{
    let mut d: usize = from;
    while d < line.len() && '0' <= line[d] && line[d] <= '9'
        invariant
            from <= d <= line@.len(),
            digits_end(line@, d as int) == digits_end(line@, from as int),
        decreases line.len() - d,
    {
        d += 1;
    }
    let e: usize = if line[from] == '-' || line[from] == '*' || line[from] == '+' {
        from + 1
    } else if d > from && d < line.len() && (line[d] == '.' || line[d] == ')') {
        d + 1
    } else {
        from
    };
    if e < line.len() && (line[e] == ' ' || line[e] == '\t') {
        e
    } else {
        from
    }
}

fn find_lead_end(line: &[char]) -> (r: usize)
    ensures
        r == lead_end(line@, 0),
        r <= line@.len(),
{
    let mut i: usize = 0;
    while i < line.len()
        invariant
            i <= line@.len(),
            lead_end(line@, i as int) == lead_end(line@, 0),
        decreases line.len() - i,
    {
        if line[i] == ' ' || line[i] == '\t' || line[i] == '>' {
            i += 1;
        } else {
            let e: usize = find_mark_end(line, i);
            if e == i {
                return i;
            }
            i = e;
        }
    }
    i
}

fn find_indent_end(line: &[char], quoted: bool) -> (r: usize)
    ensures
        r == indent_end(line@, quoted, 0),
        r <= line@.len(),
{
    let mut i: usize = 0;
    while i < line.len() && (line[i] == ' ' || line[i] == '\t' || (quoted && line[i] == '>'))
        invariant
            i <= line@.len(),
            indent_end(line@, quoted, i as int) == indent_end(line@, quoted, 0),
        decreases line.len() - i,
    {
        i += 1;
    }
    i
}

fn find_opening(line: &[char]) -> (r: Option<Fence>)
    ensures
        r == opening(line@),
{
    let k: usize = find_lead_end(line);
    if k >= line.len() || (line[k] != '`' && line[k] != '~') {
        return None;
    }
    let e: usize = find_run_end(line, line[k], k);
    if e - k < 3 || (line[k] == '`' && holds_between(line, '`', e, line.len())) {
        return None;
    }
    Some(Fence { mark: line[k], count: e - k, lead: k, quoted: holds_between(line, '>', 0, k) })
}

fn is_closing(f: Fence, line: &[char]) -> (r: bool)
    ensures
        r == closes(f, line@),
{
    let k: usize = find_indent_end(line, f.quoted);
    let e: usize = find_run_end(line, f.mark, k);
    if e - k < f.count {
        return false;
    }
    if !f.quoted && k > f.lead && (k > 3 || holds_between(line, '\t', 0, k)) {
        return false;
    }
    let mut i: usize = e;
    while i < line.len()
        invariant
            e <= i <= line@.len(),
            e == run_end(line@, f.mark, indent_end(line@, f.quoted, 0)),
            forall|j: int|
                e <= j < i ==> #[trigger] line@[j] == ' ' || line@[j] == '\t' || line@[j] == '\r',
        decreases line.len() - i,
    {
        if line[i] != ' ' && line[i] != '\t' && line[i] != '\r' {
            return false;
        }
        i += 1;
    }
    true
}

/// Reads a line behind which, or in which, a block may be open: whether the line
/// belongs to a fenced block, and the block that is open behind it.
pub fn read_line(open: Option<Fence>, line: &[char]) -> (r: (bool, Option<Fence>))
    ensures
        r.0 == is_fenced(open, line@),
        r.1 == open_behind(open, line@),
{
    if let Some(f) = open {
        let k: usize = find_indent_end(line, true);
        if !f.quoted || holds_between(line, '>', 0, k) {
            return if is_closing(f, line) {
                (true, None)
            } else {
                (true, open)
            };
        }
    }
    let next = find_opening(line);
    (next.is_some(), next)
}

/// A line of backticks opens a block if there are three or more of them and no other
/// stands behind them; one of tildes if there are three or more. What follows them on
/// the line is not looked at.
pub proof fn three_marks_open_a_block(mark: char, n: nat, info: Seq<char>)
    requires
        mark == '`' || mark == '~',
        n >= 1,
        n <= usize::MAX,
        !info.contains(mark),
    ensures
        ({
            let line = Seq::new(n, |i: int| mark) + info;
            &&& n < 3 ==> opening(line) is None
            &&& n >= 3 ==> (opening(line) matches Some(f) && f.mark == mark && f.count == n
                && f.lead == 0 && !f.quoted)
        }),
{
    let line = Seq::new(n, |i: int| mark) + info;
    assert(line[0] == mark);
    assert(digits_end(line, 0) == 0);
    assert(mark_end(line, 0) == 0);
    assert(lead_end(line, 0) == 0);
    lemma_run_of(line, mark, n as int, 0);
    if n >= 3 && mark == '`' {
        assert forall|j: int| n <= j < line.len() implies #[trigger] line[j] != '`' by {
            assert(line[j] == info[j - n]);
        }
    }
}

proof fn lemma_run_of(line: Seq<char>, mark: char, n: int, i: int)
    requires
        0 <= i <= n <= line.len(),
        forall|k: int| 0 <= k < n ==> #[trigger] line[k] == mark,
        n < line.len() ==> line[n] != mark,
    ensures
        run_end(line, mark, i) == n,
    decreases n - i,
{
    if i < n {
        assert(line[i] == mark);
        lemma_run_of(line, mark, n, i + 1);
    }
}

/// A block is closed by a line of as many of its marks as opened it, or more, with
/// nothing but white space behind them; by fewer it is not, nor by other marks.
pub proof fn as_many_marks_close_a_block(f: Fence, mark: char, n: nat, rest: Seq<char>)
    requires
        mark == '`' || mark == '~',
        f.mark == '`' || f.mark == '~',
        f.count >= 3,
        n >= 1,
        !rest.contains(mark),
    ensures
        ({
            let line = Seq::new(n, |i: int| mark) + rest;
            let blank = forall|i: int|
                0 <= i < rest.len() ==> #[trigger] rest[i] == ' ' || rest[i] == '\t' || rest[i]
                    == '\r';
            &&& mark == f.mark && n >= f.count && blank ==> closes(f, line)
            &&& mark == f.mark && n < f.count ==> !closes(f, line)
            &&& mark != f.mark ==> !closes(f, line)
            &&& mark == f.mark && !blank ==> !closes(f, line)
        }),
{
    let line = Seq::new(n, |i: int| mark) + rest;
    assert(line[0] == mark);
    assert(indent_end(line, f.quoted, 0) == 0);
    lemma_run_of(line, mark, n as int, 0);
    if mark != f.mark {
        assert(run_end(line, f.mark, 0) == 0);
    } else {
        assert forall|j: int| n <= j < line.len() implies #[trigger] line[j] == rest[j - n] by {}
        if !(forall|i: int|
            0 <= i < rest.len() ==> #[trigger] rest[i] == ' ' || rest[i] == '\t' || rest[i]
                == '\r') {
            let i = choose|i: int|
                0 <= i < rest.len() && !(#[trigger] rest[i] == ' ' || rest[i] == '\t' || rest[i]
                    == '\r');
            assert(line[n + i] == rest[i]);
        }
    }
}

/// Every line from the one that opens a block to the one that closes it belongs to it,
/// and a block that stands in no quote stays open until then.
pub proof fn block_holds_its_lines(before: Seq<Seq<char>>, lines: Seq<Seq<char>>, close: Seq<char>)
    requires
        lines.len() > 0,
        fence_open(before) is None,
        opening(lines[0]) is Some,
        !opening(lines[0])->0.quoted,
        forall|k: int| 0 < k < lines.len() ==> !closes(opening(lines[0])->0, #[trigger] lines[k]),
        closes(opening(lines[0])->0, close),
    ensures
        forall|k: int|
            0 <= k < lines.len() ==> is_fenced(
                fence_open(before + lines.take(k)),
                #[trigger] lines[k],
            ),
        is_fenced(fence_open(before + lines), close),
        fence_open((before + lines).push(close)) is None,
{
    let f = opening(lines[0])->0;
    assert forall|k: int| 0 <= k < lines.len() implies is_fenced(
        fence_open(before + lines.take(k)),
        #[trigger] lines[k],
    ) by {
        lemma_still_open(before, lines, k);
        if k == 0 {
            assert(before + lines.take(0) =~= before);
        }
    }
    lemma_still_open(before, lines, lines.len() as int);
    assert(lines.take(lines.len() as int) =~= lines);
    assert((before + lines).push(close).drop_last() =~= before + lines);
}

proof fn lemma_still_open(before: Seq<Seq<char>>, lines: Seq<Seq<char>>, k: int)
    requires
        0 <= k <= lines.len(),
        lines.len() > 0,
        fence_open(before) is None,
        opening(lines[0]) is Some,
        !opening(lines[0])->0.quoted,
        forall|q: int| 0 < q < lines.len() ==> !closes(opening(lines[0])->0, #[trigger] lines[q]),
    ensures
        k > 0 ==> fence_open(before + lines.take(k)) == opening(lines[0]),
    decreases k,
{
    if k > 0 {
        lemma_still_open(before, lines, k - 1);
        let all = before + lines.take(k);
        assert(all.drop_last() =~= before + lines.take(k - 1));
        assert(all.last() == lines[k - 1]);
        if k == 1 {
            assert(before + lines.take(0) =~= before);
        } else {
            assert(!closes(opening(lines[0])->0, lines[k - 1]));
        }
    }
}

} // verus!
