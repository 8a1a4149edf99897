//! Note paths: texts whose components are parted by `/`.

use crate::text::{
    chars_of, group_views, join, opt_view, same, split_on, split_on_nonempty, str_join, str_split,
    string_range, views,
};
use vstd::prelude::*;

verus! {

/// The pieces that name something: neither empty nor `.`.
pub open spec fn meaningful(parts: Seq<Seq<char>>) -> Seq<Seq<char>>
    decreases parts.len(),
{
    if parts.len() == 0 {
        Seq::empty()
    } else {
        let before = meaningful(parts.drop_last());
        if parts.last().len() == 0 || parts.last() == "."@ {
            before
        } else {
            before.push(parts.last())
        }
    }
}

/// The components of a path that name something: `..` among them, the root and
/// `.` not.
pub open spec fn names_of(p: Seq<char>) -> Seq<Seq<char>> {
    meaningful(split_on(p, '/'))
}

/// A path that begins at the root.
pub open spec fn is_absolute(p: Seq<char>) -> bool {
    p.len() > 0 && p[0] == '/'
}

/// A path that begins with a `.` component.
pub open spec fn starts_here(p: Seq<char>) -> bool {
    split_on(p, '/')[0] == "."@
}

/// The last component, where it is the name of a file or directory.
pub open spec fn file_name(p: Seq<char>) -> Option<Seq<char>> {
    let names = names_of(p);
    if names.len() == 0 || names.last() == ".."@ {
        None
    } else {
        Some(names.last())
    }
}

/// The last position before `i` at which `c` stands, or -1.
pub open spec fn last_before(s: Seq<char>, c: char, i: int) -> int
    decreases i,
{
    if i <= 0 {
        -1
    } else if s[i - 1] == c {
        i - 1
    } else {
        last_before(s, c, i - 1)
    }
}

/// A file name without its extension: what stands before its last dot, unless
/// that dot begins it.
pub open spec fn stem_of(name: Seq<char>) -> Seq<char> {
    let dot = last_before(name, '.', name.len() as int);
    if dot <= 0 {
        name
    } else {
        name.take(dot)
    }
}

/// The extension of a file name: what follows its last dot, unless that dot
/// begins it.
pub open spec fn extension_of(name: Seq<char>) -> Option<Seq<char>> {
    let dot = last_before(name, '.', name.len() as int);
    if dot <= 0 {
        None
    } else {
        Some(name.skip(dot + 1))
    }
}

/// The file name of a path without its extension.
pub open spec fn file_stem(p: Seq<char>) -> Option<Seq<char>> {
    match file_name(p) {
        Some(name) => Some(stem_of(name)),
        None => None,
    }
}

/// The extension of the file name of a path.
pub open spec fn extension(p: Seq<char>) -> Option<Seq<char>> {
    match file_name(p) {
        Some(name) => extension_of(name),
        None => None,
    }
}

/// The components of a path that name something.
pub fn path_names(p: &str) -> (r: Vec<String>)
    ensures
        views(r@) == names_of(p@),
{
    broadcast use group_views;

    let parts = str_split(p, '/');
    let ghost all = views(parts@);
    let mut out: Vec<String> = Vec::new();
    let mut i: usize = 0;
    while i < parts.len()
        invariant
            i <= parts@.len(),
            all == views(parts@),
            views(out@) == meaningful(all.take(i as int)),
        decreases parts.len() - i,
    {
        let part = parts[i].as_str();
        if !part.is_empty() && !same(part, ".") {
            out.push(parts[i].clone());
        }
        i += 1;
        assert(all.take(i as int).drop_last() =~= all.take(i as int - 1));
    }
    assert(all.take(i as int) =~= all);
    out
}

/// Whether a path begins at the root.
pub fn path_is_absolute(p: &str) -> (r: bool)
    ensures
        r == is_absolute(p@),
{
    let v = chars_of(p);
    v.len() > 0 && v[0] == '/'
}

fn path_starts_here(p: &str) -> (r: bool)
    ensures
        r == starts_here(p@),
{
    broadcast use split_on_nonempty;

    let parts = str_split(p, '/');
    assert(views(parts@).len() > 0);
    assert(views(parts@)[0] == parts@[0]@);
    same(parts[0].as_str(), ".")
}

/// The last position at which `c` stands.
pub fn find_last_before(v: &Vec<char>, c: char) -> (r: Option<usize>)
    ensures
        match r {
            Some(k) => k < v@.len() && last_before(v@, c, v@.len() as int) == k,
            None => last_before(v@, c, v@.len() as int) == -1,
        },
{
    let mut i: usize = v.len();
    while i > 0
        invariant
            i <= v@.len(),
            last_before(v@, c, i as int) == last_before(v@, c, v@.len() as int),
        decreases i,
    {
        if v[i - 1] == c {
            return Some(i - 1);
        }
        i -= 1;
    }
    None
}

/// The last component, where it names a file or directory.
pub fn path_file_name(p: &str) -> (r: Option<String>)
    ensures
        opt_view(r) == file_name(p@),
{
    let names = path_names(p);
    let ghost all = views(names@);
    if names.len() == 0 {
        return None;
    }
    assert(all.last() == names@[names@.len() - 1]@);
    let last = names[names.len() - 1].clone();
    if same(last.as_str(), "..") {
        None
    } else {
        Some(last)
    }
}

/// The file name of a path without its extension.
pub fn path_file_stem(p: &str) -> (r: Option<String>)
    ensures
        opt_view(r) == file_stem(p@),
{
    match path_file_name(p) {
        None => None,
        Some(name) => {
            let v = chars_of(name.as_str());
            match find_last_before(&v, '.') {
                Some(dot) if dot > 0 => {
                    let stem = string_range(&v, 0, dot);
                    assert(stem@ =~= name@.take(dot as int));
                    Some(stem)
                },
                _ => Some(name),
            }
        },
    }
}

/// The extension of the file name of a path.
pub fn path_extension(p: &str) -> (r: Option<String>)
    ensures
        opt_view(r) == extension(p@),
{
    match path_file_name(p) {
        None => None,
        Some(name) => {
            let v = chars_of(name.as_str());
            let n: usize = v.len();
            match find_last_before(&v, '.') {
                Some(dot) if dot > 0 => {
                    let ext = string_range(&v, dot + 1, n);
                    assert(ext@ =~= name@.skip(dot + 1));
                    Some(ext)
                },
                _ => None,
            }
        },
    }
}

// ---------------------------------------------------------------------------
// Keys
// ---------------------------------------------------------------------------

/// How a path begins: at the root, with a `.` component, or with a name.
pub open spec fn path_head(p: Seq<char>) -> Seq<char> {
    if is_absolute(p) {
        "/"@
    } else if starts_here(p) {
        "./"@
    } else {
        Seq::empty()
    }
}

/// The path with its components parted by single slashes. Two paths are equal
/// as paths where their keys are.
pub open spec fn path_key(p: Seq<char>) -> Seq<char> {
    path_head(p) + join(names_of(p), "/"@)
}

/// The key of the path that `target` names for a reader of the file `source`:
/// taken from the directory of that file, unless it begins at the root. There
/// is none where `source` has no directory.
pub open spec fn key_beside(source: Seq<char>, target: Seq<char>) -> Option<Seq<char>> {
    let names = names_of(source);
    if names.len() == 0 && !starts_here(source) {
        None
    } else if is_absolute(target) || names.len() == 0 {
        Some(path_key(target))
    } else {
        Some(path_head(source) + join(names.drop_last() + names_of(target), "/"@))
    }
}

/// A path without the `.` component that it may begin with.
pub open spec fn without_here(p: Seq<char>) -> Seq<char> {
    if starts_here(p) {
        join(names_of(p), "/"@)
    } else {
        p
    }
}

fn head_text(p: &str) -> (r: String)
    ensures
        r@ == path_head(p@),
{
    if path_is_absolute(p) {
        "/".to_owned()
    } else if path_starts_here(p) {
        "./".to_owned()
    } else {
        String::new()
    }
}

/// The key of a path.
pub fn path_key_text(p: &str) -> (r: String)
    ensures
        r@ == path_key(p@),
{
    let mut key = head_text(p);
    let names = path_names(p);
    let joined = str_join(&names, "/");
    key.append(joined.as_str());
    key
}

/// The key of the path that `target` names for a reader of `source`.
pub fn key_beside_text(source: &str, target: &str) -> (r: Option<String>)
    ensures
        opt_view(r) == key_beside(source@, target@),
{
    let mut names = path_names(source);
    let ghost all = views(names@);
    if names.len() == 0 && !path_starts_here(source) {
        return None;
    }
    if path_is_absolute(target) || names.len() == 0 {
        return Some(path_key_text(target));
    }
    let mut key = head_text(source);
    names.pop();
    assert(views(names@) =~= all.drop_last());
    let mut more = path_names(target);
    let ghost rest = views(more@);
    names.append(&mut more);
    assert(views(names@) =~= all.drop_last() + rest);
    let joined = str_join(&names, "/");
    key.append(joined.as_str());
    Some(key)
}

/// A path without the `.` component that it may begin with.
pub fn without_here_text(p: &str) -> (r: String)
    ensures
        r@ == without_here(p@),
{
    if path_starts_here(p) {
        let names = path_names(p);
        str_join(&names, "/")
    } else {
        p.to_owned()
    }
}

// ---------------------------------------------------------------------------
// Joining and containment
// ---------------------------------------------------------------------------

/// The path `b` taken from `a`; one that begins at the root stands by itself.
pub open spec fn path_join(a: Seq<char>, b: Seq<char>) -> Seq<char> {
    if is_absolute(b) {
        b
    } else if a.len() == 0 || a.last() == '/' {
        a + b
    } else {
        a + "/"@ + b
    }
}

/// The components of a path: the root or a leading `.`, then the names.
pub open spec fn components_of(p: Seq<char>) -> Seq<Seq<char>> {
    if is_absolute(p) {
        seq!["/"@] + names_of(p)
    } else if starts_here(p) {
        seq!["."@] + names_of(p)
    } else {
        names_of(p)
    }
}

/// Whether a path lies at or below another.
pub open spec fn is_within(p: Seq<char>, root: Seq<char>) -> bool {
    components_of(root).is_prefix_of(components_of(p))
}

/// The path `b` taken from `a`.
pub fn join_paths(a: &str, b: &str) -> (r: String)
    ensures
        r@ == path_join(a@, b@),
{
    if path_is_absolute(b) {
        return b.to_owned();
    }
    let v = chars_of(a);
    let n: usize = v.len();
    let mut out = a.to_owned();
    if n > 0 && v[n - 1] != '/' {
        out.append("/");
    }
    out.append(b);
    out
}

/// The components of a path.
pub fn path_components(p: &str) -> (r: Vec<String>)
    ensures
        views(r@) == components_of(p@),
{
    broadcast use group_views;

    let mut names = path_names(p);
    let ghost ns = views(names@);
    let mut out: Vec<String> = Vec::new();
    if path_is_absolute(p) {
        out.push("/".to_owned());
        assert(views(out@) =~= seq!["/"@]);
    } else if path_starts_here(p) {
        out.push(".".to_owned());
        assert(views(out@) =~= seq!["."@]);
    } else {
        return names;
    }
    let ghost head = out@;
    let ghost rest = names@;
    out.append(&mut names);
    proof {
        crate::text::lemma_views_concat(head, rest);
        assert(out@ =~= head + rest);
    }
    out
}

/// Whether a path lies at or below another.
pub fn path_is_within(p: &str, root: &str) -> (r: bool)
    ensures
        r == is_within(p@, root@),
{
    let pc = path_components(p);
    let rc = path_components(root);
    let ghost ps = views(pc@);
    let ghost rs = views(rc@);
    if rc.len() > pc.len() {
        assert(rs.len() > ps.len());
        return false;
    }
    let mut i: usize = 0;
    while i < rc.len()
        invariant
            i <= rc@.len() <= pc@.len(),
            ps == views(pc@),
            rs == views(rc@),
            ps == components_of(p@),
            rs == components_of(root@),
            forall|j: int| 0 <= j < i ==> #[trigger] rs[j] == ps[j],
        decreases rc.len() - i,
    {
        assert(rs[i as int] == rc@[i as int]@ && ps[i as int] == pc@[i as int]@);
        if !same(rc[i].as_str(), pc[i].as_str()) {
            assert(ps.subrange(0, rs.len() as int)[i as int] == ps[i as int]);
            return false;
        }
        i += 1;
    }
    assert(rs =~= ps.subrange(0, rs.len() as int));
    true
}

/// A name that can be a component: not empty, not `.`, and without slashes.
pub open spec fn is_name(s: Seq<char>) -> bool {
    s.len() > 0 && s != "."@ && !s.contains('/')
}

/// Only names that can be components.
pub open spec fn all_names(parts: Seq<Seq<char>>) -> bool {
    forall|i: int| 0 <= i < parts.len() ==> is_name(#[trigger] parts[i])
}

proof fn lemma_split_no_separator(s: Seq<char>, c: char)
    ensures
        forall|i: int| 0 <= i < split_on(s, c).len() ==> !(#[trigger] split_on(s, c)[i]).contains(c),
    decreases s.len(),
{
    if s.len() > 0 {
        lemma_split_no_separator(s.drop_last(), c);
        split_on_nonempty(s.drop_last(), c);
        let before = split_on(s.drop_last(), c);
        let all = split_on(s, c);
        assert forall|i: int| 0 <= i < all.len() implies !(#[trigger] all[i]).contains(c) by {
            if s.last() != c && i == all.len() - 1 {
                let p = before.last();
                let q = p.push(s.last());
                assert(all[i] == q);
                assert(!before[before.len() - 1].contains(c));
                if q.contains(c) {
                    let k = choose|k: int| 0 <= k < q.len() && q[k] == c;
                    assert(p[k] == c);
                }
            } else if i < before.len() {
                assert(all[i] == before[i]);
            }
        }
    } else {
        assert(split_on(s, c)[0] =~= Seq::empty());
    }
}

proof fn lemma_meaningful_names(parts: Seq<Seq<char>>)
    requires
        forall|i: int| 0 <= i < parts.len() ==> !(#[trigger] parts[i]).contains('/'),
    ensures
        all_names(meaningful(parts)),
    decreases parts.len(),
{
    if parts.len() > 0 {
        let rest = parts.drop_last();
        assert forall|i: int| 0 <= i < rest.len() implies !(#[trigger] rest[i]).contains('/') by {
            assert(rest[i] == parts[i]);
        }
        lemma_meaningful_names(rest);
        assert(!parts[parts.len() - 1].contains('/'));
    }
}

/// The names of a path can be components.
pub proof fn lemma_names_are_names(p: Seq<char>)
    ensures
        all_names(names_of(p)),
{
    lemma_split_no_separator(p, '/');
    lemma_meaningful_names(split_on(p, '/'));
}

proof fn lemma_split_push(s: Seq<char>, x: Seq<char>, c: char)
    requires
        !x.contains(c),
    ensures
        split_on(s + x, c) == split_on(s, c).drop_last().push(split_on(s, c).last() + x),
    decreases x.len(),
{
    split_on_nonempty(s, c);
    if x.len() == 0 {
        assert(s + x =~= s);
        assert(split_on(s, c).last() + x =~= split_on(s, c).last());
        assert(split_on(s, c).drop_last().push(split_on(s, c).last()) =~= split_on(s, c));
    } else {
        let y = x.drop_last();
        assert(!y.contains(c)) by {
            if y.contains(c) {
                let k = choose|k: int| 0 <= k < y.len() && y[k] == c;
                assert(x[k] == c);
            }
        }
        lemma_split_push(s, y, c);
        assert((s + x).drop_last() =~= s + y);
        assert(x.last() != c) by {
            assert(x[x.len() - 1] == x.last());
        }
        let base = split_on(s, c);
        let mid = split_on(s + y, c);
        assert(mid.drop_last() =~= base.drop_last());
        assert(mid.last() == base.last() + y);
        assert((base.last() + y).push(x.last()) =~= base.last() + x);
    }
}

proof fn lemma_split_join(parts: Seq<Seq<char>>)
    requires
        all_names(parts),
        parts.len() > 0,
    ensures
        split_on(join(parts, "/"@), '/') == parts,
    decreases parts.len(),
{
    reveal_strlit("/");
    let x = parts.last();
    assert(is_name(parts[parts.len() - 1]));
    if parts.len() == 1 {
        let none = Seq::<char>::empty();
        lemma_split_push(none, x, '/');
        assert(none + x =~= x);
        assert(split_on(none, '/').drop_last().push(split_on(none, '/').last() + x) =~= parts);
        assert(parts[0] == x);
    } else {
        let rest = parts.drop_last();
        assert(all_names(rest)) by {
            assert forall|i: int| 0 <= i < rest.len() implies is_name(#[trigger] rest[i]) by {
                assert(rest[i] == parts[i]);
            }
        }
        lemma_split_join(rest);
        let a = join(rest, "/"@);
        let b = a + "/"@;
        assert(b.drop_last() =~= a);
        assert(b.last() == '/');
        assert(split_on(b, '/') == rest.push(Seq::empty()));
        lemma_split_push(b, x, '/');
        assert(rest.push(Seq::<char>::empty()).drop_last() =~= rest);
        assert(Seq::<char>::empty() + x =~= x);
        assert(rest.push(x) =~= parts);
    }
}

proof fn lemma_meaningful_all(parts: Seq<Seq<char>>)
    requires
        all_names(parts),
    ensures
        meaningful(parts) == parts,
    decreases parts.len(),
{
    if parts.len() > 0 {
        let rest = parts.drop_last();
        assert(all_names(rest)) by {
            assert forall|i: int| 0 <= i < rest.len() implies is_name(#[trigger] rest[i]) by {
                assert(rest[i] == parts[i]);
            }
        }
        lemma_meaningful_all(rest);
        assert(is_name(parts[parts.len() - 1]));
        assert(rest.push(parts.last()) =~= parts);
    } else {
        assert(meaningful(parts) =~= parts);
    }
}

/// A path made of names has these names, and begins with the first of them.
pub proof fn lemma_joined_names(parts: Seq<Seq<char>>)
    requires
        all_names(parts),
    ensures
        names_of(join(parts, "/"@)) == parts,
        !is_absolute(join(parts, "/"@)),
        !starts_here(join(parts, "/"@)),
{
    let p = join(parts, "/"@);
    reveal_strlit(".");
    if parts.len() == 0 {
        assert(split_on(p, '/') =~= seq![Seq::<char>::empty()]);
        assert(meaningful(split_on(p, '/')) =~= parts) by {
            reveal_with_fuel(meaningful, 2);
        }
        assert(split_on(p, '/')[0].len() == 0);
    } else {
        lemma_split_join(parts);
        lemma_meaningful_all(parts);
        assert(is_name(parts[0]));
        if is_absolute(p) {
            lemma_leading_separator(p, '/');
        }
    }
}

/// A text that begins with the separator has an empty first piece.
proof fn lemma_leading_separator(s: Seq<char>, c: char)
    requires
        s.len() > 0,
        s[0] == c,
    ensures
        split_on(s, c)[0].len() == 0,
        split_on(s, c).len() >= 2,
    decreases s.len(),
{
    if s.len() == 1 {
        assert(s.drop_last() =~= Seq::empty());
    } else {
        lemma_leading_separator(s.drop_last(), c);
    }
}

// ---------------------------------------------------------------------------
// What holds of paths
// ---------------------------------------------------------------------------

proof fn lemma_last_dot(stem: Seq<char>, ext: Seq<char>, i: int)
    requires
        !ext.contains('.'),
        stem.len() < i <= stem.len() + 1 + ext.len(),
    ensures
        last_before(stem + seq!['.'] + ext, '.', i) == stem.len(),
    decreases i,
{
    let s = stem + seq!['.'] + ext;
    if i - 1 > stem.len() {
        assert(s[i - 1] == ext[i - 1 - stem.len() - 1]);
        lemma_last_dot(stem, ext, i - 1);
    }
}

proof fn lemma_no_dot(s: Seq<char>, i: int)
    requires
        0 <= i <= s.len(),
        !s.contains('.'),
    ensures
        last_before(s, '.', i) == -1,
    decreases i,
{
    if i > 0 {
        assert(s[i - 1] != '.');
        lemma_no_dot(s, i - 1);
    }
}

/// The last dot of a file name parts its stem from its extension; a name without a dot,
/// or with none but the one it begins with, has no extension.
pub proof fn last_dot_parts_stem_and_extension(stem: Seq<char>, ext: Seq<char>)
    requires
        !ext.contains('.'),
    ensures
        stem.len() > 0 ==> stem_of(stem + seq!['.'] + ext) == stem,
        stem.len() > 0 ==> extension_of(stem + seq!['.'] + ext) == Some(ext),
        stem_of(ext) == ext,
        extension_of(ext) is None,
        stem_of(seq!['.'] + ext) == seq!['.'] + ext,
        extension_of(seq!['.'] + ext) is None,
{
    let s = stem + seq!['.'] + ext;
    let hidden = Seq::<char>::empty() + seq!['.'] + ext;
    lemma_last_dot(stem, ext, s.len() as int);
    lemma_last_dot(Seq::empty(), ext, hidden.len() as int);
    lemma_no_dot(ext, ext.len() as int);
    assert(hidden =~= seq!['.'] + ext);
    assert(s.take(stem.len() as int) =~= stem);
    assert(s.skip(stem.len() as int + 1) =~= ext);
}

proof fn lemma_slash_parts(a: Seq<char>, b: Seq<char>)
    ensures
        split_on(a + seq!['/'] + b, '/') == split_on(a, '/') + split_on(b, '/'),
    decreases b.len(),
{
    let s = a + seq!['/'];
    if b.len() == 0 {
        assert(s + b =~= s);
        assert(s.drop_last() =~= a);
        assert(split_on(s, '/') =~= split_on(a, '/') + split_on(b, '/'));
    } else {
        lemma_slash_parts(a, b.drop_last());
        split_on_nonempty(b.drop_last(), '/');
        assert((s + b).drop_last() =~= s + b.drop_last());
        assert((s + b).last() == b.last());
        let before = split_on(b.drop_last(), '/');
        let first = split_on(a, '/');
        assert((first + before).last() == before.last());
        assert((first + before).drop_last() =~= first + before.drop_last());
        assert(split_on(s + b, '/') =~= first + split_on(b, '/'));
    }
}

proof fn lemma_meaningful_parts(a: Seq<Seq<char>>, b: Seq<Seq<char>>)
    ensures
        meaningful(a + b) == meaningful(a) + meaningful(b),
    decreases b.len(),
{
    if b.len() == 0 {
        assert(a + b =~= a);
        assert(meaningful(a) + meaningful(b) =~= meaningful(a));
    } else {
        lemma_meaningful_parts(a, b.drop_last());
        assert((a + b).drop_last() =~= a + b.drop_last());
        assert(meaningful(a + b) =~= meaningful(a) + meaningful(b));
    }
}

/// A slash parts a path: its names are those before it and those behind it. Empty
/// components and `.` are no names; anything else without a slash is one.
pub proof fn slashes_part_names(a: Seq<char>, b: Seq<char>)
    ensures
        names_of(a + seq!['/'] + b) == names_of(a) + names_of(b),
        names_of(Seq::<char>::empty()).len() == 0,
        names_of("."@).len() == 0,
        a.len() > 0 && a != "."@ && !a.contains('/') ==> names_of(a) == seq![a],
{
    lemma_slash_parts(a, b);
    lemma_meaningful_parts(split_on(a, '/'), split_on(b, '/'));
    lemma_whole(Seq::empty());
    reveal_strlit(".");
    assert(!"."@.contains('/'));
    lemma_whole("."@);
    if !a.contains('/') {
        lemma_whole(a);
    }
}

proof fn lemma_whole(a: Seq<char>)
    requires
        !a.contains('/'),
    ensures
        split_on(a, '/') == seq![a],
        names_of(a) == (if a.len() == 0 || a == "."@ {
            Seq::empty()
        } else {
            seq![a]
        }),
    decreases a.len(),
{
    if a.len() > 0 {
        assert(!a.drop_last().contains('/')) by {
            if a.drop_last().contains('/') {
                let k = choose|k: int| 0 <= k < a.drop_last().len() && a.drop_last()[k] == '/';
                assert(a[k] == '/');
            }
        }
        lemma_whole(a.drop_last());
        assert(a[a.len() - 1] != '/');
        assert(a.drop_last().push(a.last()) =~= a);
    } else {
        assert(a =~= Seq::<char>::empty());
    }
    assert(split_on(a, '/') =~= seq![a]);
    assert(meaningful(seq![a].drop_last()).len() == 0);
    assert(names_of(a) =~= if a.len() == 0 || a == "."@ {
        Seq::empty()
    } else {
        seq![a]
    });
}

/// The file of a path is its last name, whatever directory it is in.
pub proof fn file_is_the_last_name(dir: Seq<char>, name: Seq<char>)
    requires
        name.len() > 0,
        name != "."@,
        name != ".."@,
        !name.contains('/'),
    ensures
        file_name(dir + seq!['/'] + name) == Some(name),
        file_name(name) == Some(name),
        file_stem(dir + seq!['/'] + name) == Some(stem_of(name)),
        extension(dir + seq!['/'] + name) == extension_of(name),
{
    slashes_part_names(dir, name);
    slashes_part_names(name, name);
    assert((names_of(dir) + seq![name]).last() == name);
    assert(seq![name].last() == name);
}

/// A path taken from another lies below it.
pub proof fn joined_path_lies_below(root: Seq<char>, rel: Seq<char>)
    requires
        root.len() > 0,
        root[root.len() - 1] != '/',
        !is_absolute(rel),
    ensures
        is_within(path_join(root, rel), root),
        is_within(root, root),
        names_of(path_join(root, rel)) == names_of(root) + names_of(rel),
{
    reveal_strlit("/");
    let p = path_join(root, rel);
    assert("/"@ =~= seq!['/']);
    assert(p =~= root + seq!['/'] + rel);
    slashes_part_names(root, rel);
    lemma_slash_parts(root, rel);
    split_on_nonempty(root, '/');
    assert(p[0] == root[0]);
    assert(split_on(p, '/')[0] == split_on(root, '/')[0]);
    let (c, d) = (components_of(root), components_of(p));
    assert(c =~= d.take(c.len() as int));
    assert(c =~= c.take(c.len() as int));
}

/// A relative target is taken from the directory of the file that names it, and one that
/// begins at the root from there.
pub proof fn target_is_taken_from_beside_the_file(dir: Seq<char>, file: Seq<char>, target: Seq<char>)
    requires
        file.len() > 0,
        file != "."@,
        !file.contains('/'),
        dir.len() > 0,
        dir[dir.len() - 1] != '/',
    ensures
        is_absolute(target) ==> key_beside(dir + seq!['/'] + file, target) == Some(path_key(target)),
        !is_absolute(target) ==> key_beside(dir + seq!['/'] + file, target) == Some(
            path_key(dir + seq!['/'] + target),
        ),
{
    let source = dir + seq!['/'] + file;
    let joined = dir + seq!['/'] + target;
    slashes_part_names(dir, file);
    slashes_part_names(dir, target);
    slashes_part_names(file, file);
    lemma_slash_parts(dir, file);
    lemma_slash_parts(dir, target);
    split_on_nonempty(dir, '/');
    assert(source[0] == dir[0] && joined[0] == dir[0]);
    assert(split_on(source, '/')[0] == split_on(dir, '/')[0]);
    assert(split_on(joined, '/')[0] == split_on(dir, '/')[0]);
    assert(names_of(source).drop_last() =~= names_of(dir));
}

/// A leading `.` component does not change where a path leads.
pub proof fn here_does_not_matter(p: Seq<char>)
    requires
        p.len() > 0,
    ensures
        names_of(without_here(seq!['.', '/'] + p)) == names_of(p),
        starts_here(seq!['.', '/'] + p),
        !starts_here(p) ==> without_here(p) == p,
        !starts_here(without_here(seq!['.', '/'] + p)),
{
    reveal_strlit(".");
    let dot = seq!['.'];
    let s = seq!['.', '/'] + p;
    assert("."@ =~= dot);
    assert(s =~= dot + seq!['/'] + p);
    lemma_slash_parts(dot, p);
    assert(!dot.contains('/'));
    lemma_whole(dot);
    assert((split_on(dot, '/') + split_on(p, '/'))[0] == dot);
    slashes_part_names(dot, p);
    assert(names_of(dot) + names_of(p) =~= names_of(p));
    lemma_names_are_names(p);
    lemma_joined_names(names_of(p));
}

} // verus!
