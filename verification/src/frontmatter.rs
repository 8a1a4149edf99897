//! The metadata block at the head of a note.

use crate::ast::{no_frontmatter, ExtraField, Frontmatter, FrontmatterModel};
use crate::text::{
    chars_of, find_chars, find_from, group_views, is_white, lemma_find_from, lines_of, lowercase,
    occurs_at, opt_view, replace_char, same, split_on, split_on_nonempty, str_lines, str_replace_char,
    str_split, str_starts_with, str_trim, str_trim_start, str_trim_start_char, string_range,
    to_lowercase, trim, trim_start, trim_start_char, views,
};
use vstd::prelude::*;

verus! {

// ---------------------------------------------------------------------------
// YAML values
// ---------------------------------------------------------------------------

/// A YAML value of the `serde_yaml` crate.
#[verifier::external_type_specification]
#[verifier::external_body]
pub struct ExYamlValue(serde_yaml::Value);

/// A JSON value of the `serde_json` crate.
#[verifier::external_type_specification]
#[verifier::external_body]
pub struct ExJsonValue(serde_json::Value);

/// A value that is no collection; what is neither text, number nor boolean is
/// `Other`.
#[derive(Debug)]
pub enum YamlScalar {
    Text(String),
    /// A number, in the notation that the YAML crate gives it.
    Number(String),
    Bool(bool),
    Other,
}

/// The value of a metadata field.
#[derive(Debug)]
pub enum YamlField {
    One(YamlScalar),
    Many(Vec<YamlScalar>),
}

/// A metadata field: its key where that is a text, its value, and the value as
/// JSON text where it has one.
#[derive(Debug)]
pub struct YamlEntry {
    pub key: Option<String>,
    pub value: YamlField,
    pub json: Option<String>,
}

/// What a `YamlScalar` says.
pub enum ScalarModel {
    Text(Seq<char>),
    Number(Seq<char>),
    Bool(bool),
    Other,
}

/// What a `YamlField` says.
pub enum YamlFieldModel {
    One(ScalarModel),
    Many(Seq<ScalarModel>),
}

/// What a `YamlEntry` says.
pub struct EntryModel {
    pub key: Option<Seq<char>>,
    pub value: YamlFieldModel,
    pub json: Option<Seq<char>>,
}

impl View for YamlScalar {
    type V = ScalarModel;

    open spec fn view(&self) -> ScalarModel {
        match *self {
            YamlScalar::Text(s) => ScalarModel::Text(s@),
            YamlScalar::Number(s) => ScalarModel::Number(s@),
            YamlScalar::Bool(b) => ScalarModel::Bool(b),
            YamlScalar::Other => ScalarModel::Other,
        }
    }
}

impl View for YamlField {
    type V = YamlFieldModel;

    open spec fn view(&self) -> YamlFieldModel {
        match *self {
            YamlField::One(s) => YamlFieldModel::One(s@),
            YamlField::Many(v) => YamlFieldModel::Many(views(v@)),
        }
    }
}

impl View for YamlEntry {
    type V = EntryModel;

    open spec fn view(&self) -> EntryModel {
        EntryModel { key: opt_view(self.key), value: self.value@, json: opt_view(self.json) }
    }
}

/// The YAML document that a text holds, where it is one.
pub uninterp spec fn yaml_document(text: Seq<char>) -> Option<serde_yaml::Value>;

/// The entries of a YAML mapping in their order; nothing for another value.
pub uninterp spec fn yaml_mapping(v: serde_yaml::Value) -> Option<
    Seq<(serde_yaml::Value, serde_yaml::Value)>,
>;

/// The items of a YAML sequence; nothing for another value.
pub uninterp spec fn yaml_sequence(v: serde_yaml::Value) -> Option<Seq<serde_yaml::Value>>;

/// What a YAML value says as a scalar.
pub uninterp spec fn yaml_scalar(v: serde_yaml::Value) -> ScalarModel;

/// A YAML value in JSON, where JSON can express it.
pub uninterp spec fn yaml_to_json(v: serde_yaml::Value) -> Option<serde_json::Value>;

/// A JSON value as text.
pub uninterp spec fn json_text(v: serde_json::Value) -> Seq<char>;

/// A YAML value as JSON text, where JSON can express it.
pub open spec fn yaml_json(v: serde_yaml::Value) -> Option<Seq<char>> {
    match yaml_to_json(v) {
        Some(j) => Some(json_text(j)),
        None => None,
    }
}

/// Calls `serde_yaml::from_str`. The result is a function of the text; nothing
/// is said of which texts are YAML.
#[verifier::external_body]
pub(crate) fn parse_yaml(text: &str) -> (r: Option<serde_yaml::Value>)
    ensures
        r == yaml_document(text@),
{
    serde_yaml::from_str::<serde_yaml::Value>(text).ok()
}

/// Tells whether a `serde_yaml::Value` is a mapping, without looking behind a tag,
/// and copies the entries out by `Mapping::iter`.
#[verifier::external_body]
pub(crate) fn mapping_of(v: &serde_yaml::Value) -> (r: Option<
    Vec<(serde_yaml::Value, serde_yaml::Value)>,
>)
    ensures
        match r {
            Some(entries) => yaml_mapping(*v) == Some(entries@),
            None => yaml_mapping(*v) is None,
        },
{
    match v {
        serde_yaml::Value::Mapping(m) => Some(
            m.iter().map(|(k, v)| (k.clone(), v.clone())).collect(),
        ),
        _ => None,
    }
}

/// Tells whether a `serde_yaml::Value` is a sequence, without looking behind a tag,
/// and copies the items out.
#[verifier::external_body]
pub(crate) fn sequence_of(v: &serde_yaml::Value) -> (r: Option<Vec<serde_yaml::Value>>)
    ensures
        match r {
            Some(items) => yaml_sequence(*v) == Some(items@),
            None => yaml_sequence(*v) is None,
        },
{
    match v {
        serde_yaml::Value::Sequence(items) => Some(items.clone()),
        _ => None,
    }
}

/// Tells the variants of a `serde_yaml::Value` apart; a number is written by
/// its `to_string`.
#[verifier::external_body]
pub(crate) fn scalar_of(v: &serde_yaml::Value) -> (r: YamlScalar)
    ensures
        r@ == yaml_scalar(*v),
{
    match v {
        serde_yaml::Value::String(s) => YamlScalar::Text(s.clone()),
        serde_yaml::Value::Number(n) => YamlScalar::Number(n.to_string()),
        serde_yaml::Value::Bool(b) => YamlScalar::Bool(*b),
        _ => YamlScalar::Other,
    }
}

/// Calls `serde_json::to_value` on a YAML value. The result is a function of the value.
#[verifier::external_body]
fn to_json(v: &serde_yaml::Value) -> (r: Option<serde_json::Value>)
    ensures
        r == yaml_to_json(*v),
{
    serde_json::to_value(v).ok()
}

/// Calls `to_string` on a JSON value, which writes it without white space. What it writes
/// is not stated here.
#[verifier::external_body]
fn write_json(v: &serde_json::Value) -> (r: String)
    ensures
        r@ == json_text(*v),
{
    v.to_string()
}

fn json_of(v: &serde_yaml::Value) -> (r: Option<String>)
    ensures
        opt_view(r) == yaml_json(*v),
{
    match to_json(v) {
        Some(j) => Some(write_json(&j)),
        None => None,
    }
}

/// The field that a key and a value make.
pub open spec fn entry_of(k: serde_yaml::Value, v: serde_yaml::Value) -> EntryModel {
    EntryModel {
        key: match yaml_scalar(k) {
            ScalarModel::Text(s) => Some(s),
            _ => None,
        },
        value: match yaml_sequence(v) {
            Some(items) => YamlFieldModel::Many(items.map_values(|i| yaml_scalar(i))),
            None => YamlFieldModel::One(yaml_scalar(v)),
        },
        json: yaml_json(v),
    }
}

/// The fields of a YAML document; a document that is no mapping has none.
pub open spec fn entries_of(doc: serde_yaml::Value) -> Seq<EntryModel> {
    match yaml_mapping(doc) {
        Some(m) => m.map_values(|e: (serde_yaml::Value, serde_yaml::Value)| entry_of(e.0, e.1)),
        None => Seq::empty(),
    }
}

fn plain_field(v: &serde_yaml::Value) -> (r: YamlField)
    ensures
        r@ == entry_of(*v, *v).value,
{
    broadcast use group_views;

    match sequence_of(v) {
        None => YamlField::One(scalar_of(v)),
        Some(items) => {
            let ghost wanted = items@.map_values(|i| yaml_scalar(i));
            let mut out: Vec<YamlScalar> = Vec::new();
            let mut i: usize = 0;
            while i < items.len()
                invariant
                    i <= items@.len(),
                    wanted == items@.map_values(|i| yaml_scalar(i)),
                    views(out@) == wanted.take(i as int),
                decreases items.len() - i,
            {
                out.push(scalar_of(&items[i]));
                i += 1;
                assert(wanted.take(i as int) =~= wanted.take(i as int - 1).push(
                    wanted[i as int - 1],
                ));
            }
            assert(wanted.take(i as int) =~= wanted);
            YamlField::Many(out)
        },
    }
}

fn plain_entries(doc: &serde_yaml::Value) -> (r: Vec<YamlEntry>)
    ensures
        views(r@) == entries_of(*doc),
{
    broadcast use group_views;

    let mut out: Vec<YamlEntry> = Vec::new();
    match mapping_of(doc) {
        None => out,
        Some(entries) => {
            let ghost wanted = entries_of(*doc);
            let mut i: usize = 0;
            while i < entries.len()
                invariant
                    i <= entries@.len(),
                    wanted == entries@.map_values(
                        |e: (serde_yaml::Value, serde_yaml::Value)| entry_of(e.0, e.1),
                    ),
                    views(out@) == wanted.take(i as int),
                decreases entries.len() - i,
            {
                let key = match scalar_of(&entries[i].0) {
                    YamlScalar::Text(s) => Some(s),
                    _ => None,
                };
                let value = plain_field(&entries[i].1);
                let json = json_of(&entries[i].1);
                out.push(YamlEntry { key, value, json });
                i += 1;
                assert(wanted.take(i as int) =~= wanted.take(i as int - 1).push(
                    wanted[i as int - 1],
                ));
            }
            assert(wanted.take(i as int) =~= wanted);
            out
        },
    }
}

// ---------------------------------------------------------------------------
// Fields with a meaning
// ---------------------------------------------------------------------------

/// The text of a scalar, where it has one.
pub open spec fn scalar_text(s: ScalarModel) -> Option<Seq<char>> {
    match s {
        ScalarModel::Text(t) => Some(t),
        ScalarModel::Number(t) => Some(t),
        ScalarModel::Bool(b) => Some(if b { "true"@ } else { "false"@ }),
        ScalarModel::Other => None,
    }
}

/// The text of a field, where it is a scalar that has one.
pub open spec fn field_text(f: YamlFieldModel) -> Option<Seq<char>> {
    match f {
        YamlFieldModel::One(s) => scalar_text(s),
        YamlFieldModel::Many(_) => None,
    }
}

/// A list item without white space around it and without leading `#`.
pub open spec fn clean_item(s: Seq<char>) -> Seq<char> {
    trim_start_char(trim(s), '#')
}

/// The items, cleaned; what is then empty is left out.
pub open spec fn clean_items(items: Seq<Option<Seq<char>>>) -> Seq<Seq<char>>
    decreases items.len(),
{
    if items.len() == 0 {
        Seq::empty()
    } else {
        let rest = clean_items(items.drop_last());
        match items.last() {
            Some(s) if clean_item(s).len() > 0 => rest.push(clean_item(s)),
            _ => rest,
        }
    }
}

/// The list that a field stands for: the items of a sequence, or the parts of a
/// text between commas and spaces.
pub open spec fn field_list(f: YamlFieldModel) -> Seq<Seq<char>> {
    match f {
        YamlFieldModel::Many(items) => clean_items(items.map_values(|s| scalar_text(s))),
        YamlFieldModel::One(ScalarModel::Text(s)) => clean_items(
            split_on(replace_char(s, ',', ' '), ' ').map_values(|p: Seq<char>| Some(p)),
        ),
        _ => Seq::empty(),
    }
}

/// The first position from `i` on of a field with this key, or the length.
pub open spec fn key_index(fields: Seq<(Seq<char>, Seq<char>)>, key: Seq<char>, i: int) -> int
    decreases fields.len() - i,
{
    if i >= fields.len() {
        fields.len() as int
    } else if fields[i].0 == key {
        i
    } else {
        key_index(fields, key, i + 1)
    }
}

/// The fields with the key set to this value.
pub open spec fn put_field(
    fields: Seq<(Seq<char>, Seq<char>)>,
    key: Seq<char>,
    json: Seq<char>,
) -> Seq<(Seq<char>, Seq<char>)> {
    let i = key_index(fields, key, 0);
    if i < fields.len() {
        fields.update(i, (key, json))
    } else {
        fields.push((key, json))
    }
}

/// What one more field makes of the metadata. Keys are told apart without
/// regard to case.
pub open spec fn with_entry(fm: FrontmatterModel, e: EntryModel) -> FrontmatterModel {
    match e.key {
        None => fm,
        Some(key) => {
            let k = lowercase(key);
            if k == "title"@ {
                match field_text(e.value) {
                    Some(s) => FrontmatterModel { title: Some(s), ..fm },
                    None => fm,
                }
            } else if k == "aliases"@ || k == "alias"@ {
                FrontmatterModel { aliases: field_list(e.value), ..fm }
            } else if k == "tags"@ || k == "tag"@ {
                FrontmatterModel { tags: field_list(e.value), ..fm }
            } else if k == "created"@ || k == "date"@ {
                match field_text(e.value) {
                    Some(s) => FrontmatterModel { created: Some(s), ..fm },
                    None => fm,
                }
            } else if k == "updated"@ || k == "modified"@ || k == "last_modified"@ {
                match field_text(e.value) {
                    Some(s) => FrontmatterModel { updated: Some(s), ..fm },
                    None => fm,
                }
            } else {
                match e.json {
                    Some(j) => FrontmatterModel { extra: put_field(fm.extra, key, j), ..fm },
                    None => fm,
                }
            }
        },
    }
}

/// The metadata that the fields make, taken in order.
pub open spec fn frontmatter_of(entries: Seq<EntryModel>) -> FrontmatterModel
    decreases entries.len(),
{
    if entries.len() == 0 {
        no_frontmatter()
    } else {
        with_entry(frontmatter_of(entries.drop_last()), entries.last())
    }
}

fn scalar_to_string(s: &YamlScalar) -> (r: Option<String>)
    ensures
        opt_view(r) == scalar_text(s@),
{
    match s {
        YamlScalar::Text(t) => Some(t.clone()),
        YamlScalar::Number(t) => Some(t.clone()),
        YamlScalar::Bool(b) => Some(
            if *b {
                "true".to_owned()
            } else {
                "false".to_owned()
            },
        ),
        YamlScalar::Other => None,
    }
}

/// The text of a scalar field.
pub fn yaml_value_to_string(f: &YamlField) -> (r: Option<String>)
    ensures
        opt_view(r) == field_text(f@),
{
    match f {
        YamlField::One(s) => scalar_to_string(s),
        YamlField::Many(_) => None,
    }
}

fn push_clean(out: &mut Vec<String>, item: &str)
    ensures
        views(final(out)@) == if clean_item(item@).len() > 0 {
            views(old(out)@).push(clean_item(item@))
        } else {
            views(old(out)@)
        },
{
    broadcast use group_views;

    let trimmed = str_trim(item);
    let cleaned = str_trim_start_char(trimmed.as_str(), '#');
    if !cleaned.as_str().is_empty() {
        out.push(cleaned);
    }
}

/// The list that a field stands for.
pub fn yaml_value_to_string_list(f: &YamlField) -> (r: Vec<String>)
    ensures
        views(r@) == field_list(f@),
{
    broadcast use group_views;

    let mut out: Vec<String> = Vec::new();
    match f {
        YamlField::Many(items) => {
            let ghost all = views(items@).map_values(|s| scalar_text(s));
            let mut i: usize = 0;
            while i < items.len()
                invariant
                    i <= items@.len(),
                    all == views(items@).map_values(|s| scalar_text(s)),
                    views(out@) == clean_items(all.take(i as int)),
                decreases items.len() - i,
            {
                if let Some(s) = scalar_to_string(&items[i]) {
                    push_clean(&mut out, s.as_str());
                }
                i += 1;
                assert(all.take(i as int).drop_last() =~= all.take(i as int - 1));
            }
            assert(all.take(i as int) =~= all);
        },
        YamlField::One(YamlScalar::Text(s)) => {
            let spaced = str_replace_char(s.as_str(), ',', ' ');
            let parts = str_split(spaced.as_str(), ' ');
            let ghost all = views(parts@).map_values(|p: Seq<char>| Some(p));
            let mut i: usize = 0;
            while i < parts.len()
                invariant
                    i <= parts@.len(),
                    all == views(parts@).map_values(|p: Seq<char>| Some(p)),
                    views(out@) == clean_items(all.take(i as int)),
                decreases parts.len() - i,
            {
                push_clean(&mut out, parts[i].as_str());
                i += 1;
                assert(all.take(i as int).drop_last() =~= all.take(i as int - 1));
            }
            assert(all.take(i as int) =~= all);
        },
        _ => {},
    }
    out
}

fn put_extra(extra: &mut Vec<ExtraField>, key: String, json: String)
    ensures
        views(final(extra)@) == put_field(views(old(extra)@), key@, json@),
{
    broadcast use group_views;

    let ghost fields = views(extra@);
    let mut i: usize = 0;
    while i < extra.len()
        invariant
            i <= extra@.len(),
            fields == views(extra@),
            fields == views(old(extra)@),
            key_index(fields, key@, i as int) == key_index(fields, key@, 0),
        decreases extra.len() - i,
    {
        assert(fields[i as int].0 == extra@[i as int].key@);
        if same(extra[i].key.as_str(), key.as_str()) {
            extra.set(i, ExtraField { key, json });
            assert(views(extra@) =~= fields.update(i as int, extra@[i as int]@));
            return;
        }
        i += 1;
    }
    extra.push(ExtraField { key, json });
}

fn set_entry(fm: &mut Frontmatter, e: &YamlEntry)
    ensures
        final(fm)@ == with_entry(old(fm)@, e@),
{
    if let Some(key) = &e.key {
        let lower = to_lowercase(key.as_str());
        let k = lower.as_str();
        if same(k, "title") {
            if let Some(s) = yaml_value_to_string(&e.value) {
                fm.title = Some(s);
            }
        } else if same(k, "aliases") || same(k, "alias") {
            fm.aliases = yaml_value_to_string_list(&e.value);
        } else if same(k, "tags") || same(k, "tag") {
            fm.tags = yaml_value_to_string_list(&e.value);
        } else if same(k, "created") || same(k, "date") {
            if let Some(s) = yaml_value_to_string(&e.value) {
                fm.created = Some(s);
            }
        } else if same(k, "updated") || same(k, "modified") || same(k, "last_modified") {
            if let Some(s) = yaml_value_to_string(&e.value) {
                fm.updated = Some(s);
            }
        } else if let Some(j) = &e.json {
            put_extra(&mut fm.extra, key.clone(), j.clone());
        }
    }
}

/// The metadata that the fields make, taken in order.
pub fn parse_yaml_map(entries: &Vec<YamlEntry>) -> (r: Frontmatter)
    ensures
        r@ == frontmatter_of(views(entries@)),
{
    let mut fm = Frontmatter::default();
    let ghost all = views(entries@);
    let mut i: usize = 0;
    while i < entries.len()
        invariant
            i <= entries@.len(),
            all == views(entries@),
            fm@ == frontmatter_of(all.take(i as int)),
        decreases entries.len() - i,
    {
        set_entry(&mut fm, &entries[i]);
        i += 1;
        assert(all.take(i as int).drop_last() =~= all.take(i as int - 1));
    }
    assert(all.take(i as int) =~= all);
    fm
}

// ---------------------------------------------------------------------------
// Finding the block
// ---------------------------------------------------------------------------

/// Where the block of a note lies: the YAML text, and the body behind it.
pub open spec fn block_of(content: Seq<char>) -> Option<(Seq<char>, Seq<char>)> {
    let trimmed = trim_start(content);
    if !"---"@.is_prefix_of(trimmed) {
        None
    } else {
        let after_first = trimmed.skip(3);
        match find_from(after_first, seq!['\n'], 0) {
            None => None,
            Some(first) => {
                let rest = after_first.skip(first + 1);
                match find_from(rest, "\n---"@, 0) {
                    None => None,
                    Some(end) => Some((rest.take(end), body_behind(rest.skip(end + 4)))),
                }
            },
        }
    }
}

/// The body: what follows the line of the closing fence.
pub open spec fn body_behind(after_closing: Seq<char>) -> Seq<char> {
    match find_from(after_closing, seq!['\n'], 0) {
        Some(k) => after_closing.skip(k + 1),
        None => after_closing,
    }
}

/// How many lines of the note stand before the body.
pub open spec fn lines_before(content: Seq<char>, body: Seq<char>) -> nat {
    lines_of(content.take(content.len() - body.len())).len()
}

/// The metadata of a note, its body, and the number of lines before the body. A
/// note without a block, or with one that is not YAML, is all body.
pub open spec fn extracted(content: Seq<char>) -> (FrontmatterModel, Seq<char>, nat) {
    match block_of(content) {
        Some((yaml, body)) => match yaml_document(yaml) {
            Some(doc) => (frontmatter_of(entries_of(doc)), body, lines_before(content, body)),
            None => (no_frontmatter(), content, 0),
        },
        None => (no_frontmatter(), content, 0),
    }
}

/// Cutting two texts behind one another leaves one piece less than cutting each.
pub proof fn lemma_split_concat(a: Seq<char>, b: Seq<char>, c: char)
    ensures
        split_on(a + b, c).len() == split_on(a, c).len() + split_on(b, c).len() - 1,
    decreases b.len(),
{
    split_on_nonempty(a, c);
    split_on_nonempty(b, c);
    if b.len() == 0 {
        assert(a + b =~= a);
    } else {
        lemma_split_concat(a, b.drop_last(), c);
        assert((a + b).drop_last() =~= a + b.drop_last());
        split_on_nonempty(b.drop_last(), c);
        split_on_nonempty(a + b.drop_last(), c);
    }
}

/// There is at most one piece more than there are characters.
pub proof fn lemma_split_bound(s: Seq<char>, c: char)
    ensures
        1 <= split_on(s, c).len() <= s.len() + 1,
    decreases s.len(),
{
    if s.len() > 0 {
        lemma_split_bound(s.drop_last(), c);
    }
}

/// There are no more lines than characters.
pub proof fn lemma_lines_bound(s: Seq<char>)
    ensures
        lines_of(s).len() <= s.len(),
        lines_of(s).len() <= split_on(s, '\n').len(),
{
    lemma_split_bound(s, '\n');
    if s.len() > 0 && s.last() != '\n' {
        lemma_split_bound(s.drop_last(), '\n');
    }
}

/// Trimming leaves an end of the text.
pub proof fn lemma_trim_start_suffix(s: Seq<char>)
    ensures
        trim_start(s).len() <= s.len(),
        trim_start(s) == s.skip(s.len() - trim_start(s).len()),
    decreases s.len(),
{
    if s.len() > 0 && is_white(s[0]) {
        lemma_trim_start_suffix(s.drop_first());
        let n = trim_start(s).len();
        assert(s.drop_first().skip(s.len() - 1 - n) =~= s.skip(s.len() - n));
    } else {
        assert(s.skip(0) =~= s);
    }
}

/// The body is the end of the note, and at least two characters more than the
/// number of lines stand before it.
pub proof fn lemma_block(content: Seq<char>)
    ensures
        match block_of(content) {
            Some((yaml, body)) => {
                &&& body.len() <= content.len()
                &&& body == content.skip(content.len() - body.len())
                &&& lines_before(content, body) + 2 <= content.len() - body.len()
            },
            None => true,
        },
{
    if let Some((yaml, body)) = block_of(content) {
        reveal_strlit("---");
        reveal_strlit("\n---");
        let trimmed = trim_start(content);
        let at = content.len() - trimmed.len();
        lemma_trim_start_suffix(content);
        let after_first = trimmed.skip(3);
        lemma_find_from(after_first, seq!['\n'], 0);
        let first = find_from(after_first, seq!['\n'], 0).unwrap();
        let rest = after_first.skip(first + 1);
        lemma_find_from(rest, "\n---"@, 0);
        let end = find_from(rest, "\n---"@, 0).unwrap();
        let after_closing = rest.skip(end + 4);
        lemma_find_from(after_closing, seq!['\n'], 0);
        assert(after_closing =~= content.skip(at + 3 + first + 1 + end + 4));
        assert(body =~= content.skip(content.len() - body.len()));
        let front = content.take(content.len() - body.len());
        let dashes = "---"@;
        let before = content.take(at as int);
        let behind = front.skip(at + 3);
        assert(trimmed.subrange(0, 3) =~= dashes);
        assert(front =~= before + (dashes + behind)) by {
            assert forall|k: int| at <= k < at + 3 implies front[k] == dashes[k - at] by {
                assert(trimmed.subrange(0, 3)[k - at] == trimmed[k - at]);
            }
        }
        lemma_split_concat(before, dashes + behind, '\n');
        lemma_split_concat(dashes, behind, '\n');
        lemma_split_bound(before, '\n');
        lemma_split_bound(behind, '\n');
        assert(split_on(dashes, '\n').len() == 1) by {
            reveal_with_fuel(split_on, 4);
        }
        lemma_lines_bound(front);
    }
}

/// Splits a note into its metadata and its body, and tells how many lines of
/// the note stand before the body. A note without a metadata block, or with one
/// that is not YAML, is returned whole.
pub fn extract_frontmatter(content: &str) -> (r: (Frontmatter, String, usize))
    ensures
        (r.0@, r.1@, r.2 as nat) == extracted(content@),
{
    let trimmed = str_trim_start(content);
    if !str_starts_with(trimmed.as_str(), "---") {
        return (Frontmatter::default(), content.to_owned(), 0);
    }
    proof {
        reveal_strlit("---");
        reveal_strlit("\n---");
        lemma_block(content@);
    }
    let t = chars_of(trimmed.as_str());
    let size: usize = t.len();
    let newline: Vec<char> = vec!['\n'];
    let closing = chars_of("\n---");
    assert(newline@ =~= seq!['\n']);
    let ghost after_first = t@.skip(3);
    proof {
        crate::text::lemma_find_in_rest(t@, newline@, 3, 3);
        lemma_find_from(after_first, newline@, 0);
    }
    if let Some(first) = find_chars(&t, &newline, 3) {
        proof {
            lemma_find_from(t@, newline@, 3);
        }
        assert(first + 1 <= size);
        let ghost rest = after_first.skip(first - 3 + 1);
        assert(rest =~= t@.skip(first + 1));
        proof {
            crate::text::lemma_find_in_rest(t@, closing@, first + 1, first + 1);
            lemma_find_from(rest, closing@, 0);
        }
        if let Some(end) = find_chars(&t, &closing, first + 1) {
            proof {
                lemma_find_from(t@, closing@, first + 1);
                lemma_find_from(t@, newline@, end + 4);
            }
            assert(end + 4 <= size);
            let yaml = string_range(&t, first + 1, end);
            assert(yaml@ =~= rest.take(end - first - 1));
            let ghost after_closing = rest.skip(end - first - 1 + 4);
            assert(after_closing =~= t@.skip(end + 4));
            proof {
                crate::text::lemma_find_in_rest(t@, newline@, end + 4, end + 4);
                lemma_find_from(after_closing, newline@, 0);
            }
            let body_at: usize = match find_chars(&t, &newline, end + 4) {
                Some(k) => k + 1,
                None => end + 4,
            };
            let body = string_range(&t, body_at, size);
            assert(body@ =~= body_behind(after_closing));
            if let Some(doc) = parse_yaml(yaml.as_str()) {
                let entries = plain_entries(&doc);
                let fm = parse_yaml_map(&entries);
                let c = chars_of(content);
                let front = string_range(&c, 0, c.len() - (size - body_at));
                assert(front@ =~= content@.take(content@.len() - body@.len()));
                let before = str_lines(front.as_str());
                return (fm, body, before.len());
            }
        }
    }
    (Frontmatter::default(), content.to_owned(), 0)
}

/// No key of the other metadata fields occurs twice.
pub proof fn extra_keys_distinct(entries: Seq<EntryModel>)
    ensures
        forall|i: int, j: int|
            #![trigger frontmatter_of(entries).extra[i], frontmatter_of(entries).extra[j]]
            0 <= i < j < frontmatter_of(entries).extra.len() ==> frontmatter_of(entries).extra[i].0
                != frontmatter_of(entries).extra[j].0,
    decreases entries.len(),
{
    if entries.len() > 0 {
        extra_keys_distinct(entries.drop_last());
        if let Some(key) = entries.last().key {
            lemma_key_index(frontmatter_of(entries.drop_last()).extra, key, 0);
        }
    }
}

proof fn lemma_key_index(fields: Seq<(Seq<char>, Seq<char>)>, key: Seq<char>, i: int)
    requires
        0 <= i <= fields.len(),
    ensures
        i <= key_index(fields, key, i) <= fields.len(),
        key_index(fields, key, i) < fields.len() ==> fields[key_index(fields, key, i)].0 == key,
        forall|j: int| i <= j < key_index(fields, key, i) ==> (#[trigger] fields[j]).0 != key,
    decreases fields.len() - i,
{
    if i < fields.len() && fields[i].0 != key {
        lemma_key_index(fields, key, i + 1);
    }
}

// ---------------------------------------------------------------------------
// What holds of metadata
// ---------------------------------------------------------------------------

/// Whether an item has text once white space and leading hashes are off.
pub open spec fn has_item(item: Option<Seq<char>>) -> bool {
    item matches Some(s) && trim_start_char(trim(s), '#').len() > 0
}

/// A list keeps every item that has text, without white space and leading hashes, in the
/// order of the items, and nothing else.
pub proof fn lists_keep_what_has_text(items: Seq<Option<Seq<char>>>)
    ensures
        clean_items(items).len() == items.filter(|i: Option<Seq<char>>| has_item(i)).len(),
        forall|k: int|
            0 <= k < clean_items(items).len() ==> #[trigger] clean_items(items)[k]
                == trim_start_char(
                trim(items.filter(|i: Option<Seq<char>>| has_item(i))[k]->0),
                '#',
            ),
    decreases items.len(),
{
    reveal(Seq::filter);
    if items.len() > 0 {
        lists_keep_what_has_text(items.drop_last());
    }
}

/// One field more sets what it is named after, case aside, and leaves the rest as it was.
/// A title, a creation or a modification that is no single value is not taken; a field
/// with another name is kept as it is.
pub proof fn field_sets_what_it_is_named_after(entries: Seq<EntryModel>, e: EntryModel)
    ensures
        ({
            let was = frontmatter_of(entries);
            let fm = frontmatter_of(entries.push(e));
            let text = match e.value {
                YamlFieldModel::One(ScalarModel::Text(t)) => Some(t),
                YamlFieldModel::One(ScalarModel::Number(t)) => Some(t),
                YamlFieldModel::One(ScalarModel::Bool(b)) => Some(
                    if b {
                        "true"@
                    } else {
                        "false"@
                    },
                ),
                _ => None,
            };
            let is_key = |k: Seq<char>| e.key matches Some(key) && lowercase(key) == k;
            &&& fm.title == (if is_key("title"@) && text is Some {
                text
            } else {
                was.title
            })
            &&& fm.created == (if (is_key("created"@) || is_key("date"@)) && text is Some {
                text
            } else {
                was.created
            })
            &&& fm.updated == (if (is_key("updated"@) || is_key("modified"@) || is_key(
                "last_modified"@,
            )) && text is Some {
                text
            } else {
                was.updated
            })
            &&& fm.aliases == (if is_key("aliases"@) || is_key("alias"@) {
                field_list(e.value)
            } else {
                was.aliases
            })
            &&& fm.tags == (if is_key("tags"@) || is_key("tag"@) {
                field_list(e.value)
            } else {
                was.tags
            })
        }),
{
    assert(entries.push(e).drop_last() =~= entries);
    reveal_strlit("title");
    reveal_strlit("aliases");
    reveal_strlit("alias");
    reveal_strlit("tags");
    reveal_strlit("tag");
    reveal_strlit("created");
    reveal_strlit("date");
    reveal_strlit("updated");
    reveal_strlit("modified");
    reveal_strlit("last_modified");
    assert("title"@.len() == 5 && "alias"@.len() == 5 && "title"@[0] == 't' && "alias"@[0] == 'a');
    assert("aliases"@.len() == 7 && "created"@.len() == 7 && "updated"@.len() == 7);
    assert("aliases"@[0] == 'a' && "created"@[0] == 'c' && "updated"@[0] == 'u');
    assert("tags"@.len() == 4 && "date"@.len() == 4 && "tags"@[0] == 't' && "date"@[0] == 'd');
    assert("tag"@.len() == 3 && "modified"@.len() == 8 && "last_modified"@.len() == 13);
}

/// A further field has the value it was given last, and leaves the others as they were.
pub proof fn further_field_reads_back(
    fields: Seq<(Seq<char>, Seq<char>)>,
    key: Seq<char>,
    json: Seq<char>,
)
    ensures
        put_field(fields, key, json).contains((key, json)),
        forall|i: int|
            0 <= i < fields.len() && (#[trigger] fields[i]).0 != key ==> put_field(
                fields,
                key,
                json,
            ).contains(fields[i]),
        forall|i: int|
            0 <= i < put_field(fields, key, json).len() && (#[trigger] put_field(
                fields,
                key,
                json,
            )[i]).0 != key ==> fields.contains(put_field(fields, key, json)[i]),
{
    let k = key_index(fields, key, 0);
    let r = put_field(fields, key, json);
    lemma_key_found(fields, key, 0);
    assert(r[k] == (key, json));
    assert forall|i: int| 0 <= i < fields.len() && (#[trigger] fields[i]).0 != key implies r.contains(
        fields[i],
    ) by {
        assert(r[i] == fields[i]);
    }
    assert forall|i: int| 0 <= i < r.len() && (#[trigger] r[i]).0 != key implies fields.contains(
        r[i],
    ) by {
        assert(r[i] == fields[i]);
    }
}

proof fn lemma_key_found(fields: Seq<(Seq<char>, Seq<char>)>, key: Seq<char>, i: int)
    requires
        0 <= i <= fields.len(),
    ensures
        i <= key_index(fields, key, i) <= fields.len(),
        key_index(fields, key, i) < fields.len() ==> fields[key_index(fields, key, i)].0 == key,
    decreases fields.len() - i,
{
    if i < fields.len() && fields[i].0 != key {
        lemma_key_found(fields, key, i + 1);
    }
}

proof fn lemma_found_first(s: Seq<char>, p: Seq<char>, k: int, i: int)
    requires
        0 <= i <= k,
        occurs_at(s, p, k),
        forall|j: int| i <= j < k ==> !occurs_at(s, p, j),
    ensures
        find_from(s, p, i) == Some(k),
    decreases k - i,
{
    if i < k {
        assert(!occurs_at(s, p, i));
        lemma_found_first(s, p, k, i + 1);
    }
}

/// A block between two lines of three dashes at the top of a note is its metadata, if it
/// is YAML, and what follows the line of the closing dashes is its body. The lines before
/// the body are counted.
pub proof fn block_at_the_top_is_metadata(head: Seq<char>, yaml: Seq<char>, tail: Seq<char>, body: Seq<char>)
    requires
        !head.contains('\n'),
        !tail.contains('\n'),
        !crate::text::contains_str(yaml + "\n--"@, "\n---"@),
    ensures
        ({
            let content = "---"@ + head + seq!['\n'] + yaml + "\n---"@ + tail + seq!['\n'] + body;
            &&& yaml_document(yaml) matches Some(doc) ==> extracted(content).0 == frontmatter_of(
                entries_of(doc),
            ) && extracted(content).1 == body && extracted(content).2 == lines_of(
                content.take(content.len() - body.len()),
            ).len()
            &&& yaml_document(yaml) is None ==> extracted(content).1 == content && extracted(
                content,
            ).2 == 0
        }),
{
    let rest = yaml + "\n---"@ + (tail + seq!['\n'] + body);
    let content = "---"@ + head + seq!['\n'] + yaml + "\n---"@ + tail + seq!['\n'] + body;
    assert(content =~= "---"@ + (head + seq!['\n'] + rest));
    lemma_block_begins(head + seq!['\n'] + rest);
    lemma_line_ends(head, rest);
    lemma_fence_stands(yaml, tail + seq!['\n'] + body);
    lemma_line_ends(tail, body);
    assert(block_of(content) == Some((yaml, body)));
}

proof fn lemma_block_begins(after: Seq<char>)
    ensures
        trim_start("---"@ + after) == "---"@ + after,
        "---"@.is_prefix_of("---"@ + after),
        ("---"@ + after).skip(3) == after,
{
    reveal_strlit("---");
    let s = "---"@ + after;
    assert(s[0] == '-');
    assert(!is_white('-'));
    assert("---"@ =~= s.take(3));
    assert(s.skip(3) =~= after);
}

proof fn lemma_line_ends(a: Seq<char>, b: Seq<char>)
    requires
        !a.contains('\n'),
    ensures
        find_from(a + seq!['\n'] + b, seq!['\n'], 0) == Some(a.len() as int),
        (a + seq!['\n'] + b).skip(a.len() as int + 1) == b,
{
    let s = a + seq!['\n'] + b;
    assert(occurs_at(s, seq!['\n'], a.len() as int)) by {
        assert(s.subrange(a.len() as int, a.len() as int + 1) =~= seq!['\n']);
    }
    assert forall|j: int| 0 <= j < a.len() implies !occurs_at(s, seq!['\n'], j) by {
        assert(s.subrange(j, j + 1)[0] == a[j]);
        assert(a[j] != '\n');
    }
    lemma_found_first(s, seq!['\n'], a.len() as int, 0);
    assert(s.skip(a.len() as int + 1) =~= b);
}

proof fn lemma_fence_stands(yaml: Seq<char>, more: Seq<char>)
    requires
        !crate::text::contains_str(yaml + "\n--"@, "\n---"@),
    ensures
        find_from(yaml + "\n---"@ + more, "\n---"@, 0) == Some(yaml.len() as int),
        (yaml + "\n---"@ + more).take(yaml.len() as int) == yaml,
        (yaml + "\n---"@ + more).skip(yaml.len() as int + 4) == more,
{
    reveal_strlit("\n---");
    reveal_strlit("\n--");
    let rest = yaml + "\n---"@ + more;
    let near = yaml + "\n--"@;
    let n = yaml.len() as int;
    assert(occurs_at(rest, "\n---"@, n)) by {
        assert(rest.subrange(n, n + 4) =~= "\n---"@);
    }
    assert forall|j: int| 0 <= j < n implies !occurs_at(rest, "\n---"@, j) by {
        if occurs_at(rest, "\n---"@, j) {
            assert(near.subrange(j, j + 4) =~= rest.subrange(j, j + 4));
            assert(occurs_at(near, "\n---"@, j));
        }
    }
    lemma_found_first(rest, "\n---"@, n, 0);
    assert(rest.take(n) =~= yaml);
    assert(rest.skip(n + 4) =~= more);
}

/// A note that does not begin with three dashes, white space aside, is all body.
pub proof fn note_without_a_block_is_all_body(content: Seq<char>)
    requires
        !"---"@.is_prefix_of(trim_start(content)),
    ensures
        extracted(content).1 == content,
        extracted(content).2 == 0,
        extracted(content).0.title is None,
        extracted(content).0.tags.len() == 0,
        extracted(content).0.aliases.len() == 0,
{
}

proof fn lemma_clean_parts(a: Seq<Option<Seq<char>>>, b: Seq<Option<Seq<char>>>)
    ensures
        clean_items(a + b) == clean_items(a) + clean_items(b),
    decreases b.len(),
{
    if b.len() == 0 {
        assert(a + b =~= a);
        assert(clean_items(a) + clean_items(b) =~= clean_items(a));
    } else {
        lemma_clean_parts(a, b.drop_last());
        assert((a + b).drop_last() =~= a + b.drop_last());
        assert(clean_items(a + b) =~= clean_items(a) + clean_items(b));
    }
}

proof fn lemma_spaces_part(a: Seq<char>, b: Seq<char>)
    ensures
        split_on(a + seq![' '] + b, ' ') == split_on(a, ' ') + split_on(b, ' '),
    decreases b.len(),
{
    let s = a + seq![' '];
    if b.len() == 0 {
        assert(s + b =~= s);
        assert(s.drop_last() =~= a);
        assert(split_on(s, ' ') =~= split_on(a, ' ') + split_on(b, ' '));
    } else {
        lemma_spaces_part(a, b.drop_last());
        split_on_nonempty(b.drop_last(), ' ');
        assert((s + b).drop_last() =~= s + b.drop_last());
        assert((s + b).last() == b.last());
        let before = split_on(b.drop_last(), ' ');
        let first = split_on(a, ' ');
        assert((first + before).last() == before.last());
        assert((first + before).drop_last() =~= first + before.drop_last());
        assert(split_on(s + b, ' ') =~= first + split_on(b, ' '));
    }
}

/// A list that is written as one text is parted by commas and by spaces: the items of a
/// text are those before a comma or space and those behind it.
pub proof fn commas_and_spaces_part_lists(a: Seq<char>, c: char, b: Seq<char>)
    requires
        c == ',' || c == ' ',
    ensures
        field_list(YamlFieldModel::One(ScalarModel::Text(a + seq![c] + b))) == field_list(
            YamlFieldModel::One(ScalarModel::Text(a)),
        ) + field_list(YamlFieldModel::One(ScalarModel::Text(b))),
        a.len() > 0 && !a.contains(',') && !a.contains(' ') && trim(a) == a && a[0] != '#'
            ==> field_list(YamlFieldModel::One(ScalarModel::Text(a))) == seq![a],
{
    let s = a + seq![c] + b;
    let (x, y) = (replace_char(a, ',', ' '), replace_char(b, ',', ' '));
    let f = |p: Seq<char>| Some(p);
    assert(replace_char(s, ',', ' ') =~= x + seq![' '] + y);
    lemma_spaces_part(x, y);
    let (p, q) = (split_on(x, ' '), split_on(y, ' '));
    assert((p + q).map_values(f) =~= p.map_values(f) + q.map_values(f));
    lemma_clean_parts(p.map_values(f), q.map_values(f));
    if a.len() > 0 && !a.contains(',') && !a.contains(' ') && trim(a) == a && a[0] != '#' {
        assert(x =~= a) by {
            assert forall|i: int| 0 <= i < a.len() implies x[i] == a[i] by {
                assert(a[i] != ',');
            }
        }
        lemma_one_item(a);
        let one = seq![a].map_values(f);
        assert(one =~= seq![Some(a)]);
        assert(clean_items(one.drop_last()).len() == 0);
        assert(trim_start_char(a, '#') == a);
        assert(clean_items(one) =~= seq![a]);
    }
}

proof fn lemma_one_item(a: Seq<char>)
    requires
        !a.contains(' '),
    ensures
        split_on(a, ' ') == seq![a],
    decreases a.len(),
{
    if a.len() > 0 {
        assert(!a.drop_last().contains(' ')) by {
            if a.drop_last().contains(' ') {
                let k = choose|k: int| 0 <= k < a.drop_last().len() && a.drop_last()[k] == ' ';
                assert(a[k] == ' ');
            }
        }
        lemma_one_item(a.drop_last());
        assert(a[a.len() - 1] != ' ');
        assert(a.drop_last().push(a.last()) =~= a);
    } else {
        assert(a =~= Seq::<char>::empty());
    }
    assert(split_on(a, ' ') =~= seq![a]);
}

} // verus!
