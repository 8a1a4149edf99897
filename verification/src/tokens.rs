//! Tokenizer files: which of them are plain enough to be used, and the tokens of a text.

use crate::frontmatter::{
    mapping_of, scalar_of, sequence_of, yaml_mapping, yaml_scalar, yaml_sequence, ScalarModel,
    YamlScalar,
};
use crate::lsp::{parse_number, parsed_number};
use crate::text::{chars_of, same};
use vstd::prelude::*;

verus! {

// ---------------------------------------------------------------------------
// JSON documents
// ---------------------------------------------------------------------------

/// The JSON document that bytes hold, as a tree; nothing where they hold none, or where
/// a key stands twice in one object.
pub uninterp spec fn json_document(file: Seq<u8>) -> Option<serde_yaml::Value>;

/// Calls `serde_json::from_slice` for the `Value` of the `serde_yaml` crate, whose
/// mappings refuse a key that comes a second time. The result is a function of the bytes.
/// Which bytes are JSON is not stated here.
#[verifier::external_body]
fn parse_json(file: &Vec<u8>) -> (r: Option<serde_yaml::Value>)
    ensures
        r == json_document(file@),
{
    serde_json::from_slice::<serde_yaml::Value>(file).ok()
}

/// The first place from `i` on of an entry with this key, or the length.
pub open spec fn key_index(
    entries: Seq<(serde_yaml::Value, serde_yaml::Value)>,
    name: Seq<char>,
    i: int,
) -> int
    decreases entries.len() - i,
{
    if i >= entries.len() {
        entries.len() as int
    } else if yaml_scalar(entries[i].0) == ScalarModel::Text(name) {
        i
    } else {
        key_index(entries, name, i + 1)
    }
}

/// The field of this name, where the value is an object that has it.
pub open spec fn field(v: serde_yaml::Value, name: Seq<char>) -> Option<serde_yaml::Value> {
    match yaml_mapping(v) {
        Some(entries) => if key_index(entries, name, 0) < entries.len() {
            Some(entries[key_index(entries, name, 0)].1)
        } else {
            None
        },
        None => None,
    }
}

/// Whether a value is null.
pub open spec fn is_null(v: serde_yaml::Value) -> bool {
    yaml_scalar(v) == ScalarModel::Other && yaml_mapping(v) is None && yaml_sequence(v) is None
}

/// Whether a value is this text.
pub open spec fn is_text(v: serde_yaml::Value, text: Seq<char>) -> bool {
    yaml_scalar(v) == ScalarModel::Text(text)
}

/// Whether the field of this name is there and is this text.
pub open spec fn field_is(v: serde_yaml::Value, name: Seq<char>, text: Seq<char>) -> bool {
    field(v, name) matches Some(f) && is_text(f, text)
}

/// Whether the field of this name is missing or null.
pub open spec fn lacks(v: serde_yaml::Value, name: Seq<char>) -> bool {
    field(v, name) matches Some(f) ==> is_null(f)
}

/// Whether the field of this name is there and is a truth value.
pub open spec fn has_flag(v: serde_yaml::Value, name: Seq<char>) -> bool {
    field(v, name) matches Some(f) && yaml_scalar(f) is Bool
}

/// The whole number in the field of this name.
pub open spec fn number_in(v: serde_yaml::Value, name: Seq<char>) -> Option<nat> {
    match field(v, name) {
        Some(f) => match yaml_scalar(f) {
            ScalarModel::Number(digits) => parsed_number(digits),
            _ => None,
        },
        None => None,
    }
}

fn find_key(entries: &Vec<(serde_yaml::Value, serde_yaml::Value)>, name: &str) -> (r: usize)
    ensures
        r == key_index(entries@, name@, 0),
        r <= entries@.len(),
{
    let mut i: usize = 0;
    while i < entries.len()
        invariant
            i <= entries@.len(),
            key_index(entries@, name@, i as int) == key_index(entries@, name@, 0),
        decreases entries.len() - i,
    {
        if text_is(&entries[i].0, name) {
            return i;
        }
        i += 1;
    }
    i
}

fn text_is(v: &serde_yaml::Value, text: &str) -> (r: bool)
    ensures
        r == is_text(*v, text@),
{
    match scalar_of(v) {
        YamlScalar::Text(s) => same(s.as_str(), text),
        _ => false,
    }
}

fn take_field(v: &serde_yaml::Value, name: &str) -> (r: Option<serde_yaml::Value>)
    ensures
        r == field(*v, name@),
{
    match mapping_of(v) {
        Some(entries) => {
            let mut entries = entries;
            let i: usize = find_key(&entries, name);
            if i < entries.len() {
                let entry = entries.remove(i);
                Some(entry.1)
            } else {
                None
            }
        },
        None => None,
    }
}

fn null(v: &serde_yaml::Value) -> (r: bool)
    ensures
        r == is_null(*v),
{
    match scalar_of(v) {
        YamlScalar::Other => mapping_of(v).is_none() && sequence_of(v).is_none(),
        _ => false,
    }
}

fn field_says(v: &serde_yaml::Value, name: &str, text: &str) -> (r: bool)
    ensures
        r == field_is(*v, name@, text@),
{
    match take_field(v, name) {
        Some(f) => text_is(&f, text),
        None => false,
    }
}

fn is_without(v: &serde_yaml::Value, name: &str) -> (r: bool)
    ensures
        r == lacks(*v, name@),
{
    match take_field(v, name) {
        Some(f) => null(&f),
        None => true,
    }
}

fn holds_flag(v: &serde_yaml::Value, name: &str) -> (r: bool)
    ensures
        r == has_flag(*v, name@),
{
    match take_field(v, name) {
        Some(f) => match scalar_of(&f) {
            YamlScalar::Bool(_) => true,
            _ => false,
        },
        None => false,
    }
}

fn read_number_in(v: &serde_yaml::Value, name: &str) -> (r: Option<usize>)
    ensures
        match r {
            Some(n) => number_in(*v, name@) == Some(n as nat),
            None => number_in(*v, name@) is None,
        },
{
    match take_field(v, name) {
        Some(f) => match scalar_of(&f) {
            YamlScalar::Number(digits) => parse_number(digits.as_str()),
            _ => None,
        },
        None => None,
    }
}

// ---------------------------------------------------------------------------
// Plain tokenizers
// ---------------------------------------------------------------------------

/// The size up to which tokenizer files are taken.
pub const FILE_LIMIT: usize = 0x400_0000;

/// The normalizer of Bert with its four switches, or lower case alone.
pub open spec fn plain_normalizer(v: serde_yaml::Value) -> bool {
    ||| field_is(v, "type"@, "Lowercase"@)
    ||| {
        &&& field_is(v, "type"@, "BertNormalizer"@)
        &&& has_flag(v, "clean_text"@)
        &&& has_flag(v, "handle_chinese_chars"@)
        &&& has_flag(v, "lowercase"@)
        &&& lacks(v, "strip_accents"@) || has_flag(v, "strip_accents"@)
    }
}

/// Words by white space and punctuation.
pub open spec fn plain_pre_tokenizer(v: serde_yaml::Value) -> bool {
    field_is(v, "type"@, "BertPreTokenizer"@) || field_is(v, "type"@, "Whitespace"@) || field_is(
        v,
        "type"@,
        "WhitespaceSplit"@,
    )
}

/// Parts that overlap by less than they are long.
pub open spec fn plain_truncation(v: serde_yaml::Value) -> bool {
    match (number_in(v, "max_length"@), number_in(v, "stride"@)) {
        (Some(length), Some(stride)) => length == 0 || stride < length,
        _ => false,
    }
}

/// Padding to the longest text at hand.
pub open spec fn plain_padding(v: serde_yaml::Value) -> bool {
    field_is(v, "strategy"@, "BatchLongest"@) && lacks(v, "pad_to_multiple_of"@)
}

/// Whether a piece of a template is the text.
pub open spec fn is_text_piece(v: serde_yaml::Value) -> bool {
    field(v, "Sequence"@) matches Some(s) && field_is(s, "id"@, "A"@)
}

/// Whether a piece of a template is a special token.
pub open spec fn is_token_piece(v: serde_yaml::Value) -> bool {
    field(v, "SpecialToken"@) is Some && field(v, "Sequence"@) is None
}

/// Whether the pieces are special tokens and, once at most, the text.
pub open spec fn plain_pieces(pieces: Seq<serde_yaml::Value>) -> bool {
    &&& forall|i: int|
        0 <= i < pieces.len() ==> is_text_piece(#[trigger] pieces[i]) || is_token_piece(pieces[i])
    &&& forall|i: int, j: int|
        0 <= i < j < pieces.len() && is_text_piece(#[trigger] pieces[i]) ==> !is_text_piece(
            #[trigger] pieces[j],
        )
}

/// A template whose form for one text holds that text once at most. It has no field of
/// another processor.
pub open spec fn plain_processor(v: serde_yaml::Value) -> bool {
    &&& field_is(v, "type"@, "TemplateProcessing"@)
    &&& field(v, "sep"@) is None && field(v, "cls"@) is None && field(v, "processors"@) is None
    &&& field(v, "single"@) matches Some(single) && yaml_sequence(single) matches Some(pieces)
        && plain_pieces(pieces)
}

/// Whether a text is made of visible ASCII characters, at least one.
pub open spec fn is_visible(s: Seq<char>) -> bool {
    s.len() > 0 && forall|i: int| 0 <= i < s.len() ==> '!' <= #[trigger] s[i] <= '~'
}

/// A token that the vocabulary has, made of visible ASCII characters.
pub open spec fn plain_token(
    v: serde_yaml::Value,
    vocabulary: Seq<(serde_yaml::Value, serde_yaml::Value)>,
) -> bool {
    field(v, "content"@) matches Some(c) && yaml_scalar(c) matches ScalarModel::Text(s)
        && is_visible(s) && key_index(vocabulary, s, 0) < vocabulary.len()
}

/// Whether all tokens are plain.
pub open spec fn plain_tokens(
    tokens: Seq<serde_yaml::Value>,
    vocabulary: Seq<(serde_yaml::Value, serde_yaml::Value)>,
) -> bool {
    forall|i: int| 0 <= i < tokens.len() ==> plain_token(#[trigger] tokens[i], vocabulary)
}

/// A vocabulary of word pieces, and no added token that it lacks.
pub open spec fn plain_model(model: serde_yaml::Value, added: Option<serde_yaml::Value>) -> bool {
    &&& field_is(model, "type"@, "WordPiece"@)
    &&& match added {
        Some(a) => match (yaml_sequence(a), field(model, "vocab"@)) {
            (Some(tokens), Some(vocab)) => match yaml_mapping(vocab) {
                Some(entries) => plain_tokens(tokens, entries),
                None => false,
            },
            _ => false,
        },
        None => true,
    }
}

/// Whether a tokenizer is plain: word pieces, and in every other section nothing or one of
/// few simple choices. Such a tokenizer can be loaded and used on any text, and what it
/// makes of a text does not depend on chance.
pub open spec fn plain_document(doc: serde_yaml::Value) -> bool {
    &&& lacks(doc, "normalizer"@) || plain_normalizer(field(doc, "normalizer"@)->0)
    &&& lacks(doc, "pre_tokenizer"@) || plain_pre_tokenizer(field(doc, "pre_tokenizer"@)->0)
    &&& lacks(doc, "truncation"@) || plain_truncation(field(doc, "truncation"@)->0)
    &&& lacks(doc, "padding"@) || plain_padding(field(doc, "padding"@)->0)
    &&& lacks(doc, "post_processor"@) || plain_processor(field(doc, "post_processor"@)->0)
    &&& lacks(doc, "decoder"@) || field_is(field(doc, "decoder"@)->0, "type"@, "WordPiece"@)
    &&& field(doc, "model"@) matches Some(model) && plain_model(model, field(doc, "added_tokens"@))
}

/// Whether a file holds a plain tokenizer.
pub open spec fn is_plain_file(file: Seq<u8>) -> bool {
    file.len() <= FILE_LIMIT && (json_document(file) matches Some(doc) && plain_document(doc))
}

fn normalizer_is_plain(v: &serde_yaml::Value) -> (r: bool)
    ensures
        r == plain_normalizer(*v),
{
    field_says(v, "type", "Lowercase") || (field_says(v, "type", "BertNormalizer") && holds_flag(
        v,
        "clean_text",
    ) && holds_flag(v, "handle_chinese_chars") && holds_flag(v, "lowercase") && (is_without(
        v,
        "strip_accents",
    ) || holds_flag(v, "strip_accents")))
}

fn pre_tokenizer_is_plain(v: &serde_yaml::Value) -> (r: bool)
    ensures
        r == plain_pre_tokenizer(*v),
{
    field_says(v, "type", "BertPreTokenizer") || field_says(v, "type", "Whitespace") || field_says(
        v,
        "type",
        "WhitespaceSplit",
    )
}

fn truncation_is_plain(v: &serde_yaml::Value) -> (r: bool)
    ensures
        r == plain_truncation(*v),
{
    match (read_number_in(v, "max_length"), read_number_in(v, "stride")) {
        (Some(length), Some(stride)) => length == 0 || stride < length,
        _ => false,
    }
}

fn padding_is_plain(v: &serde_yaml::Value) -> (r: bool)
    ensures
        r == plain_padding(*v),
{
    field_says(v, "strategy", "BatchLongest") && is_without(v, "pad_to_multiple_of")
}

fn pieces_are_plain(pieces: &Vec<serde_yaml::Value>) -> (r: bool)
    ensures
        r == plain_pieces(pieces@),
{
    let mut seen: Option<usize> = None;
    let mut i: usize = 0;
    while i < pieces.len()
        invariant
            i <= pieces@.len(),
            forall|k: int|
                0 <= k < i ==> is_text_piece(#[trigger] pieces@[k]) || is_token_piece(pieces@[k]),
            match seen {
                Some(s) => s < i && is_text_piece(pieces@[s as int]) && forall|k: int|
                    0 <= k < i && k != s ==> !is_text_piece(#[trigger] pieces@[k]),
                None => forall|k: int| 0 <= k < i ==> !is_text_piece(#[trigger] pieces@[k]),
            },
        decreases pieces.len() - i,
    {
        match take_field(&pieces[i], "Sequence") {
            Some(s) => {
                if !field_says(&s, "id", "A") {
                    assert(!is_text_piece(pieces@[i as int]) && !is_token_piece(pieces@[i as int]));
                    return false;
                }
                assert(is_text_piece(pieces@[i as int]));
                if seen.is_some() {
                    return false;
                }
                seen = Some(i);
            },
            None => {
                if take_field(&pieces[i], "SpecialToken").is_none() {
                    assert(!is_text_piece(pieces@[i as int]) && !is_token_piece(pieces@[i as int]));
                    return false;
                }
            },
        }
        i += 1;
    }
    true
}

fn processor_is_plain(v: &serde_yaml::Value) -> (r: bool)
    ensures
        r == plain_processor(*v),
{
    if !field_says(v, "type", "TemplateProcessing") || take_field(v, "sep").is_some() || take_field(
        v,
        "cls",
    ).is_some() || take_field(v, "processors").is_some() {
        return false;
    }
    match take_field(v, "single") {
        Some(single) => match sequence_of(&single) {
            Some(pieces) => pieces_are_plain(&pieces),
            None => false,
        },
        None => false,
    }
}

fn visible(s: &str) -> (r: bool)
    ensures
        r == is_visible(s@),
{
    let v = chars_of(s);
    let mut i: usize = 0;
    while i < v.len()
        invariant
            i <= v@.len(),
            v@ == s@,
            forall|k: int| 0 <= k < i ==> '!' <= #[trigger] s@[k] <= '~',
        decreases v.len() - i,
    {
        if v[i] < '!' || v[i] > '~' {
            assert(!('!' <= s@[i as int] <= '~'));
            return false;
        }
        i += 1;
    }
    v.len() > 0
}

fn token_is_plain(
    v: &serde_yaml::Value,
    vocabulary: &Vec<(serde_yaml::Value, serde_yaml::Value)>,
) -> (r: bool)
    ensures
        r == plain_token(*v, vocabulary@),
{
    match take_field(v, "content") {
        Some(c) => match scalar_of(&c) {
            YamlScalar::Text(s) => visible(s.as_str()) && find_key(vocabulary, s.as_str())
                < vocabulary.len(),
            _ => false,
        },
        None => false,
    }
}

fn tokens_are_plain(
    tokens: &Vec<serde_yaml::Value>,
    vocabulary: &Vec<(serde_yaml::Value, serde_yaml::Value)>,
) -> (r: bool)
    ensures
        r == plain_tokens(tokens@, vocabulary@),
{
    let mut i: usize = 0;
    while i < tokens.len()
        invariant
            i <= tokens@.len(),
            forall|k: int| 0 <= k < i ==> plain_token(#[trigger] tokens@[k], vocabulary@),
        decreases tokens.len() - i,
    {
        if !token_is_plain(&tokens[i], vocabulary) {
            assert(!plain_token(tokens@[i as int], vocabulary@));
            return false;
        }
        i += 1;
    }
    true
}

fn model_is_plain(model: &serde_yaml::Value, added: &Option<serde_yaml::Value>) -> (r: bool)
    ensures
        r == plain_model(*model, *added),
{
    if !field_says(model, "type", "WordPiece") {
        return false;
    }
    let tokens = match added {
        Some(a) => match sequence_of(a) {
            Some(tokens) => tokens,
            None => return false,
        },
        None => return true,
    };
    let vocabulary = match take_field(model, "vocab") {
        Some(vocab) => match mapping_of(&vocab) {
            Some(entries) => entries,
            None => return false,
        },
        None => return false,
    };
    tokens_are_plain(&tokens, &vocabulary)
}

/// Tests whether a tokenizer is plain.
pub fn document_is_plain(doc: &serde_yaml::Value) -> (r: bool)
    ensures
        r == plain_document(*doc),
{
    let normalizer = match take_field(doc, "normalizer") {
        Some(v) => null(&v) || normalizer_is_plain(&v),
        None => true,
    };
    let pre_tokenizer = match take_field(doc, "pre_tokenizer") {
        Some(v) => null(&v) || pre_tokenizer_is_plain(&v),
        None => true,
    };
    let truncation = match take_field(doc, "truncation") {
        Some(v) => null(&v) || truncation_is_plain(&v),
        None => true,
    };
    let padding = match take_field(doc, "padding") {
        Some(v) => null(&v) || padding_is_plain(&v),
        None => true,
    };
    let processor = match take_field(doc, "post_processor") {
        Some(v) => null(&v) || processor_is_plain(&v),
        None => true,
    };
    let decoder = match take_field(doc, "decoder") {
        Some(v) => null(&v) || field_says(&v, "type", "WordPiece"),
        None => true,
    };
    let model = match take_field(doc, "model") {
        Some(model) => model_is_plain(&model, &take_field(doc, "added_tokens")),
        None => false,
    };
    normalizer && pre_tokenizer && truncation && padding && processor && decoder && model
}

/// Tests whether a file holds a plain tokenizer.
pub fn file_is_plain(file: &Vec<u8>) -> (r: bool)
    ensures
        r == is_plain_file(file@),
{
    if file.len() > FILE_LIMIT {
        return false;
    }
    match parse_json(file) {
        Some(doc) => document_is_plain(&doc),
        None => false,
    }
}

// ---------------------------------------------------------------------------
// Tokens
// ---------------------------------------------------------------------------

/// A loaded tokenizer of the `tokenizers` crate.
#[verifier::external_type_specification]
#[verifier::external_body]
pub struct ExTokenizer(tokenizers::Tokenizer);

/// The file that a tokenizer was loaded from.
pub uninterp spec fn file_of(t: tokenizers::Tokenizer) -> Seq<u8>;

/// Whether a file can be loaded as a tokenizer.
pub uninterp spec fn is_tokenizer(file: Seq<u8>) -> bool;

/// The tokens that the tokenizer of a file makes of a text; nothing where it fails.
pub uninterp spec fn token_ids(file: Seq<u8>, text: Seq<char>) -> Option<Seq<u32>>;

/// Calls `Tokenizer::from_bytes`, which looks at nothing but the bytes. A tokenizer stands
/// for the file it was loaded from. Some files make the crate panic while it reads their
/// normalizer, decoder or added tokens; plain ones do not. Which files it accepts is not
/// stated here.
#[verifier::external_body]
pub(crate) fn load(file: &Vec<u8>) -> (r: Option<tokenizers::Tokenizer>)
    requires
        is_plain_file(file@),
    ensures
        match r {
            Some(t) => is_tokenizer(file@) && file_of(t) == file@,
            None => !is_tokenizer(file@),
        },
{
    tokenizers::Tokenizer::from_bytes(file).ok()
}

/// Calls `Tokenizer::encode` without special tokens, and copies the ids out by
/// `Encoding::get_ids`. With a plain tokenizer nothing is drawn by chance, and no text makes
/// the crate panic: that takes a truncation, a template or a character map that plain files
/// do not have. What the tokens of a text are is not stated here.
#[verifier::external_body]
pub(crate) fn encode(t: &tokenizers::Tokenizer, text: &str) -> (r: Option<Vec<u32>>)
    requires
        is_plain_file(file_of(*t)),
    ensures
        match r {
            Some(ids) => token_ids(file_of(*t), text@) == Some(ids@),
            None => token_ids(file_of(*t), text@) is None,
        },
{
    t.encode(text, false).ok().map(|e| e.get_ids().to_vec())
}

} // verus!
