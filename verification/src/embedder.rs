//! Static token embeddings: reading the tables of a model, and which rows of them
//! a text is made of. Numbers with a fraction are carried as the bits they are
//! stored in.

use crate::serve::utf8_text;
use crate::text::{chars_of, decimal, opt_view, push_decimal};
use crate::tokens::{
    encode, file_is_plain, file_of, is_plain_file, is_tokenizer, load, token_ids,
};
use vstd::prelude::*;
use vstd::utf8::*;

verus! {

// ---------------------------------------------------------------------------
// Tensors in a file
// ---------------------------------------------------------------------------

/// What the numbers of a tensor are.
#[derive(Debug)]
pub enum TensorType {
    F32,
    F16,
    I8,
    I32,
    I64,
    /// Any other, by its name.
    Other(String),
}

/// What a `TensorType` is.
pub enum TypeModel {
    F32,
    F16,
    I8,
    I32,
    I64,
    Other(Seq<char>),
}

impl View for TensorType {
    type V = TypeModel;

    open spec fn view(&self) -> TypeModel {
        match self {
            TensorType::F32 => TypeModel::F32,
            TensorType::F16 => TypeModel::F16,
            TensorType::I8 => TypeModel::I8,
            TensorType::I32 => TypeModel::I32,
            TensorType::I64 => TypeModel::I64,
            TensorType::Other(name) => TypeModel::Other(name@),
        }
    }
}

/// A tensor as it is stored.
#[derive(Debug)]
pub struct StoredTensor {
    pub kind: TensorType,
    pub shape: Vec<usize>,
    pub data: Vec<u8>,
}

/// What a `StoredTensor` holds.
pub struct TensorModel {
    pub kind: TypeModel,
    pub shape: Seq<usize>,
    pub data: Seq<u8>,
}

impl View for StoredTensor {
    type V = TensorModel;

    open spec fn view(&self) -> TensorModel {
        TensorModel { kind: self.kind@, shape: self.shape@, data: self.data@ }
    }
}

/// A read file of the `safetensors` crate.
#[verifier::external_type_specification]
#[verifier::external_body]
pub struct ExSafeTensors<'data>(safetensors::SafeTensors<'data>);

/// The tensors of a read file, by their names.
pub uninterp spec fn tensors_of(file: safetensors::SafeTensors) -> Map<Seq<char>, TensorModel>;

/// The tensors of a file, by their names; nothing where the file cannot be read.
pub uninterp spec fn file_tensors(file: Seq<u8>) -> Option<Map<Seq<char>, TensorModel>>;

/// Where the tensors of a header claim to end, counted from the end of the header;
/// nothing where the header is none.
pub uninterp spec fn claimed_ends(header: Seq<char>) -> Option<Set<usize>>;

/// Whether each claimed end fits in a `usize` together with what stands in front.
pub open spec fn ends_fit(ends: Set<usize>, front: nat) -> bool {
    forall|e: usize| #[trigger] ends.contains(e) ==> e + front <= usize::MAX
}

/// Whether the claims of a file's header can be held against the length of the file:
/// each claimed end, the header and the eight bytes of its length fit in a `usize`
/// together.
pub open spec fn claims_fit(file: Seq<u8>) -> bool {
    let n = number_of(file.take(8));
    let header = file.subrange(8, (8 + n) as int);
    file.len() >= 8 && 8 + n <= file.len() && valid_utf8(header) ==> match claimed_ends(
        decode_utf8(header),
    ) {
        Some(ends) => ends_fit(ends, 8 + n),
        None => true,
    }
}

/// Calls `serde_json::from_str` for the `Metadata` of the `safetensors` crate, and copies
/// out the ends of the tensors that it holds. They come in no particular order. What a
/// header says is not stated here.
#[verifier::external_body]
fn ends_in(header: &str) -> (r: Option<Vec<usize>>)
    ensures
        match r {
            None => claimed_ends(header@) is None,
            Some(ends) => claimed_ends(header@) == Some(ends@.to_set()),
        },
{
    let metadata = serde_json::from_str::<safetensors::tensor::Metadata>(header).ok()?;
    Some(metadata.tensors().values().map(|t| t.data_offsets.1).collect())
}

/// Calls `safetensors::SafeTensors::deserialize`, which reads the header and looks at
/// nothing but the bytes of the file. It adds up each claimed end, the header's length
/// and eight, and does so without regard to overflow: hence the condition. What a header
/// says is not stated here.
#[verifier::external_body]
fn read_file<'a>(file: &'a Vec<u8>) -> (r: Option<safetensors::SafeTensors<'a>>)
    requires
        claims_fit(file@),
    ensures
        match r {
            None => file_tensors(file@) is None,
            Some(t) => file_tensors(file@) == Some(tensors_of(t)),
        },
{
    safetensors::SafeTensors::deserialize(file).ok()
}

/// Calls `SafeTensors::tensor`: the tensor of this name, where the file has one. Its
/// type, shape and bytes are copied out.
#[verifier::external_body]
fn tensor_in(file: &safetensors::SafeTensors, name: &str) -> (r: Option<StoredTensor>)
    ensures
        opt_view(r) == named_tensor(tensors_of(*file), name@),
{
    let found = file.tensor(name).ok()?;
    let kind = match found.dtype() {
        safetensors::tensor::Dtype::F32 => TensorType::F32,
        safetensors::tensor::Dtype::F16 => TensorType::F16,
        safetensors::tensor::Dtype::I8 => TensorType::I8,
        safetensors::tensor::Dtype::I32 => TensorType::I32,
        safetensors::tensor::Dtype::I64 => TensorType::I64,
        other => TensorType::Other(format!("{:?}", other)),
    };
    Some(StoredTensor { kind, shape: found.shape().to_vec(), data: found.data().to_vec() })
}

/// The tensor of this name, where there is one.
pub open spec fn named_tensor(
    tensors: Map<Seq<char>, TensorModel>,
    name: Seq<char>,
) -> Option<TensorModel> {
    if tensors.contains_key(name) {
        Some(tensors[name])
    } else {
        None
    }
}

// ---------------------------------------------------------------------------
// Numbers in bytes
// ---------------------------------------------------------------------------

/// The number that bytes stand for, the lowest first.
pub open spec fn number_of(bytes: Seq<u8>) -> nat
    decreases bytes.len(),
{
    if bytes.len() == 0 {
        0
    } else {
        bytes[0] as nat + 256 * number_of(bytes.skip(1))
    }
}

/// The numbers in bytes, `width` bytes for each; what is left over is dropped.
pub open spec fn numbers_in(data: Seq<u8>, width: nat) -> Seq<nat> {
    Seq::new(
        data.len() / width,
        |i: int| number_of(data.subrange(i * width, i * width + width)),
    )
}

/// The numbers of a vector as natural numbers.
pub open spec fn as_nats(s: Seq<u64>) -> Seq<nat> {
    Seq::new(s.len(), |i: int| s[i] as nat)
}

/// Two hundred and fifty-six to a power.
pub open spec fn bytes_range(n: nat) -> nat
    decreases n,
{
    if n == 0 {
        1
    } else {
        256 * bytes_range((n - 1) as nat)
    }
}

proof fn lemma_number_bound(bytes: Seq<u8>)
    ensures
        number_of(bytes) < bytes_range(bytes.len()),
    decreases bytes.len(),
{
    if bytes.len() > 0 {
        lemma_number_bound(bytes.skip(1));
    }
}

proof fn lemma_eight_bytes()
    ensures
        bytes_range(8) == 0x1_0000_0000_0000_0000,
        bytes_range(4) == 0x1_0000_0000,
        bytes_range(2) == 0x1_0000,
        bytes_range(1) == 0x100,
{
    reveal_with_fuel(bytes_range, 9);
}

proof fn lemma_range_rises(a: nat, b: nat)
    requires
        a <= b,
    ensures
        bytes_range(a) <= bytes_range(b),
        bytes_range(a) >= 1,
    decreases b,
{
    if a < b {
        lemma_range_rises(a, (b - 1) as nat);
    } else if a > 0 {
        lemma_range_rises((a - 1) as nat, (a - 1) as nat);
    }
}

/// Reads the number in `width` bytes from a place on.
fn read_number(data: &Vec<u8>, at: usize, width: usize) -> (r: u64)
    requires
        width <= 8,
        at + width <= data@.len(),
    ensures
        r == number_of(data@.subrange(at as int, at + width)),
    decreases width,
{
    let ghost all = data@.subrange(at as int, at + width);
    let len: usize = data.len();
    if width == 0 {
        return 0;
    }
    let rest: u64 = read_number(data, at + 1, width - 1);
    proof {
        assert(all.skip(1) =~= data@.subrange(at + 1, at + width));
        lemma_number_bound(all);
        lemma_eight_bytes();
        lemma_range_rises(all.len(), 8);
    }
    (data[at] as u64) + 256 * rest
}

/// Reads all numbers of `width` bytes.
pub fn read_numbers(data: &Vec<u8>, width: usize) -> (r: Vec<u64>)
    requires
        1 <= width <= 8,
    ensures
        as_nats(r@) == numbers_in(data@, width as nat),
        forall|i: int| 0 <= i < r@.len() ==> (#[trigger] r@[i]) < bytes_range(width as nat),
{
    let len: usize = data.len();
    let n: usize = len / width;
    let ghost want = numbers_in(data@, width as nat);
    let mut r: Vec<u64> = Vec::new();
    let mut i: usize = 0;
    while i < n
        invariant
            1 <= width <= 8,
            len == data@.len(),
            n == data@.len() / width as nat,
            i <= n,
            want == numbers_in(data@, width as nat),
            as_nats(r@) == want.take(i as int),
            r@.len() == i,
            forall|j: int| 0 <= j < i ==> (#[trigger] r@[j]) < bytes_range(width as nat),
        decreases n - i,
    {
        proof {
            let l = data@.len() as int;
            let w = width as int;
            let k = i as int;
            assert(k * w + w <= l) by (nonlinear_arith)
                requires
                    k < l / w,
                    w >= 1,
                    k >= 0,
            ;
            assert(k * w >= 0) by (nonlinear_arith)
                requires
                    w >= 1,
                    k >= 0,
            ;
            lemma_number_bound(data@.subrange(k * w, k * w + w));
        }
        let x: u64 = read_number(data, i * width, width);
        r.push(x);
        i += 1;
        assert(as_nats(r@) =~= want.take(i as int));
    }
    assert(want.take(i as int) =~= want);
    r
}

/// Tests the claims of a file's header.
fn claims_can_be_checked(file: &Vec<u8>) -> (r: bool)
    ensures
        r == claims_fit(file@),
{
    let len: usize = file.len();
    if len < 8 {
        return true;
    }
    let n: u64 = read_number(file, 0, 8);
    assert(file@.subrange(0, 8) =~= file@.take(8));
    if n > (len - 8) as u64 {
        return true;
    }
    let stop: usize = 8 + n as usize;
    let mut header: Vec<u8> = Vec::new();
    let mut i: usize = 8;
    while i < stop
        invariant
            8 <= i <= stop <= file@.len(),
            header@ == file@.subrange(8, i as int),
        decreases stop - i,
    {
        header.push(file[i]);
        i += 1;
        assert(header@ =~= file@.subrange(8, i as int));
    }
    let text = match utf8_text(header) {
        Some(text) => text,
        None => return true,
    };
    let ends = match ends_in(text.as_str()) {
        Some(ends) => ends,
        None => return true,
    };
    ends_within(&ends, stop)
}

/// Tests whether each claimed end fits in a `usize` together with what stands in front.
pub fn ends_within(ends: &Vec<usize>, front: usize) -> (r: bool)
    ensures
        r == ends_fit(ends@.to_set(), front as nat),
{
    let limit: usize = usize::MAX - front;
    let mut k: usize = 0;
    while k < ends.len()
        invariant
            k <= ends@.len(),
            limit == usize::MAX - front,
            forall|j: int| 0 <= j < k ==> #[trigger] ends@[j] <= limit,
        decreases ends@.len() - k,
    {
        if ends[k] > limit {
            assert(ends@.to_set().contains(ends@[k as int]));
            return false;
        }
        k += 1;
    }
    true
}

// ---------------------------------------------------------------------------
// The tables
// ---------------------------------------------------------------------------

/// Why a model cannot be used.
#[derive(Debug)]
pub enum EmbedderError {
    UncheckedTokenizer,
    UnreadableTokenizer,
    Unreadable,
    NoEmbeddings,
    NotTwoDimensional(Vec<usize>),
    UnsupportedType(TensorType),
    WrongLength(usize, usize, usize),
    UnsupportedWeights,
    UnsupportedMapping,
}

/// What an `EmbedderError` says.
pub enum ErrorModel {
    UncheckedTokenizer,
    UnreadableTokenizer,
    Unreadable,
    NoEmbeddings,
    NotTwoDimensional(Seq<usize>),
    UnsupportedType(TypeModel),
    WrongLength(nat, nat, nat),
    UnsupportedWeights,
    UnsupportedMapping,
}

impl View for EmbedderError {
    type V = ErrorModel;

    open spec fn view(&self) -> ErrorModel {
        match self {
            EmbedderError::UncheckedTokenizer => ErrorModel::UncheckedTokenizer,
            EmbedderError::UnreadableTokenizer => ErrorModel::UnreadableTokenizer,
            EmbedderError::Unreadable => ErrorModel::Unreadable,
            EmbedderError::NoEmbeddings => ErrorModel::NoEmbeddings,
            EmbedderError::NotTwoDimensional(s) => ErrorModel::NotTwoDimensional(s@),
            EmbedderError::UnsupportedType(t) => ErrorModel::UnsupportedType(t@),
            EmbedderError::WrongLength(a, b, c) => ErrorModel::WrongLength(
                *a as nat,
                *b as nat,
                *c as nat,
            ),
            EmbedderError::UnsupportedWeights => ErrorModel::UnsupportedWeights,
            EmbedderError::UnsupportedMapping => ErrorModel::UnsupportedMapping,
        }
    }
}

/// The numbers of a list, parted by commas.
pub open spec fn listed(s: Seq<usize>) -> Seq<char>
    decreases s.len(),
{
    if s.len() == 0 {
        Seq::empty()
    } else if s.len() == 1 {
        decimal(s[0] as nat)
    } else {
        listed(s.drop_last()) + ", "@ + decimal(s.last() as nat)
    }
}

impl TypeModel {
    /// The name of the type.
    pub open spec fn name(self) -> Seq<char> {
        match self {
            TypeModel::F32 => "F32"@,
            TypeModel::F16 => "F16"@,
            TypeModel::I8 => "I8"@,
            TypeModel::I32 => "I32"@,
            TypeModel::I64 => "I64"@,
            TypeModel::Other(name) => name,
        }
    }
}

impl ErrorModel {
    /// The error in words.
    pub open spec fn message(self) -> Seq<char> {
        match self {
            ErrorModel::UncheckedTokenizer => "Tokenizer is not of the plain kind"@,
            ErrorModel::UnreadableTokenizer => "Failed to deserialize tokenizer"@,
            ErrorModel::Unreadable => "Failed to deserialize model.safetensors"@,
            ErrorModel::NoEmbeddings => "Embedding tensor not found in safetensors"@,
            ErrorModel::NotTwoDimensional(shape) => "Embedding tensor must be 2D, got shape: ["@
                + listed(shape) + "]"@,
            ErrorModel::UnsupportedType(t) => "Unsupported tensor dtype: "@ + t.name(),
            ErrorModel::WrongLength(got, rows, dim) => "Decoded embeddings length "@ + decimal(got)
                + " != vocab_size "@ + decimal(rows) + " * dim "@ + decimal(dim),
            ErrorModel::UnsupportedWeights => "Unsupported weights dtype"@,
            ErrorModel::UnsupportedMapping => "Unsupported mapping dtype"@,
        }
    }
}

fn push_list(out: &mut String, s: &Vec<usize>)
    ensures
        final(out)@ == old(out)@ + listed(s@),
{
    let ghost before = out@;
    let mut i: usize = 0;
    assert(before + listed(s@.take(0)) =~= before);
    while i < s.len()
        invariant
            i <= s@.len(),
            out@ == before + listed(s@.take(i as int)),
        decreases s@.len() - i,
    {
        let ghost more = s@.take(i + 1);
        assert(more.drop_last() =~= s@.take(i as int));
        assert(more.last() == s@[i as int]);
        if i > 0 {
            out.append(", ");
        } else {
            assert(more[0] == s@[0]);
        }
        push_decimal(out, s[i]);
        i += 1;
        assert(out@ =~= before + listed(more));
    }
    assert(s@.take(i as int) =~= s@);
}

impl EmbedderError {
    /// The error in words.
    pub fn message(&self) -> (r: String)
        ensures
            r@ == self@.message(),
    {
        match self {
            EmbedderError::UncheckedTokenizer => "Tokenizer is not of the plain kind".to_owned(),
            EmbedderError::UnreadableTokenizer => "Failed to deserialize tokenizer".to_owned(),
            EmbedderError::Unreadable => "Failed to deserialize model.safetensors".to_owned(),
            EmbedderError::NoEmbeddings => "Embedding tensor not found in safetensors".to_owned(),
            EmbedderError::NotTwoDimensional(shape) => {
                let mut out = "Embedding tensor must be 2D, got shape: [".to_owned();
                push_list(&mut out, shape);
                out.append("]");
                out
            },
            EmbedderError::UnsupportedType(t) => {
                let mut out = "Unsupported tensor dtype: ".to_owned();
                match t {
                    TensorType::F32 => out.append("F32"),
                    TensorType::F16 => out.append("F16"),
                    TensorType::I8 => out.append("I8"),
                    TensorType::I32 => out.append("I32"),
                    TensorType::I64 => out.append("I64"),
                    TensorType::Other(name) => out.append(name.as_str()),
                }
                out
            },
            EmbedderError::WrongLength(got, rows, dim) => {
                let mut out = "Decoded embeddings length ".to_owned();
                push_decimal(&mut out, *got);
                out.append(" != vocab_size ");
                push_decimal(&mut out, *rows);
                out.append(" * dim ");
                push_decimal(&mut out, *dim);
                out
            },
            EmbedderError::UnsupportedWeights => "Unsupported weights dtype".to_owned(),
            EmbedderError::UnsupportedMapping => "Unsupported mapping dtype".to_owned(),
        }
    }
}

/// How a number with a fraction is stored.
#[derive(Debug, Clone, Copy, PartialEq, Eq, Structural)]
pub enum Precision {
    Single,
    Half,
    Byte,
}

/// Numbers with a fraction, as the bits they are stored in.
#[derive(Debug)]
pub struct RawNumbers {
    pub precision: Precision,
    pub bits: Vec<u64>,
}

/// What `RawNumbers` hold.
pub struct RawModel {
    pub precision: Precision,
    pub bits: Seq<nat>,
}

impl View for RawNumbers {
    type V = RawModel;

    open spec fn view(&self) -> RawModel {
        RawModel { precision: self.precision, bits: as_nats(self.bits@) }
    }
}

/// The numbers of the table of embeddings, if its type is known.
pub open spec fn table_numbers(t: TensorModel) -> Option<RawModel> {
    match t.kind {
        TypeModel::F32 => Some(
            RawModel { precision: Precision::Single, bits: numbers_in(t.data, 4) },
        ),
        TypeModel::F16 => Some(RawModel { precision: Precision::Half, bits: numbers_in(t.data, 2) }),
        TypeModel::I8 => Some(RawModel { precision: Precision::Byte, bits: numbers_in(t.data, 1) }),
        _ => None,
    }
}

/// The numbers of the weights, if their type is known.
pub open spec fn weight_numbers(t: TensorModel) -> Option<RawModel> {
    match t.kind {
        TypeModel::F32 => Some(
            RawModel { precision: Precision::Single, bits: numbers_in(t.data, 4) },
        ),
        TypeModel::F16 => Some(RawModel { precision: Precision::Half, bits: numbers_in(t.data, 2) }),
        _ => None,
    }
}

/// A signed number of 32 bits as an index: a negative one is beyond every table.
pub open spec fn index_of_32(x: nat) -> int {
    if x < 0x8000_0000 {
        x as int
    } else {
        usize::MAX - (0xffff_ffff - x)
    }
}

/// A signed number of 64 bits as an index.
pub open spec fn index_of_64(x: nat) -> int {
    (x as u64 as usize) as int
}

/// The rows that tokens are mapped to, if the type of the mapping is known.
pub open spec fn mapping_rows(t: TensorModel) -> Option<Seq<int>> {
    match t.kind {
        TypeModel::I64 => Some(numbers_in(t.data, 8).map_values(|x: nat| index_of_64(x))),
        TypeModel::I32 => Some(numbers_in(t.data, 4).map_values(|x: nat| index_of_32(x))),
        _ => None,
    }
}

fn read_table(t: &StoredTensor) -> (r: Option<RawNumbers>)
    ensures
        opt_view(r) == table_numbers(t@),
{
    match &t.kind {
        TensorType::F32 => Some(
            RawNumbers { precision: Precision::Single, bits: read_numbers(&t.data, 4) },
        ),
        TensorType::F16 => Some(
            RawNumbers { precision: Precision::Half, bits: read_numbers(&t.data, 2) },
        ),
        TensorType::I8 => Some(
            RawNumbers { precision: Precision::Byte, bits: read_numbers(&t.data, 1) },
        ),
        _ => None,
    }
}

fn read_weights(t: &StoredTensor) -> (r: Option<RawNumbers>)
    ensures
        opt_view(r) == weight_numbers(t@),
{
    match &t.kind {
        TensorType::F32 => Some(
            RawNumbers { precision: Precision::Single, bits: read_numbers(&t.data, 4) },
        ),
        TensorType::F16 => Some(
            RawNumbers { precision: Precision::Half, bits: read_numbers(&t.data, 2) },
        ),
        _ => None,
    }
}

/// Indices as integers.
pub open spec fn as_ints(s: Seq<usize>) -> Seq<int> {
    Seq::new(s.len(), |i: int| s[i] as int)
}

fn read_mapping(t: &StoredTensor) -> (r: Option<Vec<usize>>)
    ensures
        match r {
            Some(v) => mapping_rows(t@) == Some(as_ints(v@)),
            None => mapping_rows(t@) is None,
        },
{
    let (width, long): (usize, bool) = match &t.kind {
        TensorType::I64 => (8, true),
        TensorType::I32 => (4, false),
        _ => return None,
    };
    let numbers = read_numbers(&t.data, width);
    let ghost want = mapping_rows(t@)->0;
    proof {
        lemma_eight_bytes();
    }
    let mut r: Vec<usize> = Vec::new();
    let mut i: usize = 0;
    while i < numbers.len()
        invariant
            i <= numbers@.len(),
            as_nats(numbers@) == numbers_in(t.data@, width as nat),
            forall|i: int|
                0 <= i < numbers@.len() ==> (#[trigger] numbers@[i]) < bytes_range(width as nat),
            bytes_range(4) == 0x1_0000_0000,
            (t@.kind is I64 && width == 8 && long) || (t@.kind is I32 && width == 4 && !long),
            mapping_rows(t@) == Some(want),
            want.len() == numbers@.len(),
            as_ints(r@) == want.take(i as int),
        decreases numbers@.len() - i,
    {
        let x: u64 = numbers[i];
        assert(as_nats(numbers@)[i as int] == x);
        let row: usize = if long {
            #[verifier::truncate]
            (x as usize)
        } else if x < 0x8000_0000 {
            x as usize
        } else {
            usize::MAX - (0xffff_ffff - x) as usize
        };
        assert(numbers_in(t.data@, width as nat)[i as int] == x);
        assert(row == want[i as int]);
        let ghost before = r@;
        r.push(row);
        i += 1;
        proof {
            assert(as_ints(r@) =~= as_ints(before).push(row as int));
            assert(want.take(i as int) =~= want.take(i - 1).push(want[i - 1]));
        }
    }
    assert(want.take(i as int) =~= want);
    Some(r)
}

// ---------------------------------------------------------------------------
// The model
// ---------------------------------------------------------------------------

/// The tables of a model of static embeddings.
#[derive(Debug)]
pub struct EmbeddingTables {
    pub embeddings: RawNumbers,
    pub weights: Option<RawNumbers>,
    pub token_mapping: Option<Vec<usize>>,
    pub vocab_size: usize,
    pub dim: usize,
}

/// What `EmbeddingTables` hold.
pub struct TablesModel {
    pub embeddings: RawModel,
    pub weights: Option<RawModel>,
    pub mapping: Option<Seq<int>>,
    pub rows: nat,
    pub dim: nat,
}

impl View for EmbeddingTables {
    type V = TablesModel;

    open spec fn view(&self) -> TablesModel {
        TablesModel {
            embeddings: self.embeddings@,
            weights: opt_view(self.weights),
            mapping: match self.token_mapping {
                Some(v) => Some(as_ints(v@)),
                None => None,
            },
            rows: self.vocab_size as nat,
            dim: self.dim as nat,
        }
    }
}

/// The table of embeddings: it is looked for under three names, in this order.
pub open spec fn embeddings_tensor(tensors: Map<Seq<char>, TensorModel>) -> Option<TensorModel> {
    match named_tensor(tensors, "embeddings"@) {
        Some(t) => Some(t),
        None => match named_tensor(tensors, "embeddings.weight"@) {
            Some(t) => Some(t),
            None => named_tensor(tensors, "0"@),
        },
    }
}

/// What the tables of a model file are.
pub open spec fn tables_in(file: Seq<u8>) -> Result<TablesModel, ErrorModel> {
    match file_tensors(file) {
        Some(tensors) if claims_fit(file) => tables_from(
            embeddings_tensor(tensors),
            named_tensor(tensors, "weights"@),
            named_tensor(tensors, "mapping"@),
        ),
        _ => Err(ErrorModel::Unreadable),
    }
}

/// What the tables are, given the tensors found under the names that matter.
pub open spec fn tables_from(
    table: Option<TensorModel>,
    weights: Option<TensorModel>,
    mapping: Option<TensorModel>,
) -> Result<TablesModel, ErrorModel> {
    match table {
        None => Err(ErrorModel::NoEmbeddings),
        Some(t) => if t.shape.len() != 2 {
            Err(ErrorModel::NotTwoDimensional(t.shape))
        } else {
            match table_numbers(t) {
                None => Err(ErrorModel::UnsupportedType(t.kind)),
                Some(numbers) => if numbers.bits.len() != t.shape[0] * t.shape[1] {
                    Err(
                        ErrorModel::WrongLength(
                            numbers.bits.len(),
                            t.shape[0] as nat,
                            t.shape[1] as nat,
                        ),
                    )
                } else if weights is Some && weight_numbers(weights->0) is None {
                    Err(ErrorModel::UnsupportedWeights)
                } else if mapping is Some && mapping_rows(mapping->0) is None {
                    Err(ErrorModel::UnsupportedMapping)
                } else {
                    Ok(
                        TablesModel {
                            embeddings: numbers,
                            weights: match weights {
                                Some(w) => weight_numbers(w),
                                None => None,
                            },
                            mapping: match mapping {
                                Some(m) => mapping_rows(m),
                                None => None,
                            },
                            rows: t.shape[0] as nat,
                            dim: t.shape[1] as nat,
                        },
                    )
                },
            }
        },
    }
}

/// The outcome as a model.
pub open spec fn outcome(r: Result<EmbeddingTables, EmbedderError>) -> Result<
    TablesModel,
    ErrorModel,
> {
    match r {
        Ok(t) => Ok(t@),
        Err(e) => Err(e@),
    }
}

/// A row of the table that a token adds, with the bits of its weight; a token
/// without a weight counts once.
#[derive(Debug, Clone, Copy)]
pub struct TokenRow {
    pub row: usize,
    pub weight: Option<u64>,
}

/// The row of a token: as mapped, else by its own number.
pub open spec fn row_of(m: TablesModel, id: u32) -> int {
    if m.mapping is Some && id < m.mapping->0.len() {
        m.mapping->0[id as int]
    } else {
        id as int
    }
}

/// The weight of a token.
pub open spec fn weight_of(m: TablesModel, id: u32) -> Option<nat> {
    if m.weights is Some && id < m.weights->0.bits.len() {
        Some(m.weights->0.bits[id as int])
    } else {
        None
    }
}

/// A token row as integers.
pub open spec fn plain_row(r: TokenRow) -> (int, Option<nat>) {
    (
        r.row as int,
        match r.weight {
            Some(w) => Some(w as nat),
            None => None,
        },
    )
}

/// The rows that tokens add, in order; a token whose row is beyond the table adds
/// none.
pub open spec fn rows_for(m: TablesModel, ids: Seq<u32>) -> Seq<(int, Option<nat>)>
    decreases ids.len(),
{
    if ids.len() == 0 {
        Seq::empty()
    } else {
        let some = rows_for(m, ids.drop_last());
        if row_of(m, ids.last()) < m.rows {
            some.push((row_of(m, ids.last()), weight_of(m, ids.last())))
        } else {
            some
        }
    }
}

/// The first tokens, `n` at most.
pub open spec fn first_tokens(ids: Seq<u32>, n: int) -> Seq<u32> {
    if ids.len() < n {
        ids
    } else {
        ids.take(n)
    }
}

/// Token rows as integers.
pub open spec fn plain_rows(s: Seq<TokenRow>) -> Seq<(int, Option<nat>)> {
    Seq::new(s.len(), |i: int| plain_row(s[i]))
}

impl EmbeddingTables {
    /// The table has its rows.
    pub open spec fn wf(&self) -> bool {
        self.embeddings.bits@.len() == self.vocab_size * self.dim
    }

    /// The tables from the tensors found under the names that matter.
    pub fn from_tensors(
        table: Option<StoredTensor>,
        weights: Option<StoredTensor>,
        mapping: Option<StoredTensor>,
    ) -> (r: Result<EmbeddingTables, EmbedderError>)
        ensures
            outcome(r) == tables_from(opt_view(table), opt_view(weights), opt_view(mapping)),
            r is Ok ==> r->Ok_0.wf(),
    {
        let table = match table {
            Some(t) => t,
            None => return Err(EmbedderError::NoEmbeddings),
        };
        if table.shape.len() != 2 {
            return Err(EmbedderError::NotTwoDimensional(table.shape));
        }
        let vocab_size: usize = table.shape[0];
        let dim: usize = table.shape[1];
        let numbers = match read_table(&table) {
            Some(n) => n,
            None => return Err(EmbedderError::UnsupportedType(table.kind)),
        };
        assert(numbers@.bits.len() == numbers.bits@.len());
        proof {
            let a = vocab_size as int;
            let b = dim as int;
            assert(a * b < 0x1_0000_0000_0000_0000_0000_0000_0000_0000int) by (nonlinear_arith)
                requires
                    0 <= a < 0x1_0000_0000_0000_0000int,
                    0 <= b < 0x1_0000_0000_0000_0000int,
            ;
        }
        if numbers.bits.len() as u128 != (vocab_size as u128) * (dim as u128) {
            return Err(EmbedderError::WrongLength(numbers.bits.len(), vocab_size, dim));
        }
        let weights = match weights {
            Some(w) => match read_weights(&w) {
                Some(n) => Some(n),
                None => return Err(EmbedderError::UnsupportedWeights),
            },
            None => None,
        };
        let token_mapping = match mapping {
            Some(m) => match read_mapping(&m) {
                Some(v) => Some(v),
                None => return Err(EmbedderError::UnsupportedMapping),
            },
            None => None,
        };
        Ok(EmbeddingTables { embeddings: numbers, weights, token_mapping, vocab_size, dim })
    }

    /// Reads the tables of a model file.
    pub fn from_bytes(model_bytes: &Vec<u8>) -> (r: Result<EmbeddingTables, EmbedderError>)
        ensures
            outcome(r) == tables_in(model_bytes@),
            r is Ok ==> r->Ok_0.wf(),
    {
        if !claims_can_be_checked(model_bytes) {
            return Err(EmbedderError::Unreadable);
        }
        let file = match read_file(model_bytes) {
            Some(file) => file,
            None => return Err(EmbedderError::Unreadable),
        };
        let table = match tensor_in(&file, "embeddings") {
            Some(t) => Some(t),
            None => match tensor_in(&file, "embeddings.weight") {
                Some(t) => Some(t),
                None => tensor_in(&file, "0"),
            },
        };
        let weights = tensor_in(&file, "weights");
        let mapping = tensor_in(&file, "mapping");
        EmbeddingTables::from_tensors(table, weights, mapping)
    }

    /// The rows that the tokens of a text add, of the first `max_seq_length` tokens;
    /// nothing at all for a text without tokens.
    pub fn rows_of_text(&self, ids: &Vec<u32>, max_seq_length: usize) -> (r: Option<Vec<TokenRow>>)
        requires
            self.wf(),
        ensures
            match r {
                None => ids@.len() == 0,
                Some(v) => ids@.len() > 0 && plain_rows(v@) == rows_for(
                    self@,
                    first_tokens(ids@, max_seq_length as int),
                ) && forall|i: int| 0 <= i < v@.len() ==> (#[trigger] v@[i]).row < self.vocab_size,
            },
    {
        if ids.len() == 0 {
            return None;
        }
        let mut r: Vec<TokenRow> = Vec::new();
        let mut i: usize = 0;
        assert(ids@.take(0) =~= Seq::empty());
        assert(plain_rows(r@) =~= Seq::empty());
        while i < ids.len() && i < max_seq_length
            invariant
                i <= ids@.len(),
                i <= max_seq_length,
                plain_rows(r@) == rows_for(self@, ids@.take(i as int)),
                forall|j: int| 0 <= j < r@.len() ==> (#[trigger] r@[j]).row < self.vocab_size,
            decreases ids@.len() - i,
        {
            let ghost part = ids@.take(i + 1);
            assert(part.drop_last() =~= ids@.take(i as int));
            let id: u32 = ids[i];
            let tok: usize = id as usize;
            let row: usize = match &self.token_mapping {
                Some(m) => if tok < m.len() {
                    assert(as_ints(m@)[tok as int] == m@[tok as int]);
                    m[tok]
                } else {
                    tok
                },
                None => tok,
            };
            assert(row == row_of(self@, id));
            if row < self.vocab_size {
                let weight: Option<u64> = match &self.weights {
                    Some(w) => if tok < w.bits.len() {
                        assert(as_nats(w.bits@)[tok as int] == w.bits@[tok as int]);
                        Some(w.bits[tok])
                    } else {
                        None
                    },
                    None => None,
                };
                let ghost before = r@;
                r.push(TokenRow { row, weight });
                assert(plain_rows(r@) =~= plain_rows(before).push(plain_row(r@.last())));
            }
            i += 1;
        }
        proof {
            if ids@.len() < max_seq_length {
                assert(ids@.take(i as int) =~= ids@);
            }
        }
        Some(r)
    }

    /// The bits of a row of the table.
    pub fn row_bits(&self, row: usize) -> (r: Vec<u64>)
        requires
            self.wf(),
            row < self.vocab_size,
        ensures
            r@ == self.embeddings.bits@.subrange(row * self.dim, row * self.dim + self.dim),
    {
        let len: usize = self.embeddings.bits.len();
        proof {
            let a = row as int;
            let b = self.dim as int;
            let n = self.vocab_size as int;
            assert(a * b + b <= n * b) by (nonlinear_arith)
                requires
                    0 <= a < n,
                    b >= 0,
            ;
            assert(a * b >= 0) by (nonlinear_arith)
                requires
                    a >= 0,
                    b >= 0,
            ;
            assert(n * b == len);
        }
        let start: usize = row * self.dim;
        let ghost want = self.embeddings.bits@.subrange(start as int, start + self.dim);
        let mut r: Vec<u64> = Vec::new();
        let mut k: usize = 0;
        while k < self.dim
            invariant
                k <= self.dim,
                start + self.dim <= len,
                len == self.embeddings.bits@.len(),
                want == self.embeddings.bits@.subrange(start as int, start + self.dim),
                r@ == want.take(k as int),
            decreases self.dim - k,
        {
            r.push(self.embeddings.bits[start + k]);
            k += 1;
            assert(r@ =~= want.take(k as int));
        }
        assert(want.take(k as int) =~= want);
        r
    }
}

/// The name of the directory that a model is kept in.
pub fn model_dir_name(model_id: &str) -> (r: String)
    ensures
        r@ == dir_name(model_id@),
{
    let v = chars_of(model_id);
    let mut r = String::new();
    let mut i: usize = 0;
    assert(v@.take(0) =~= Seq::empty());
    while i < v.len()
        invariant
            i <= v@.len(),
            r@ == dir_name(v@.take(i as int)),
        decreases v@.len() - i,
    {
        assert(v@.take(i + 1).drop_last() =~= v@.take(i as int));
        if v[i] == '/' {
            r.append("--");
        } else {
            r.push(v[i]);
        }
        i += 1;
    }
    assert(v@.take(i as int) =~= v@);
    r
}

/// The name with two hyphens for each slash.
pub open spec fn dir_name(s: Seq<char>) -> Seq<char>
    decreases s.len(),
{
    if s.len() == 0 {
        Seq::empty()
    } else if s.last() == '/' {
        dir_name(s.drop_last()) + "--"@
    } else {
        dir_name(s.drop_last()).push(s.last())
    }
}

// ---------------------------------------------------------------------------
// From texts to rows
// ---------------------------------------------------------------------------

/// A model of static embeddings: a plain tokenizer and the tables that its tokens point
/// into.
#[derive(Debug)]
pub struct TextRows {
    tokenizer: tokenizers::Tokenizer,
    tables: EmbeddingTables,
}

/// What loading a model from its two files gives: the tables, or why there are none.
pub open spec fn model_in(tokenizer: Seq<u8>, model: Seq<u8>) -> Result<TablesModel, ErrorModel> {
    if !is_plain_file(tokenizer) {
        Err(ErrorModel::UncheckedTokenizer)
    } else if !is_tokenizer(tokenizer) {
        Err(ErrorModel::UnreadableTokenizer)
    } else {
        tables_in(model)
    }
}

impl TextRows {
    /// The file of the tokenizer.
    pub closed spec fn file(&self) -> Seq<u8> {
        file_of(self.tokenizer)
    }

    /// The tables.
    pub closed spec fn held(&self) -> EmbeddingTables {
        self.tables
    }

    /// The tokenizer is plain, and the table has its rows.
    #[verifier::type_invariant]
    closed spec fn inv(&self) -> bool {
        is_plain_file(file_of(self.tokenizer)) && self.tables.wf()
    }

    /// Loads a model from the contents of its files.
    pub fn from_bytes(tokenizer_bytes: &Vec<u8>, model_bytes: &Vec<u8>) -> (r: Result<
        TextRows,
        EmbedderError,
    >)
        ensures
            match r {
                Ok(m) => model_in(tokenizer_bytes@, model_bytes@) == Ok::<_, ErrorModel>(m.held()@)
                    && m.file() == tokenizer_bytes@,
                Err(e) => model_in(tokenizer_bytes@, model_bytes@) == Err::<TablesModel, _>(e@),
            },
    {
        if !file_is_plain(tokenizer_bytes) {
            return Err(EmbedderError::UncheckedTokenizer);
        }
        let tokenizer = match load(tokenizer_bytes) {
            Some(t) => t,
            None => return Err(EmbedderError::UnreadableTokenizer),
        };
        match EmbeddingTables::from_bytes(model_bytes) {
            Ok(tables) => Ok(TextRows { tokenizer, tables }),
            Err(e) => Err(e),
        }
    }

    /// The tables.
    pub fn tables(&self) -> (r: &EmbeddingTables)
        ensures
            *r == self.held(),
            r.wf(),
    {
        proof {
            use_type_invariant(self);
        }
        &self.tables
    }

    /// The rows that the tokens of a text add, of the first `max_seq_length` tokens;
    /// nothing inside for a text without tokens, nothing at all for one that cannot be
    /// taken apart.
    pub fn rows_of(&self, text: &str, max_seq_length: usize) -> (r: Option<Option<Vec<TokenRow>>>)
        ensures
            match token_ids(self.file(), text@) {
                None => r is None,
                Some(ids) => match r {
                    None => false,
                    Some(None) => ids.len() == 0,
                    Some(Some(v)) => ids.len() > 0 && plain_rows(v@) == rows_for(
                        self.held()@,
                        first_tokens(ids, max_seq_length as int),
                    ) && forall|i: int|
                        0 <= i < v@.len() ==> (#[trigger] v@[i]).row < self.held().vocab_size,
                },
            },
    {
        proof {
            use_type_invariant(self);
        }
        match encode(&self.tokenizer, text) {
            Some(ids) => Some(self.tables.rows_of_text(&ids, max_seq_length)),
            None => None,
        }
    }
}

// ---------------------------------------------------------------------------
// What holds of tables
// ---------------------------------------------------------------------------

/// Bytes count with the lowest first, and so many of them make one number.
pub proof fn bytes_count_lowest_first(b: u8, rest: Seq<u8>, data: Seq<u8>, width: nat, i: int)
    requires
        width > 0,
        0 <= i < data.len() / width,
    ensures
        number_of(seq![b] + rest) == b + 256 * number_of(rest),
        number_of(Seq::<u8>::empty()) == 0,
        numbers_in(data, width).len() == data.len() / width,
        numbers_in(data, width)[i] == number_of(data.subrange(i * width, i * width + width)),
{
    assert((seq![b] + rest).skip(1) =~= rest);
    assert((seq![b] + rest)[0] == b);
}

/// How many bytes a number of a table takes, where the type of the table is known.
pub open spec fn number_width(t: TensorModel) -> Option<nat> {
    match t.kind {
        TypeModel::F32 => Some(4),
        TypeModel::F16 => Some(2),
        TypeModel::I8 => Some(1),
        _ => None,
    }
}

/// Tables are made of a table of embeddings of two dimensions whose type is known and
/// that has a number for each place, of weights whose type is known, if there are any,
/// and of a mapping whose type is known, if there is one. What is wrong first is the
/// error.
pub proof fn tables_are_made_of_sound_tensors(
    table: Option<TensorModel>,
    weights: Option<TensorModel>,
    mapping: Option<TensorModel>,
)
    ensures
        ({
            let r = tables_from(table, weights, mapping);
            &&& table is None ==> r == Err::<TablesModel, ErrorModel>(ErrorModel::NoEmbeddings)
            &&& table is Some && table->0.shape.len() != 2 ==> r == Err::<TablesModel, ErrorModel>(
                ErrorModel::NotTwoDimensional(table->0.shape),
            )
            &&& table is Some && table->0.shape.len() == 2 && number_width(table->0) is None ==> r == Err::<
                TablesModel,
                ErrorModel,
            >(ErrorModel::UnsupportedType(table->0.kind))
            &&& table is Some && table->0.shape.len() == 2 && number_width(table->0) is Some
                && table->0.data.len() / number_width(table->0)->0 != table->0.shape[0] * table->0.shape[1]
                ==> r is Err
            &&& r matches Ok(t) ==> table is Some && table->0.shape.len() == 2 && number_width(table->0) is Some
                && t.rows == table->0.shape[0] && t.dim == table->0.shape[1]
                && t.embeddings.bits.len() == t.rows * t.dim && (weights is Some ==> (
            weights->0.kind == TypeModel::F32 || weights->0.kind == TypeModel::F16)
                && t.weights is Some) && (weights is None ==> t.weights is None) && (
            mapping is Some ==> (mapping->0.kind == TypeModel::I64 || mapping->0.kind
                == TypeModel::I32) && t.mapping is Some) && (mapping is None ==> t.mapping is None)
        }),
{
}

/// A token adds the row that it is mapped to, or that of its own number where it is not
/// mapped, with its weight, if it has one. A token whose row is beyond the table adds
/// none. The rows come in the order of the tokens.
pub proof fn tokens_add_their_rows(m: TablesModel, ids: Seq<u32>)
    ensures
        rows_for(m, ids).len() == ids.filter(|id: u32| has_row(m, id)).len(),
        forall|k: int|
            0 <= k < rows_for(m, ids).len() ==> {
                let id = ids.filter(|id: u32| has_row(m, id))[k];
                let r = #[trigger] rows_for(m, ids)[k];
                &&& m.mapping is Some && id < m.mapping->0.len() ==> r.0 == m.mapping->0[id as int]
                &&& !(m.mapping is Some && id < m.mapping->0.len()) ==> r.0 == id
                &&& m.weights is Some && id < m.weights->0.bits.len() ==> r.1 == Some(
                    m.weights->0.bits[id as int],
                )
                &&& !(m.weights is Some && id < m.weights->0.bits.len()) ==> r.1 is None
            },
    decreases ids.len(),
{
    reveal(Seq::filter);
    if ids.len() > 0 {
        tokens_add_their_rows(m, ids.drop_last());
    }
}

/// Whether a token has a row in the table: the one it is mapped to, or that of its own
/// number.
pub open spec fn has_row(m: TablesModel, id: u32) -> bool {
    if m.mapping is Some && id < m.mapping->0.len() {
        m.mapping->0[id as int] < m.rows
    } else {
        id < m.rows
    }
}

} // verus!
