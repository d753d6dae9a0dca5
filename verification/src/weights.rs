//! The weights of a `wav2vec 2.0` model, indexed from safetensors data.
//!
//! Only the safetensors header is parsed up front; a tensor is looked up by
//! name and its shape checked when the model asks for it.

use vstd::prelude::*;

use bytes::Bytes;
use safetensors::tensor::Metadata;
use safetensors::{Dtype, SafeTensorError, SafeTensors};

verus! {

#[verifier::external_type_specification]
#[verifier::external_body]
pub struct ExBytes(bytes::Bytes);

#[verifier::external_type_specification]
#[verifier::external_body]
pub struct ExMetadata(safetensors::tensor::Metadata);

#[verifier::external_type_specification]
#[verifier::external_body]
pub struct ExDtype(safetensors::Dtype);

#[verifier::external_type_specification]
#[verifier::external_body]
pub struct ExSafeTensorError(safetensors::SafeTensorError);

/// The bytes that a `Bytes` buffer holds.
pub uninterp spec fn bytes_contents(b: Bytes) -> Seq<u8>;

/// The tensors that a safetensors header describes, by name.
pub uninterp spec fn metadata_entries(m: Metadata) -> Map<Seq<char>, TensorInfoView>;

/// What `serde_json::from_slice::<Metadata>` finds in `header`: the tensors
/// that a safetensors header describes, by name, or nothing where it does not
/// deserialize.
pub uninterp spec fn header_metadata(header: Seq<u8>) -> Option<Map<Seq<char>, TensorInfoView>>;

/// What `SafeTensors::read_metadata` finds in `buffer`: the header length and
/// the described tensors by name, or nothing where the buffer does not parse.
pub uninterp spec fn safetensors_header(buffer: Seq<u8>) -> Option<(usize, Map<Seq<char>, TensorInfoView>)>;

/// The longest header that safetensors reads.
pub const MAX_HEADER_LEN: u64 = 100_000_000;

/// The header length announced by the first 8 bytes of `buffer`, a
/// little-endian `u64`.
pub open spec fn announced_header_len(buffer: Seq<u8>) -> int {
    buffer[0] as int + buffer[1] as int * 0x100 + buffer[2] as int * 0x1_0000 + buffer[3] as int
        * 0x100_0000 + buffer[4] as int * 0x1_0000_0000 + buffer[5] as int * 0x100_0000_0000
        + buffer[6] as int * 0x1_0000_0000_0000 + buffer[7] as int * 0x100_0000_0000_0000
}

/// Where `buffer` announces a header of at most `MAX_HEADER_LEN` bytes, holds
/// it, and the header deserializes, the data of every tensor it describes ends
/// early enough that the end, plus the length prefix and the header before the
/// data, is a `usize`. (Any buffer that holds that data meets this.)
pub open spec fn header_data_fits(buffer: Seq<u8>) -> bool {
    let n = announced_header_len(buffer);
    let header = header_metadata(buffer.subrange(8, 8 + n));
    buffer.len() >= 8 && n <= MAX_HEADER_LEN && 8 + n <= buffer.len() && header is Some
        ==> data_ends_within(header->0, usize::MAX - 8 - n)
}

/// The data of every tensor of `entries` ends at `limit` or before.
pub open spec fn data_ends_within(entries: Map<Seq<char>, TensorInfoView>, limit: int) -> bool {
    forall|name: Seq<char>| #[trigger] entries.contains_key(name) ==> entries[name].data_offsets.1 <= limit
}

/// The bytes of `b` as a slice (`Bytes` derefs to `[u8]`).
#[verifier::external_body]
fn bytes_as_slice(b: &Bytes) -> (r: &[u8])
    ensures
        r@ == bytes_contents(*b),
{
    b.as_ref()
}

/// `serde_json::from_slice::<Metadata>`: deserializes a safetensors header the
/// way `SafeTensors::read_metadata` does, through `Metadata`'s `Deserialize`
/// impl (which sorts the tensors by their offsets and validates them). The
/// result depends on the bytes alone (`header_metadata`).
#[verifier::external_body]
fn deserialize_header(header: &Bytes) -> (r: Option<Metadata>)
    ensures
        (r is Some) == (header_metadata(bytes_contents(*header)) is Some),
        r matches Some(m) ==> header_metadata(bytes_contents(*header)) == Some(metadata_entries(m)),
{
    serde_json::from_slice(header.as_ref()).ok()
}

/// `SafeTensorError::MetadataIncompleteBuffer`: the error of a buffer that does
/// not end where the header says the tensor data ends.
#[verifier::external_body]
fn incomplete_buffer_error() -> SafeTensorError {
    SafeTensorError::MetadataIncompleteBuffer
}

/// The number of bytes in `b` (`Bytes::len`).
#[verifier::external_body]
fn bytes_len(b: &Bytes) -> (r: usize)
    ensures
        r == bytes_contents(*b).len(),
{
    b.len()
}

/// `Bytes::slice`: the bytes `begin..end` of `b`, sharing its buffer.
#[verifier::external_body]
fn bytes_slice(b: &Bytes, begin: usize, end: usize) -> (r: Bytes)
    requires
        begin <= end <= bytes_contents(*b).len(),
    ensures
        bytes_contents(r) == bytes_contents(*b).subrange(begin as int, end as int),
{
    b.slice(begin..end)
}

/// `SafeTensors::read_metadata`: parses the header of safetensors data. Whether
/// it succeeds, the header length and the described tensors depend on the bytes
/// alone (`safetensors_header`); by its source, on success the header length `n`
/// leaves room for the 8-byte length prefix and the header itself, and every
/// tensor's data offsets lie within the bytes after them. Which error a failure
/// returns is not stated. It adds the end of the tensor data to `8 + n`
/// unchecked, after deserializing the header as `deserialize_header` does;
/// `header_data_fits` keeps that sum within `usize`.
#[verifier::external_body]
fn read_metadata(data: &Bytes) -> (r: Result<(usize, Metadata), SafeTensorError>)
    requires
        header_data_fits(bytes_contents(*data)),
    ensures
        (r is Ok) == (safetensors_header(bytes_contents(*data)) is Some),
        r matches Ok((n, m)) ==> safetensors_header(bytes_contents(*data)) == Some(
            (n, metadata_entries(m)),
        ),
        r matches Ok((n, m)) ==> {
            &&& n + 8 <= bytes_contents(*data).len()
            &&& forall|name: Seq<char>|
                #[trigger] metadata_entries(m).contains_key(name) ==> {
                    let info = metadata_entries(m)[name];
                    info.data_offsets.0 <= info.data_offsets.1 <= bytes_contents(*data).len() - 8
                        - n
                }
        },
{
    SafeTensors::read_metadata(data)
}

/// `Metadata::tensors`: the described tensors, each under its name, in an
/// unspecified order (that of a `HashMap`).
#[verifier::external_body]
fn metadata_tensors(m: &Metadata) -> (r: Vec<(String, TensorInfo)>)
    ensures
        names_distinct(r@),
        forall|i: int|
            0 <= i < r@.len() ==> #[trigger] metadata_entries(*m).contains_key(r@[i].0@)
                && metadata_entries(*m)[r@[i].0@] == r@[i].1@,
        forall|name: Seq<char>|
            #[trigger] metadata_entries(*m).contains_key(name) ==> exists|i: int|
                0 <= i < r@.len() && #[trigger] r@[i].0@ == name,
{
    m.tensors().into_iter().map(
        |(name, info)| (name, TensorInfo { dtype: info.dtype, shape: info.shape.clone(), data_offsets: info.data_offsets }),
    ).collect()
}

/// The header entry of one tensor.
pub struct TensorInfo {
    pub dtype: Dtype,
    pub shape: Vec<usize>,
    pub data_offsets: (usize, usize),
}

/// The value of a header entry.
pub struct TensorInfoView {
    pub dtype: Dtype,
    pub shape: Seq<usize>,
    pub data_offsets: (usize, usize),
}

impl View for TensorInfo {
    type V = TensorInfoView;

    open spec fn view(&self) -> TensorInfoView {
        TensorInfoView { dtype: self.dtype, shape: self.shape@, data_offsets: self.data_offsets }
    }
}

/// No name occurs twice among `entries`.
pub open spec fn names_distinct(entries: Seq<(String, TensorInfo)>) -> bool {
    forall|i: int, j: int|
        0 <= i < j < entries.len() ==> #[trigger] entries[i].0@ != #[trigger] entries[j].0@
}

/// The entries by name.
pub open spec fn entries_index(entries: Seq<(String, TensorInfo)>) -> Map<Seq<char>, TensorInfoView> {
    Map::new(
        |name: Seq<char>| exists|i: int| 0 <= i < entries.len() && #[trigger] entries[i].0@ == name,
        |name: Seq<char>|
            entries[choose|i: int| 0 <= i < entries.len() && #[trigger] entries[i].0@ == name].1@,
    )
}

/// Why a tensor could not be loaded.
pub enum CreateError {
    /// No tensor of that name.
    TensorNotFound(String),
    /// A tensor of that name, of another shape.
    TensorShape { expected: Vec<usize>, got: Vec<usize> },
}

/// The data of a loaded tensor.
pub enum LoadedTensor {
    /// Little-endian elements of `dtype` in C order, for a tensor of `shape`.
    Stored { bytes: Bytes, shape: Vec<usize>, dtype: Dtype },
    /// All-zero elements for a tensor of `shape`.
    Zeros { shape: Vec<usize> },
}

/// What loading tensor `name` of `shape` from `w` gives: its data if the
/// header has a tensor of that name and shape, else the matching error.
pub open spec fn stored_load_matches(
    w: &SafeTensorsWeights,
    name: Seq<char>,
    shape: Seq<usize>,
    r: Result<LoadedTensor, CreateError>,
) -> bool {
    if !w.index().contains_key(name) {
        r matches Err(CreateError::TensorNotFound(missing)) && missing@ == name
    } else if w.index()[name].shape != shape {
        r matches Err(CreateError::TensorShape { expected, got }) && expected@ == shape && got@
            == w.index()[name].shape
    } else {
        r matches Ok(LoadedTensor::Stored { bytes, shape: got_shape, dtype }) && {
            &&& got_shape@ == shape
            &&& dtype == w.index()[name].dtype
            &&& bytes_contents(bytes) == w.data_view().subrange(
                w.index()[name].data_offsets.0 as int,
                w.index()[name].data_offsets.1 as int,
            )
        }
    }
}

/// What loading tensor `name` of `shape` from `w` gives: zeros of that shape
/// for dummy weights, else as for safetensors weights.
pub open spec fn load_matches(w: &Weights, name: Seq<char>, shape: Seq<usize>, r: Result<LoadedTensor, CreateError>) -> bool {
    match w {
        Weights::Dummy => r matches Ok(LoadedTensor::Zeros { shape: zeros_shape }) && zeros_shape@ == shape,
        Weights::SafeTensors(st) => stored_load_matches(st, name, shape, r),
    }
}

/// Whether `w` holds a tensor `name` of exactly `shape` (dummy weights hold every tensor).
pub open spec fn has_tensor(w: &Weights, name: Seq<char>, shape: Seq<usize>) -> bool {
    match w {
        Weights::Dummy => true,
        Weights::SafeTensors(st) => st.index().contains_key(name) && st.index()[name].shape == shape,
    }
}

/// The shape of tensor `name` in `w`, if `w` is safetensors weights and holds such a tensor.
pub open spec fn stored_shape(w: &Weights, name: Seq<char>) -> Option<Seq<usize>> {
    match w {
        Weights::Dummy => None,
        Weights::SafeTensors(st) => if st.index().contains_key(name) {
            Some(st.index()[name].shape)
        } else {
            None
        },
    }
}

/// The loaded safetensors weights of a `wav2vec 2.0` model.
pub struct SafeTensorsWeights {
    data: Bytes,
    tensors: Vec<(String, TensorInfo)>,
}

impl SafeTensorsWeights {
    /// The tensor data (the bytes after the header).
    pub closed spec fn data_view(&self) -> Seq<u8> {
        bytes_contents(self.data)
    }

    /// The header entries by tensor name.
    pub closed spec fn index(&self) -> Map<Seq<char>, TensorInfoView> {
        entries_index(self.tensors@)
    }

    /// Names are distinct and every tensor's data lies within the data.
    pub closed spec fn wf(&self) -> bool {
        &&& names_distinct(self.tensors@)
        &&& forall|i: int|
            0 <= i < self.tensors@.len() ==> {
                let offsets = #[trigger] self.tensors@[i].1.data_offsets;
                offsets.0 <= offsets.1 <= bytes_contents(self.data).len()
            }
    }

    /// The data of tensor `name`, which must have the given `shape`.
    pub fn load_tensor(&self, name: &str, shape: Vec<usize>) -> (r: Result<LoadedTensor, CreateError>)
        requires
            self.wf(),
        ensures
            stored_load_matches(self, name@, shape@, r),
    {
        let ghost entries = self.tensors@;
        let mut i: usize = 0;
        while i < self.tensors.len()
            invariant
                entries == self.tensors@,
                self.wf(),
                i <= entries.len(),
                forall|j: int| 0 <= j < i ==> #[trigger] entries[j].0@ != name@,
            decreases entries.len() - i,
        {
            if str_equal(self.tensors[i].0.as_str(), name) {
                let info = &self.tensors[i].1;
                proof {
                    lemma_index_at(entries, i as int);
                }
                assert(info.data_offsets == entries[i as int].1.data_offsets);
            if same_shape(info.shape.as_slice(), shape.as_slice()) {
                    let bytes = bytes_slice(&self.data, info.data_offsets.0, info.data_offsets.1);
                    return Ok(LoadedTensor::Stored { bytes, shape, dtype: info.dtype });
                } else {
                    let got = info.shape.clone();
                    return Err(CreateError::TensorShape { expected: shape, got });
                }
            }
            i = i + 1;
        }
        assert(!self.index().contains_key(name@));
        Err(CreateError::TensorNotFound(name.to_string()))
    }
}

/// The entry at position `i` is the one found by its name.
proof fn lemma_index_at(entries: Seq<(String, TensorInfo)>, i: int)
    requires
        names_distinct(entries),
        0 <= i < entries.len(),
    ensures
        entries_index(entries).contains_key(entries[i].0@),
        entries_index(entries)[entries[i].0@] == entries[i].1@,
{
    let name = entries[i].0@;
    assert(exists|j: int| 0 <= j < entries.len() && #[trigger] entries[j].0@ == name);
    let j = choose|j: int| 0 <= j < entries.len() && #[trigger] entries[j].0@ == name;
    if j != i {
        if j < i {
            assert(entries[j].0@ != entries[i].0@);
        } else {
            assert(entries[i].0@ != entries[j].0@);
        }
    }
}

/// Whether two strings are equal.
fn str_equal(a: &str, b: &str) -> (r: bool)
    ensures
        r == (a@ == b@),
{
    let ac = crate::text::chars_of(a);
    let bc = crate::text::chars_of(b);
    if ac.len() != bc.len() {
        return false;
    }
    let mut i: usize = 0;
    while i < ac.len()
        invariant
            ac@ == a@,
            bc@ == b@,
            ac@.len() == bc@.len(),
            i <= ac@.len(),
            forall|j: int| 0 <= j < i ==> ac@[j] == bc@[j],
        decreases ac@.len() - i,
    {
        if ac[i] != bc[i] {
            assert(ac@[i as int] != bc@[i as int]);
            return false;
        }
        i = i + 1;
    }
    assert(ac@ =~= bc@);
    true
}

/// Whether two shapes are equal.
fn same_shape(a: &[usize], b: &[usize]) -> (r: bool)
    ensures
        r == (a@ == b@),
{
    if a.len() != b.len() {
        return false;
    }
    let mut i: usize = 0;
    while i < a.len()
        invariant
            a@.len() == b@.len(),
            i <= a@.len(),
            forall|j: int| 0 <= j < i ==> a@[j] == b@[j],
        decreases a@.len() - i,
    {
        if a[i] != b[i] {
            return false;
        }
        i = i + 1;
    }
    assert(a@ =~= b@);
    true
}

/// Whether `data` meets `header_data_fits`: reads the announced header
/// length, and where the header is there, deserializes it and compares the
/// end of each tensor's data with what is left of `usize`.
fn check_header_data_fits(data: &Bytes) -> (r: bool)
    ensures
        r == header_data_fits(bytes_contents(*data)),
{
    let bytes = bytes_as_slice(data);
    let len = bytes.len();
    if len < 8 {
        return true;
    }
    let n: u64 = bytes[0] as u64 + bytes[1] as u64 * 0x100 + bytes[2] as u64 * 0x1_0000
        + bytes[3] as u64 * 0x100_0000 + bytes[4] as u64 * 0x1_0000_0000 + bytes[5] as u64
        * 0x100_0000_0000 + bytes[6] as u64 * 0x1_0000_0000_0000 + bytes[7] as u64
        * 0x100_0000_0000_0000;
    if n > MAX_HEADER_LEN {
        return true;
    }
    let n = n as usize;
    assert(n == announced_header_len(bytes_contents(*data)));
    if n > len - 8 {
        return true;
    }
    let header = bytes_slice(data, 8, 8 + n);
    assert(bytes_contents(header) == bytes_contents(*data).subrange(8, 8 + n));
    match deserialize_header(&header) {
        None => true,
        Some(metadata) => {
            let ghost entries = metadata_entries(metadata);
            let tensors = metadata_tensors(&metadata);
            let bound = usize::MAX - 8 - n;
            let mut i: usize = 0;
            while i < tensors.len()
                invariant
                    i <= tensors@.len(),
                    bound == usize::MAX - 8 - n,
                    bytes_contents(*data).len() >= 8 + n,
                    n == announced_header_len(bytes_contents(*data)),
                    n <= MAX_HEADER_LEN,
                    header_metadata(bytes_contents(*data).subrange(8, 8 + n as int)) == Some(entries),
                    forall|j: int|
                        0 <= j < tensors@.len() ==> #[trigger] entries.contains_key(tensors@[j].0@)
                            && entries[tensors@[j].0@] == tensors@[j].1@,
                    forall|j: int| 0 <= j < i ==> #[trigger] tensors@[j].1.data_offsets.1 <= bound,
                decreases tensors@.len() - i,
            {
                if tensors[i].1.data_offsets.1 > bound {
                    assert(entries.contains_key(tensors@[i as int].0@));
                    return false;
                }
                i = i + 1;
            }
            assert forall|name: Seq<char>| #[trigger] entries.contains_key(name) implies entries[name].data_offsets.1
                + 8 + n <= usize::MAX by {
                let j = choose|j: int| 0 <= j < tensors@.len() && #[trigger] tensors@[j].0@ == name;
                assert(tensors@[j].1.data_offsets.1 <= bound);
            }
            true
        },
    }
}

/// The loaded weights of a `wav2vec 2.0` model.
pub enum Weights {
    /// Weights loaded as safetensors.
    SafeTensors(SafeTensorsWeights),
    /// Dummy all-zero weights, for testing.
    Dummy,
}

impl Weights {
    /// Well formed, where loaded from safetensors.
    pub open spec fn wf(&self) -> bool {
        match self {
            Weights::SafeTensors(w) => w.wf(),
            Weights::Dummy => true,
        }
    }

    /// Loads `Weights` from safetensors data. Only the header is parsed here;
    /// tensors are read when the model is loaded. Succeeds exactly when the
    /// header parses and the tensor data it describes ends within the range of
    /// `usize` (as it does in any buffer that holds it); the weights then hold
    /// the tensors the header describes and the bytes after the header.
    pub fn from_safetensors(data: Bytes) -> (r: Result<Self, SafeTensorError>)
        ensures
            (r is Ok) == (header_data_fits(bytes_contents(data)) && safetensors_header(
                bytes_contents(data),
            ) is Some),
            r matches Ok(w) ==> {
                let (header_len, entries) = safetensors_header(bytes_contents(data)).unwrap();
                &&& w.wf()
                &&& w matches Weights::SafeTensors(st)
                &&& header_len + 8 <= bytes_contents(data).len()
                &&& st.data_view() == bytes_contents(data).skip(header_len + 8)
                &&& st.index() == entries
            },
    {
        if !check_header_data_fits(&data) {
            return Err(incomplete_buffer_error());
        }
        let (metadata_len, metadata) = match read_metadata(&data) {
            Ok(parsed) => parsed,
            Err(err) => return Err(err),
        };
        let len = bytes_len(&data);
        let tensor_data = bytes_slice(&data, metadata_len + 8, len);
        let tensors = metadata_tensors(&metadata);
        let weights = SafeTensorsWeights { data: tensor_data, tensors };
        proof {
            let skip = metadata_len + 8;
            assert(bytes_contents(tensor_data) =~= bytes_contents(data).skip(skip as int));
            assert forall|i: int| 0 <= i < weights.tensors@.len() implies {
                let offsets = #[trigger] weights.tensors@[i].1.data_offsets;
                offsets.0 <= offsets.1 <= bytes_contents(weights.data).len()
            } by {
                assert(metadata_entries(metadata).contains_key(weights.tensors@[i].0@));
            }
            let entries = weights.tensors@;
            let index = entries_index(entries);
            let header = metadata_entries(metadata);
            assert forall|name: Seq<char>| #[trigger] header.contains_key(name) implies index.contains_key(name)
                && index[name] == header[name] by {
                let i = choose|i: int| 0 <= i < entries.len() && #[trigger] entries[i].0@ == name;
                lemma_index_at(entries, i);
            }
            assert forall|name: Seq<char>| #[trigger] index.contains_key(name) implies header.contains_key(name) by {
                let i = choose|i: int| 0 <= i < entries.len() && #[trigger] entries[i].0@ == name;
            }
            assert(header =~= index);
        }
        Ok(Weights::SafeTensors(weights))
    }

    /// The data of tensor `name` of the given `shape`: from the safetensors
    /// data, or all zeros for dummy weights.
    pub fn load_tensor(&self, name: &str, shape: Vec<usize>) -> (r: Result<LoadedTensor, CreateError>)
        requires
            self.wf(),
        ensures
            load_matches(self, name@, shape@, r),
    {
        match self {
            Weights::SafeTensors(weights) => weights.load_tensor(name, shape),
            Weights::Dummy => Ok(LoadedTensor::Zeros { shape }),
        }
    }
}

/// A `rows` x `cols` matrix in row-major order, transposed: element
/// `(row, col)` moves to position `col * rows + row`. (PyTorch stores a linear
/// layer's weight as `[out, in]`; Burn expects `[in, out]`.)
pub fn transposed<T: Copy>(values: &[T], rows: usize, cols: usize) -> (r: Vec<T>)
    requires
        values@.len() == rows * cols,
    ensures
        r@.len() == rows * cols,
        forall|row: int, col: int|
            0 <= row < rows && 0 <= col < cols ==> #[trigger] r@[col * rows + row] == values@[row
                * cols + col],
{
    let n = values.len();
    let mut r: Vec<T> = Vec::new();
    let mut col: usize = 0;
    while col < cols
        invariant
            n == values@.len(),
            values@.len() == rows * cols,
            col <= cols,
            r@.len() == col * rows,
            forall|c: int, row: int|
                0 <= c < col && 0 <= row < rows ==> #[trigger] r@[c * rows + row] == values@[row
                    * cols + c],
        decreases cols - col,
    {
        let mut row: usize = 0;
        while row < rows
            invariant
                n == values@.len(),
                values@.len() == rows * cols,
                col < cols,
                row <= rows,
                r@.len() == col * rows + row,
                forall|c: int, rw: int|
                    0 <= c < col && 0 <= rw < rows ==> #[trigger] r@[c * rows + rw] == values@[rw
                        * cols + c],
                forall|rw: int| 0 <= rw < row ==> #[trigger] r@[col * rows + rw] == values@[rw * cols + col],
            decreases rows - row,
        {
            proof {
                lemma_index_in_matrix(row as int, col as int, rows as int, cols as int);
            }
            let v = values[row * cols + col];
            let ghost before = r@;
            r.push(v);
            assert forall|c: int, rw: int|
                0 <= c < col && 0 <= rw < rows implies #[trigger] r@[c * rows + rw] == values@[rw
                    * cols + c] by {
                lemma_index_in_matrix(c, rw, col as int, rows as int);
                assert(r@[c * rows + rw] == before[c * rows + rw]);
            }
            row = row + 1;
        }
        proof {
            assert((col + 1) * rows == col * rows + rows) by (nonlinear_arith);
        }
        col = col + 1;
    }
    assert(cols * rows == rows * cols) by (nonlinear_arith);
    r
}

proof fn lemma_index_in_matrix(row: int, col: int, rows: int, cols: int)
    requires
        0 <= row < rows,
        0 <= col < cols,
    ensures
        0 <= row * cols + col < rows * cols,
{
    assert(row * cols + col < rows * cols) by (nonlinear_arith)
        requires
            0 <= row < rows,
            0 <= col < cols,
    ;
    assert(0 <= row * cols) by (nonlinear_arith)
        requires
            0 <= row,
            0 <= cols,
    ;
}


/// The weight of a 1-d convolution as the safetensors data stores it.
pub enum ConvWeight {
    /// The weight itself.
    Merged(LoadedTensor),
    /// A weight-normalized weight: its direction `v` and its norm `g`, with one
    /// norm per kernel position (`per_kernel_position`) or one per output
    /// channel filter.
    Normalized { direction: LoadedTensor, norm: LoadedTensor, per_kernel_position: bool },
}

/// `.weight`
pub open spec fn weight_suffix() -> Seq<char> {
    seq!['.', 'w', 'e', 'i', 'g', 'h', 't']
}

/// `.weight_v`
pub open spec fn direction_suffix() -> Seq<char> {
    seq!['.', 'w', 'e', 'i', 'g', 'h', 't', '_', 'v']
}

/// `.weight_g`
pub open spec fn norm_suffix() -> Seq<char> {
    seq!['.', 'w', 'e', 'i', 'g', 'h', 't', '_', 'g']
}

/// What loading the weight of convolution `prefix` gives: the weight under
/// `{prefix}.weight` if it is there (of shape `[out, in / groups, kernel]`);
/// otherwise the direction `{prefix}.weight_v` (of shape `[in, in / groups,
/// kernel]`) and the norm `{prefix}.weight_g`, of shape `[1, 1, kernel]` (one
/// norm per kernel position) or `[in, 1, 1]` (one per filter); or the error of
/// the first of these loads that fails, a missing merged weight excepted.
pub open spec fn conv_weight_matches(
    w: &Weights,
    prefix: Seq<char>,
    channels_out: usize,
    channels_in: usize,
    groups: usize,
    kernel_size: usize,
    r: Result<ConvWeight, CreateError>,
) -> bool {
    let per_group = (channels_in / groups) as usize;
    let weight = prefix + weight_suffix();
    let direction = prefix + direction_suffix();
    let norm = prefix + norm_suffix();
    let weight_shape = seq![channels_out, per_group, kernel_size];
    let direction_shape = seq![channels_in, per_group, kernel_size];
    let kernel_norm_shape = seq![1usize, 1usize, kernel_size];
    let filter_norm_shape = seq![channels_in, 1usize, 1usize];
    if has_tensor(w, weight, weight_shape) {
        r matches Ok(ConvWeight::Merged(t)) && load_matches(w, weight, weight_shape, Ok(t))
    } else if stored_shape(w, weight) is Some {
        r matches Err(e) && load_matches(w, weight, weight_shape, Err(e))
    } else if !has_tensor(w, direction, direction_shape) {
        r matches Err(e) && load_matches(w, direction, direction_shape, Err(e))
    } else if has_tensor(w, norm, kernel_norm_shape) {
        r matches Ok(ConvWeight::Normalized { direction: v, norm: g, per_kernel_position: true })
            && load_matches(w, direction, direction_shape, Ok(v)) && load_matches(
            w,
            norm,
            kernel_norm_shape,
            Ok(g),
        )
    } else if stored_shape(w, norm) == Some(filter_norm_shape) {
        r matches Ok(ConvWeight::Normalized { direction: v, norm: g, per_kernel_position: false })
            && load_matches(w, direction, direction_shape, Ok(v)) && load_matches(
            w,
            norm,
            filter_norm_shape,
            Ok(g),
        )
    } else {
        r matches Err(e) && load_matches(w, norm, kernel_norm_shape, Err(e))
    }
}

/// `base` followed by `suffix`.
fn concat(base: &str, suffix: &str) -> (r: String)
    ensures
        r@ == base@ + suffix@,
{
    let mut chars = crate::text::chars_of(base);
    let tail = crate::text::chars_of(suffix);
    let mut i: usize = 0;
    let ghost start = chars@;
    while i < tail.len()
        invariant
            i <= tail@.len(),
            tail@ == suffix@,
            start == base@,
            chars@ == start + tail@.take(i as int),
        decreases tail@.len() - i,
    {
        chars.push(tail[i]);
        i = i + 1;
        assert(chars@ =~= start + tail@.take(i as int));
    }
    assert(tail@.take(tail@.len() as int) =~= tail@);
    crate::text::string_of(chars.as_slice(), 0, chars.len())
}

impl Weights {
    /// The weight of the 1-d convolution `prefix` with `channels_in` input
    /// channels in `groups` groups, `channels_out` output channels and kernel
    /// size `kernel_size`, either stored as is or weight-normalized.
    pub fn load_conv1d_weight(
        &self,
        prefix: &str,
        channels_out: usize,
        channels_in: usize,
        groups: usize,
        kernel_size: usize,
    ) -> (r: Result<ConvWeight, CreateError>)
        requires
            self.wf(),
            groups > 0,
        ensures
            conv_weight_matches(self, prefix@, channels_out, channels_in, groups, kernel_size, r),
    {
        let per_group = channels_in / groups;
        proof {
            reveal_strlit(".weight");
            reveal_strlit(".weight_v");
            reveal_strlit(".weight_g");
            assert(".weight"@ =~= weight_suffix());
            assert(".weight_v"@ =~= direction_suffix());
            assert(".weight_g"@ =~= norm_suffix());
        }
        let weight_name = concat(prefix, ".weight");
        let weight_shape = vec![channels_out, per_group, kernel_size];
        assert(weight_shape@ =~= seq![channels_out, per_group, kernel_size]);
        match self.load_tensor(weight_name.as_str(), weight_shape) {
            Ok(weight) => {
                return Ok(ConvWeight::Merged(weight));
            },
            Err(CreateError::TensorNotFound(_)) => {},
            Err(err) => {
                return Err(err);
            },
        }
        let direction_name = concat(prefix, ".weight_v");
        let direction_shape = vec![channels_in, per_group, kernel_size];
        assert(direction_shape@ =~= seq![channels_in, per_group, kernel_size]);
        let direction = match self.load_tensor(direction_name.as_str(), direction_shape) {
            Ok(direction) => direction,
            Err(err) => {
                return Err(err);
            },
        };
        let norm_name = concat(prefix, ".weight_g");
        let kernel_norm_shape = vec![1, 1, kernel_size];
        assert(kernel_norm_shape@ =~= seq![1usize, 1usize, kernel_size]);
        match self.load_tensor(norm_name.as_str(), kernel_norm_shape) {
            Ok(norm) => Ok(ConvWeight::Normalized { direction, norm, per_kernel_position: true }),
            Err(CreateError::TensorShape { expected, got }) => {
                let filter_norm_shape = vec![channels_in, 1, 1];
                assert(filter_norm_shape@ =~= seq![channels_in, 1usize, 1usize]);
                if same_shape(got.as_slice(), filter_norm_shape.as_slice()) {
                    match self.load_tensor(norm_name.as_str(), filter_norm_shape) {
                        Ok(norm) => Ok(
                            ConvWeight::Normalized { direction, norm, per_kernel_position: false },
                        ),
                        Err(err) => Err(err),
                    }
                } else {
                    Err(CreateError::TensorShape { expected, got })
                }
            },
            Err(err) => Err(err),
        }
    }
}

} // verus!
