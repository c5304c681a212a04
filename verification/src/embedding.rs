//! Embedding tables. A table stays quantized as it lies in the file, and only the rows that a
//! prompt asks for are taken out.

use std::sync::Arc;

use candle_core::quantized::gguf_file::Content;
use vstd::prelude::*;

use crate::gguf::{data_offset, header, tensor_info};
use crate::gguf::{HeaderView, TensorInfo, TensorView};
use crate::layers::{layer_tensor, layer_tensor_name};
use crate::text::{decimal, decimal_text};

verus! {

/// How many elements a tensor of these dimensions has.
pub open spec fn elem_count(dims: Seq<usize>) -> nat
    decreases dims.len(),
{
    if dims.len() == 0 {
        1
    } else {
        elem_count(dims.drop_last()) * dims.last() as nat
    }
}

/// How many bytes a run of elements takes, in whole blocks.
pub open spec fn packed_len(elems: nat, block_size: usize, type_size: usize) -> nat {
    (elems / block_size as nat) * type_size as nat
}

/// How many bytes a tensor takes.
pub open spec fn byte_len(info: TensorView) -> nat {
    packed_len(elem_count(info.dims), info.block_size, info.type_size)
}

/// Why a table cannot be read.
#[derive(Debug, Clone, Copy, PartialEq, Eq, Structural)]
pub enum TableError {
    /// There is no such tensor.
    Missing,
    /// The tensor has more elements than an address can tell apart.
    TooLarge,
    /// The file ends before the tensor does.
    OutOfFile,
    /// The tensor has fewer than two dimensions.
    NotTable,
    /// A row has more bytes than an address can tell apart.
    TooWide,
}

/// The bytes of a tensor, where the file holds all of them.
pub open spec fn stored_bytes(file: Seq<u8>, start: nat, len: nat) -> Option<Seq<u8>> {
    if len == 0 {
        Some(seq![])
    } else if start + len <= file.len() {
        Some(file.subrange(start as int, (start + len) as int))
    } else {
        None
    }
}

/// What an embedding holds: the bytes of its table, the number of rows, the number of
/// elements that it takes of a row, the bytes of a row, the layer whose part of a row it
/// takes, and the bytes of that part.
pub struct EmbeddingView {
    pub data: Seq<u8>,
    pub vocab_size: usize,
    pub hidden_dim: usize,
    pub row_bytes: usize,
    pub layer: Option<usize>,
    pub layer_bytes: usize,
}

impl EmbeddingView {
    /// Where the part of a row begins that is taken.
    pub open spec fn start(self, index: nat) -> nat {
        index * self.row_bytes as nat + match self.layer {
            Some(layer) => layer as nat * self.layer_bytes as nat,
            None => 0,
        }
    }

    /// The part of a row that is taken.
    pub open spec fn row(self, index: nat) -> Seq<u8> {
        self.data.subrange(self.start(index) as int, (self.start(index) + self.layer_bytes) as int)
    }

    /// The table holds the part of a row that is taken.
    pub open spec fn holds(self, index: nat) -> bool {
        self.start(index) + self.layer_bytes <= self.data.len()
    }

    /// The parts of the rows with these indices, one behind the other.
    pub open spec fn rows(self, indices: Seq<u32>) -> Seq<u8>
        decreases indices.len(),
    {
        if indices.len() == 0 {
            seq![]
        } else {
            self.rows(indices.drop_last()) + self.row(indices.last() as nat)
        }
    }

    /// How many of the indices stand before the first one that is no row.
    pub open spec fn leading(self, indices: Seq<u32>) -> nat
        decreases indices.len(),
    {
        if indices.len() == 0 || indices[0] >= self.vocab_size {
            0
        } else {
            1 + self.leading(indices.skip(1))
        }
    }

    /// The table holds what these indices ask for, up to the first one that is no row.
    pub open spec fn covers(self, indices: Seq<u32>) -> bool {
        forall|i: int|
            0 <= i < self.leading(indices) ==> self.holds(#[trigger] indices[i] as nat)
    }
}

/// The first indices are rows, and the one behind them is not.
proof fn lemma_leading(e: EmbeddingView, indices: Seq<u32>, count: nat)
    requires
        count <= indices.len(),
        forall|i: int| 0 <= i < count ==> #[trigger] indices[i] < e.vocab_size,
    ensures
        e.leading(indices) >= count,
        count < indices.len() && indices[count as int] >= e.vocab_size ==> e.leading(indices)
            == count,
        e.leading(indices) <= indices.len(),
    decreases indices.len(),
{
    if indices.len() > 0 && indices[0] < e.vocab_size {
        let rest = indices.skip(1);
        if count > 0 {
            assert forall|i: int| 0 <= i < count - 1 implies #[trigger] rest[i] < e.vocab_size by {
                assert(rest[i] == indices[i + 1]);
            }
            lemma_leading(e, rest, (count - 1) as nat);
            if count < indices.len() {
                assert(rest[count - 1] == indices[count as int]);
            }
        } else {
            lemma_leading(e, rest, 0);
        }
    }
}

/// An index that is no row.
#[derive(Debug, Clone, Copy, PartialEq, Eq, Structural)]
pub struct IndexError {
    pub index: u32,
    pub vocab_size: usize,
}

impl IndexError {
    /// The error as a text.
    pub fn message(&self) -> (text: String)
        ensures
            text@ == "index out of bounds in CustomEmbedding: "@ + decimal(self.index as nat)
                + " >= "@ + decimal(self.vocab_size as nat),
    {
        let mut text: String = "index out of bounds in CustomEmbedding: ".to_owned();
        let index: String = decimal_text(self.index as u64);
        text.append(index.as_str());
        text.append(" >= ");
        let vocab_size: String = decimal_text(self.vocab_size as u64);
        text.append(vocab_size.as_str());
        text
    }
}

/// An embedding table, quantized.
pub struct CustomEmbedding {
    raw_data: Arc<Vec<u8>>,
    vocab_size: usize,
    hidden_dim: usize,
    row_bytes: usize,
    layer_idx: Option<usize>,
    layer_bytes: usize,
}

impl View for CustomEmbedding {
    type V = EmbeddingView;

    closed spec fn view(&self) -> EmbeddingView {
        EmbeddingView {
            data: self.raw_data@,
            vocab_size: self.vocab_size,
            hidden_dim: self.hidden_dim,
            row_bytes: self.row_bytes,
            layer: self.layer_idx,
            layer_bytes: self.layer_bytes,
        }
    }
}

impl CustomEmbedding {
    /// A table of `vocab_size` rows with `total_cols` elements each, of which `hidden_dim`
    /// are taken: the first ones, or those that belong to the layer `layer_idx`.
    pub fn new(
        raw_data: Vec<u8>,
        block_size: usize,
        type_size: usize,
        vocab_size: usize,
        hidden_dim: usize,
        layer_idx: Option<usize>,
        total_cols: usize,
    ) -> (embedding: CustomEmbedding)
        requires
            block_size > 0,
            packed_len(total_cols as nat, block_size, type_size) <= usize::MAX,
            packed_len(hidden_dim as nat, block_size, type_size) <= usize::MAX,
        ensures
            embedding@ == (EmbeddingView {
                data: raw_data@,
                vocab_size,
                hidden_dim,
                row_bytes: packed_len(total_cols as nat, block_size, type_size) as usize,
                layer: layer_idx,
                layer_bytes: packed_len(hidden_dim as nat, block_size, type_size) as usize,
            }),
    {
        let row_bytes: usize = (total_cols / block_size) * type_size;
        let layer_bytes: usize = (hidden_dim / block_size) * type_size;
        CustomEmbedding {
            raw_data: Arc::new(raw_data),
            vocab_size,
            hidden_dim,
            row_bytes,
            layer_idx,
            layer_bytes,
        }
    }

    /// How many elements are taken of a row.
    pub fn hidden_dim(&self) -> (hidden_dim: usize)
        ensures
            hidden_dim == self@.hidden_dim,
    {
        self.hidden_dim
    }

    /// The same table, without copying it, of which the part of a layer is taken.
    fn for_layer(&self, layer: usize) -> (table: CustomEmbedding)
        ensures
            table@ == (EmbeddingView { layer: Some(layer), ..self@ }),
    {
        CustomEmbedding {
            raw_data: self.raw_data.clone(),
            vocab_size: self.vocab_size,
            hidden_dim: self.hidden_dim,
            row_bytes: self.row_bytes,
            layer_idx: Some(layer),
            layer_bytes: self.layer_bytes,
        }
    }

    /// Where the part of a row begins that is taken, if the table holds it.
    fn find_row(&self, index: usize) -> (start: Option<usize>)
        ensures
            match start {
                Some(start) => self@.holds(index as nat) && start == self@.start(index as nat),
                None => !self@.holds(index as nat),
            },
    {
        let total: usize = self.raw_data.len();
        let row: Option<usize> = index.checked_mul(self.row_bytes);
        let part: Option<usize> = match self.layer_idx {
            Some(layer) => layer.checked_mul(self.layer_bytes),
            None => Some(0),
        };
        let start: Option<usize> = match (row, part) {
            (Some(row), Some(part)) => row.checked_add(part),
            _ => None,
        };
        proof {
            assert(index * self.row_bytes >= 0) by (nonlinear_arith);
            if let Some(layer) = self.layer_idx {
                assert(layer * self.layer_bytes >= 0) by (nonlinear_arith);
            }
        }
        match start {
            Some(start) => if self.layer_bytes <= total && start <= total - self.layer_bytes {
                Some(start)
            } else {
                None
            },
            None => None,
        }
    }

    /// Whether the table holds what these indices ask for.
    pub fn can_gather(&self, indices: &[u32]) -> (held: bool)
        ensures
            held == self@.covers(indices@),
    {
        let mut i: usize = 0;
        while i < indices.len()
            invariant
                i <= indices@.len(),
                forall|j: int| 0 <= j < i ==> #[trigger] indices@[j] < self@.vocab_size,
                forall|j: int| 0 <= j < i ==> self@.holds(#[trigger] indices@[j] as nat),
            decreases indices@.len() - i,
        {
            let index: usize = indices[i] as usize;
            proof {
                lemma_leading(self@, indices@, i as nat);
            }
            if index >= self.vocab_size {
                return true;
            }
            if self.find_row(index).is_none() {
                proof {
                    lemma_leading(self@, indices@, (i + 1) as nat);
                    assert(!self@.holds(indices@[i as int] as nat));
                }
                return false;
            }
            i += 1;
        }
        proof {
            lemma_leading(self@, indices@, i as nat);
        }
        true
    }

    /// The quantized rows with these indices, one behind the other.
    pub fn forward(&self, indices: &[u32]) -> (result: Result<Vec<u8>, IndexError>)
        requires
            self@.covers(indices@),
        ensures
            match result {
                Ok(bytes) => self@.leading(indices@) == indices@.len() && bytes@ == self@.rows(
                    indices@,
                ),
                Err(error) => self@.leading(indices@) < indices@.len() && error == (IndexError {
                    index: indices@[self@.leading(indices@) as int],
                    vocab_size: self@.vocab_size,
                }),
            },
    {
        let total: usize = self.raw_data.len();
        let mut bytes: Vec<u8> = Vec::new();
        let mut i: usize = 0;
        while i < indices.len()
            invariant
                i <= indices@.len(),
                total == self.raw_data@.len(),
                self@.covers(indices@),
                forall|j: int| 0 <= j < i ==> #[trigger] indices@[j] < self@.vocab_size,
                bytes@ == self@.rows(indices@.take(i as int)),
            decreases indices@.len() - i,
        {
            let index: usize = indices[i] as usize;
            if index >= self.vocab_size {
                proof {
                    lemma_leading(self@, indices@, i as nat);
                }
                return Err(IndexError { index: indices[i], vocab_size: self.vocab_size });
            }
            proof {
                lemma_leading(self@, indices@, (i + 1) as nat);
                assert(self@.holds(indices@[i as int] as nat));
                assert(indices@.take(i + 1).drop_last() =~= indices@.take(i as int));
            }
            let ghost before = bytes@;
            let start: usize = match self.find_row(index) {
                Some(start) => start,
                None => 0,
            };
            let mut k: usize = 0;
            while k < self.layer_bytes
                invariant
                    k <= self.layer_bytes,
                    start + self.layer_bytes <= total,
                    total == self.raw_data@.len(),
                    bytes@ == before + self.raw_data@.subrange(start as int, start + k),
                decreases self.layer_bytes - k,
            {
                bytes.push(self.raw_data[start + k]);
                k += 1;
                assert(bytes@ =~= before + self.raw_data@.subrange(start as int, start + k));
            }
            i += 1;
        }
        proof {
            lemma_leading(self@, indices@, i as nat);
            assert(indices@.take(i as int) =~= indices@);
        }
        Ok(bytes)
    }
}

/// What keeps a tensor from being read as a table of which `hidden_dim` elements per row are
/// taken, or the whole row where that is `None`.
pub open spec fn table_problem(
    file: Seq<u8>,
    header: HeaderView,
    name: Seq<char>,
    hidden_dim: Option<usize>,
) -> Option<TableError> {
    if !header.tensors.contains_key(name) {
        Some(TableError::Missing)
    } else {
        let info = header.tensors[name];
        let start = (header.data_offset + info.offset) as nat;
        if elem_count(info.dims) > usize::MAX {
            Some(TableError::TooLarge)
        } else if stored_bytes(file, start, byte_len(info)) is None {
            Some(TableError::OutOfFile)
        } else if info.dims.len() < 2 {
            Some(TableError::NotTable)
        } else if packed_len(info.dims[1] as nat, info.block_size, info.type_size) > usize::MAX
            || packed_len(
            taken(info, hidden_dim) as nat,
            info.block_size,
            info.type_size,
        ) > usize::MAX {
            Some(TableError::TooWide)
        } else {
            None
        }
    }
}

/// How many elements are taken of a row.
pub open spec fn taken(info: TensorView, hidden_dim: Option<usize>) -> usize {
    match hidden_dim {
        Some(hidden_dim) => hidden_dim,
        None => info.dims[1],
    }
}

/// The table that a tensor is read as.
pub open spec fn table_of(
    file: Seq<u8>,
    header: HeaderView,
    name: Seq<char>,
    hidden_dim: Option<usize>,
    layer: Option<usize>,
) -> EmbeddingView {
    let info = header.tensors[name];
    let start = (header.data_offset + info.offset) as nat;
    EmbeddingView {
        data: stored_bytes(file, start, byte_len(info))->0,
        vocab_size: info.dims[0],
        hidden_dim: taken(info, hidden_dim),
        row_bytes: packed_len(info.dims[1] as nat, info.block_size, info.type_size) as usize,
        layer,
        layer_bytes: packed_len(
            taken(info, hidden_dim) as nat,
            info.block_size,
            info.type_size,
        ) as usize,
    }
}

/// A product with a factor of zero is zero.
proof fn lemma_elem_count_zero(dims: Seq<usize>, at: int)
    requires
        0 <= at < dims.len(),
        dims[at] == 0,
    ensures
        elem_count(dims) == 0,
    decreases dims.len(),
{
    if at < dims.len() - 1 {
        lemma_elem_count_zero(dims.drop_last(), at);
    }
    assert(elem_count(dims.drop_last()) * dims.last() as nat == 0) by (nonlinear_arith)
        requires
            dims.last() == 0 || elem_count(dims.drop_last()) == 0,
    ;
}

/// Without a factor of zero, the first factors multiply to no more than all of them.
proof fn lemma_elem_count_prefix(dims: Seq<usize>, count: int)
    requires
        0 <= count <= dims.len(),
        forall|i: int| 0 <= i < dims.len() ==> #[trigger] dims[i] > 0,
    ensures
        elem_count(dims.take(count)) <= elem_count(dims),
        elem_count(dims) > 0,
    decreases dims.len(),
{
    if dims.len() > 0 {
        let rest = dims.drop_last();
        lemma_elem_count_prefix(
            rest,
            if count < dims.len() {
                count
            } else {
                rest.len() as int
            },
        );
        assert(elem_count(rest) <= elem_count(rest) * dims.last() as nat) by (nonlinear_arith)
            requires
                dims.last() > 0,
        ;
        if count < dims.len() {
            assert(rest.take(count) =~= dims.take(count));
        } else {
            assert(dims.take(count) =~= dims);
        }
    } else {
        assert(dims.take(count) =~= dims);
    }
}

/// How many elements a tensor of these dimensions has, if an address can tell them apart.
fn count_elems(dims: &Vec<usize>) -> (count: Option<usize>)
    ensures
        match count {
            Some(count) => count == elem_count(dims@),
            None => elem_count(dims@) > usize::MAX,
        },
{
    let mut z: usize = 0;
    while z < dims.len()
        invariant
            z <= dims@.len(),
            forall|i: int| 0 <= i < z ==> #[trigger] dims@[i] > 0,
        decreases dims@.len() - z,
    {
        if dims[z] == 0 {
            proof {
                lemma_elem_count_zero(dims@, z as int);
            }
            return Some(0);
        }
        z += 1;
    }
    let mut count: usize = 1;
    let mut k: usize = 0;
    while k < dims.len()
        invariant
            k <= dims@.len(),
            forall|i: int| 0 <= i < dims@.len() ==> #[trigger] dims@[i] > 0,
            count == elem_count(dims@.take(k as int)),
        decreases dims@.len() - k,
    {
        proof {
            assert(dims@.take(k + 1).drop_last() =~= dims@.take(k as int));
            lemma_elem_count_prefix(dims@, k + 1);
        }
        match count.checked_mul(dims[k]) {
            Some(product) => {
                count = product;
            },
            None => {
                return None;
            },
        }
        k += 1;
    }
    assert(dims@.take(k as int) =~= dims@);
    Some(count)
}

/// The bytes of a tensor, where the file holds all of them.
fn read_tensor(file: &[u8], info: &TensorInfo, elems: usize, base: u64) -> (bytes: Option<
    Vec<u8>,
>)
    requires
        elems == elem_count(info.dims@),
        info.block_size > 0,
    ensures
        ({
            let stored = stored_bytes(file@, (base + info.offset) as nat, byte_len(info@));
            match bytes {
                Some(bytes) => stored == Some(bytes@),
                None => stored is None,
            }
        }),
{
    let size: usize = file.len();
    let len: usize = match packed_bytes(elems, info.block_size, info.type_size) {
        Some(len) => len,
        None => return None,
    };
    if len == 0 {
        return Some(Vec::new());
    }
    let start: u64 = match base.checked_add(info.offset) {
        Some(start) => start,
        None => return None,
    };
    if len > size || start > (size - len) as u64 {
        return None;
    }
    let from: usize = start as usize;
    let mut bytes: Vec<u8> = Vec::new();
    let mut k: usize = 0;
    while k < len
        invariant
            k <= len,
            from + len <= size,
            size == file@.len(),
            bytes@ == file@.subrange(from as int, from + k),
        decreases len - k,
    {
        bytes.push(file[from + k]);
        k += 1;
        assert(bytes@ =~= file@.subrange(from as int, from + k));
    }
    Some(bytes)
}

/// How many bytes a run of elements takes, where an address can tell them apart.
fn packed_bytes(elems: usize, block_size: usize, type_size: usize) -> (len: Option<usize>)
    requires
        block_size > 0,
    ensures
        match len {
            Some(len) => len == packed_len(elems as nat, block_size, type_size),
            None => packed_len(elems as nat, block_size, type_size) > usize::MAX,
        },
{
    (elems / block_size).checked_mul(type_size)
}

/// Reads a tensor as a table of which `hidden_dim` elements per row are taken, or the whole
/// row where that is `None`.
fn read_table(
    file: &[u8],
    content: &Content,
    name: &str,
    hidden_dim: Option<usize>,
) -> (result: Result<CustomEmbedding, TableError>)
    ensures
        ({
            let head = header(*content);
            let problem = table_problem(file@, head, name@, hidden_dim);
            match result {
                Ok(table) => problem is None && table@ == table_of(
                    file@,
                    head,
                    name@,
                    hidden_dim,
                    None,
                ),
                Err(error) => problem == Some(error),
            }
        }),
{
    let info: TensorInfo = match tensor_info(content, name) {
        Some(info) => info,
        None => return Err(TableError::Missing),
    };
    let elems: usize = match count_elems(&info.dims) {
        Some(elems) => elems,
        None => return Err(TableError::TooLarge),
    };
    let bytes: Vec<u8> = match read_tensor(file, &info, elems, data_offset(content)) {
        Some(bytes) => bytes,
        None => return Err(TableError::OutOfFile),
    };
    if info.dims.len() < 2 {
        return Err(TableError::NotTable);
    }
    let cols: usize = info.dims[1];
    let width: usize = match hidden_dim {
        Some(hidden_dim) => hidden_dim,
        None => cols,
    };
    if packed_bytes(cols, info.block_size, info.type_size).is_none() || packed_bytes(
        width,
        info.block_size,
        info.type_size,
    ).is_none() {
        return Err(TableError::TooWide);
    }
    Ok(
        CustomEmbedding::new(
            bytes,
            info.block_size,
            info.type_size,
            info.dims[0],
            width,
            None,
            cols,
        ),
    )
}

/// Reads the table of the tokens.
pub fn token_embedding(file: &[u8], content: &Content) -> (result: Result<
    CustomEmbedding,
    TableError,
>)
    ensures
        ({
            let head = header(*content);
            let problem = table_problem(file@, head, "token_embd.weight"@, None);
            match result {
                Ok(table) => problem is None && table@ == table_of(
                    file@,
                    head,
                    "token_embd.weight"@,
                    None,
                    None,
                ),
                Err(error) => problem == Some(error),
            }
        }),
{
    read_table(file, content, "token_embd.weight", None)
}

/// Reads the table that the layers share, in which each has its part of a row.
pub fn shared_embedding(file: &[u8], content: &Content, ple_len: usize) -> (result: Result<
    Option<CustomEmbedding>,
    TableError,
>)
    ensures
        ({
            let head = header(*content);
            let name = "per_layer_token_embd.weight"@;
            let problem = table_problem(file@, head, name, Some(ple_len));
            match result {
                Ok(Some(table)) => problem is None && table@ == table_of(
                    file@,
                    head,
                    name,
                    Some(ple_len),
                    None,
                ),
                Ok(None) => problem == Some(TableError::Missing),
                Err(error) => problem == Some(error) && error != TableError::Missing,
            }
        }),
{
    match read_table(file, content, "per_layer_token_embd.weight", Some(ple_len)) {
        Ok(table) => Ok(Some(table)),
        Err(TableError::Missing) => Ok(None),
        Err(error) => Err(error),
    }
}

/// The table of a layer: its own, or its part of the shared one.
pub fn layer_embedding(
    file: &[u8],
    content: &Content,
    layer: usize,
    shared: &Option<CustomEmbedding>,
) -> (result: Result<Option<CustomEmbedding>, TableError>)
    ensures
        ({
            let head = header(*content);
            let name = layer_tensor(layer as nat, "token_embd_per_layer"@);
            let problem = table_problem(file@, head, name, None);
            match result {
                Ok(Some(table)) => if problem is None {
                    table@ == table_of(file@, head, name, None, None)
                } else {
                    problem == Some(TableError::Missing) && shared is Some && table@ == (
                    EmbeddingView { layer: Some(layer), ..(shared->0)@ })
                },
                Ok(None) => problem == Some(TableError::Missing) && shared is None,
                Err(error) => problem == Some(error) && error != TableError::Missing,
            }
        }),
{
    let name: String = layer_tensor_name(layer, "token_embd_per_layer");
    match read_table(file, content, name.as_str(), None) {
        Ok(table) => Ok(Some(table)),
        Err(TableError::Missing) => match shared {
            Some(table) => Ok(Some(table.for_layer(layer))),
            None => Ok(None),
        },
        Err(error) => Err(error),
    }
}

/// What an index gives does not depend on the others.
pub proof fn law_rows_are_independent(e: EmbeddingView, a: Seq<u32>, b: Seq<u32>)
    ensures
        e.rows(a + b) == e.rows(a) + e.rows(b),
    decreases b.len(),
{
    if b.len() == 0 {
        assert(a + b =~= a);
        assert(e.rows(a) + e.rows(b) =~= e.rows(a));
    } else {
        assert((a + b).drop_last() =~= a + b.drop_last());
        law_rows_are_independent(e, a, b.drop_last());
        assert(e.rows(a + b) =~= e.rows(a) + e.rows(b));
    }
}

/// What is gathered has as many bytes per index as are taken of a row.
pub proof fn law_rows_have_equal_length(e: EmbeddingView, indices: Seq<u32>)
    requires
        forall|i: int| 0 <= i < indices.len() ==> e.holds(#[trigger] indices[i] as nat),
    ensures
        e.rows(indices).len() == indices.len() * e.layer_bytes as nat,
    decreases indices.len(),
{
    if indices.len() > 0 {
        assert(e.holds(indices.last() as nat));
        assert forall|i: int| 0 <= i < indices.drop_last().len() implies e.holds(
            #[trigger] indices.drop_last()[i] as nat,
        ) by {
            assert(indices.drop_last()[i] == indices[i]);
        }
        law_rows_have_equal_length(e, indices.drop_last());
        assert(indices.len() * e.layer_bytes == (indices.len() - 1) * e.layer_bytes
            + e.layer_bytes) by (nonlinear_arith);
    }
}

/// A table whose rows all lie within its bytes, with the parts of the layers within the
/// rows, holds whatever a prompt asks for.
pub proof fn law_whole_tables_hold_their_rows(e: EmbeddingView, indices: Seq<u32>)
    requires
        e.vocab_size * e.row_bytes <= e.data.len(),
        e.start(0) + e.layer_bytes <= e.row_bytes,
    ensures
        e.covers(indices),
{
    assert forall|i: int| 0 <= i < e.leading(indices) implies e.holds(
        #[trigger] indices[i] as nat,
    ) by {
        lemma_leading_rows(e, indices, i);
        let index = indices[i] as nat;
        assert((index + 1) * e.row_bytes <= e.vocab_size * e.row_bytes) by (nonlinear_arith)
            requires
                index + 1 <= e.vocab_size,
        ;
        assert((index + 1) * e.row_bytes == index * e.row_bytes + e.row_bytes) by (nonlinear_arith);
        assert(0 * e.row_bytes as nat == 0) by (nonlinear_arith);
    }
}

/// Rows packed one by one take no more bytes than all of their elements together.
proof fn lemma_packed_rows(rows: nat, cols: nat, block_size: usize, type_size: usize)
    requires
        block_size > 0,
    ensures
        rows * packed_len(cols, block_size, type_size) <= packed_len(
            rows * cols,
            block_size,
            type_size,
        ),
{
    let block = block_size as nat;
    let blocks = cols / block;
    assert(blocks * block <= cols) by (nonlinear_arith)
        requires
            blocks == cols / block,
            block > 0,
    ;
    assert((rows * blocks) * block <= rows * cols) by (nonlinear_arith)
        requires
            blocks * block <= cols,
    ;
    assert(rows * blocks <= (rows * cols) / block) by (nonlinear_arith)
        requires
            (rows * blocks) * block <= rows * cols,
            block > 0,
    ;
    assert(rows * (blocks * type_size as nat) <= ((rows * cols) / block) * type_size as nat)
        by (nonlinear_arith)
        requires
            rows * blocks <= (rows * cols) / block,
    ;
}

/// A table that was read from a tensor of two dimensions, with whole rows taken, holds
/// whatever a prompt asks for.
pub proof fn law_read_tables_hold_their_rows(
    file: Seq<u8>,
    header: HeaderView,
    name: Seq<char>,
    indices: Seq<u32>,
)
    requires
        table_problem(file, header, name, None) is None,
        header.tensors[name].dims.len() == 2,
        header.tensors[name].block_size > 0,
    ensures
        table_of(file, header, name, None, None).covers(indices),
{
    let info = header.tensors[name];
    let table = table_of(file, header, name, None, None);
    let rows = info.dims[0] as nat;
    let cols = info.dims[1] as nat;
    assert(elem_count(info.dims) == rows * cols) by {
        let front = info.dims.drop_last();
        assert(front.len() == 1 && front.last() == info.dims[0]);
        assert(elem_count(front.drop_last()) == 1);
        assert(elem_count(front) == elem_count(front.drop_last()) * rows);
        assert(1 * rows == rows) by (nonlinear_arith);
        assert(elem_count(info.dims) == elem_count(front) * cols);
    }
    lemma_packed_rows(rows, cols, info.block_size, info.type_size);
    assert(table.data.len() == byte_len(info));
    assert(0 * table.row_bytes as nat == 0) by (nonlinear_arith);
    law_whole_tables_hold_their_rows(table, indices);
}

/// The leading indices are rows.
proof fn lemma_leading_rows(e: EmbeddingView, indices: Seq<u32>, i: int)
    requires
        0 <= i < e.leading(indices),
    ensures
        i < indices.len(),
        indices[i] < e.vocab_size,
    decreases indices.len(),
{
    if i > 0 {
        lemma_leading_rows(e, indices.skip(1), i - 1);
        assert(indices.skip(1)[i - 1] == indices[i]);
    }
}

/// What an index gives lies in the table behind as many rows as the index counts, and within
/// the row, for a layer, behind the parts of as many layers.
pub proof fn law_an_index_gives_its_row(e: EmbeddingView, index: u32)
    requires
        e.holds(index as nat),
    ensures
        ({
            let within_row = match e.layer {
                None => 0,
                Some(layer) => layer * e.layer_bytes,
            };
            let from = index * e.row_bytes + within_row;
            &&& from + e.layer_bytes <= e.data.len()
            &&& e.rows(seq![index]) == e.data.subrange(from, from + e.layer_bytes)
        }),
{
    let one = seq![index];
    assert(one.drop_last().len() == 0);
    assert(e.rows(one.drop_last()) =~= Seq::<u8>::empty());
    assert(e.rows(one) =~= e.row(index as nat));
}

/// The table holds what an index asks for exactly if it does not end before the part ends.
pub proof fn law_a_table_holds_what_lies_in_it(e: EmbeddingView, index: u32)
    ensures
        e.holds(index as nat) <==> index * e.row_bytes + (match e.layer {
            None => 0,
            Some(layer) => layer * e.layer_bytes,
        }) + e.layer_bytes <= e.data.len(),
{
}

/// In a table that is made of rows one behind the other, an index gives the row that it
/// counts.
pub proof fn law_tables_give_back_their_rows(e: EmbeddingView, rows: Seq<Seq<u8>>, index: u32)
    requires
        e.layer is None,
        e.layer_bytes == e.row_bytes,
        rows.len() * e.row_bytes <= e.data.len(),
        index < rows.len(),
        forall|k: int|
            0 <= k < rows.len() ==> #[trigger] rows[k] == e.data.subrange(
                k * e.row_bytes,
                k * e.row_bytes + e.row_bytes,
            ),
    ensures
        e.rows(seq![index]) == rows[index as int],
{
    assert((index + 1) * e.row_bytes <= rows.len() * e.row_bytes) by (nonlinear_arith)
        requires
            index + 1 <= rows.len(),
    ;
    assert((index + 1) * e.row_bytes == index * e.row_bytes + e.row_bytes) by (nonlinear_arith);
    law_an_index_gives_its_row(e, index);
}

/// Different indices read different bytes, and so do different layers of one row.
pub proof fn law_rows_do_not_overlap(e: EmbeddingView, a: nat, b: nat)
    requires
        a < b,
        e.layer_bytes <= e.row_bytes,
    ensures
        e.start(a) + e.layer_bytes <= e.start(b),
        e.start(b) - e.start(a) == (b - a) * e.row_bytes,
        forall|x: usize, y: usize|
            x < y ==> #[trigger] (EmbeddingView { layer: Some(x), ..e }).start(a) + e.layer_bytes
                <= #[trigger] (EmbeddingView { layer: Some(y), ..e }).start(a),
{
    let rb = e.row_bytes as int;
    let lb = e.layer_bytes as int;
    assert(b * rb - a * rb == (b - a) * rb) by (nonlinear_arith);
    assert((b - a) * rb >= rb) by (nonlinear_arith)
        requires
            b - a >= 1,
            rb >= 0,
    ;
    assert forall|x: usize, y: usize| x < y implies #[trigger] (EmbeddingView {
        layer: Some(x),
        ..e
    }).start(a) + e.layer_bytes <= #[trigger] (EmbeddingView { layer: Some(y), ..e }).start(
        a,
    ) by {
        assert(x * lb + lb <= y * lb) by (nonlinear_arith)
            requires
                x + 1 <= y,
                lb >= 0,
        ;
    }
}

/// An index is refused exactly if it is not below the number of rows, and the first such
/// index is the one that is reported: all indices before it are rows.
pub proof fn law_the_first_wrong_index_counts(e: EmbeddingView, indices: Seq<u32>)
    ensures
        ({
            let n = e.leading(indices) as int;
            &&& 0 <= n <= indices.len()
            &&& forall|i: int| 0 <= i < n ==> #[trigger] indices[i] < e.vocab_size
            &&& n < indices.len() ==> indices[n] >= e.vocab_size
        }),
    decreases indices.len(),
{
    if indices.len() > 0 && indices[0] < e.vocab_size {
        let rest = indices.skip(1);
        law_the_first_wrong_index_counts(e, rest);
        let n = e.leading(indices) as int;
        assert forall|i: int| 0 <= i < n implies #[trigger] indices[i] < e.vocab_size by {
            if i > 0 {
                assert(indices[i] == rest[i - 1]);
            }
        }
        if n < indices.len() {
            assert(indices[n] == rest[n - 1]);
        }
    }
}

/// A table covers a prompt exactly if it holds every row up to the first wrong index.
pub proof fn law_a_table_covers_what_it_holds(e: EmbeddingView, indices: Seq<u32>)
    ensures
        e.covers(indices) <==> forall|i: int|
            0 <= i < indices.len() && (forall|j: int|
                0 <= j <= i ==> #[trigger] indices[j] < e.vocab_size) ==> e.holds(
                #[trigger] indices[i] as nat,
            ),
{
    law_the_first_wrong_index_counts(e, indices);
    let n = e.leading(indices) as int;
    assert forall|i: int|
        #![trigger indices[i]]
        0 <= i < indices.len() && (forall|j: int|
            0 <= j <= i ==> #[trigger] indices[j] < e.vocab_size) implies i < n by {
        if n <= i {
            assert(indices[n] < e.vocab_size);
        }
    }
    if forall|i: int|
        0 <= i < indices.len() && (forall|j: int|
            0 <= j <= i ==> #[trigger] indices[j] < e.vocab_size) ==> e.holds(
            #[trigger] indices[i] as nat,
        ) {
        assert forall|i: int| 0 <= i < n implies e.holds(#[trigger] indices[i] as nat) by {
            assert(forall|j: int| 0 <= j <= i ==> #[trigger] indices[j] < e.vocab_size);
        }
    }
}

/// A tensor has as many elements as its dimensions multiply to: a single one has its own size,
/// two groups of them multiply, and none at all make one.
pub proof fn law_dimensions_multiply(a: Seq<usize>, b: Seq<usize>, d: usize)
    ensures
        elem_count(seq![]) == 1,
        elem_count(seq![d]) == d,
        elem_count(a + b) == elem_count(a) * elem_count(b),
    decreases b.len(),
{
    let one = seq![d];
    assert(one.drop_last().len() == 0);
    assert(elem_count(one.drop_last()) == 1);
    assert(elem_count(one) == 1 * one.last() as nat);
    if b.len() == 0 {
        assert(a + b =~= a);
        assert(elem_count(a) * 1 == elem_count(a)) by (nonlinear_arith);
    } else {
        let front = b.drop_last();
        law_dimensions_multiply(a, front, d);
        assert((a + b).drop_last() =~= a + front);
        let x = elem_count(a) as int;
        let y = elem_count(front) as int;
        let z = b.last() as int;
        assert((x * y) * z == x * (y * z)) by (nonlinear_arith);
    }
}

/// Elements are packed into as many blocks as they fill, and a block takes its bytes; what
/// does not fill a block takes none.
pub proof fn law_elements_are_packed_in_blocks(elems: nat, block_size: usize, type_size: usize)
    requires
        block_size > 0,
    ensures
        exists|blocks: nat|
            {
                &&& packed_len(elems, block_size, type_size) == #[trigger] (blocks * type_size)
                &&& blocks * block_size <= elems < (blocks + 1) * block_size
            },
{
    let blocks = elems / block_size as nat;
    assert(blocks * block_size <= elems < (blocks + 1) * block_size) by (nonlinear_arith)
        requires
            blocks == elems / block_size as nat,
            block_size > 0,
    ;
    assert(packed_len(elems, block_size, type_size) == blocks * type_size);
}

/// What keeps a tensor from being read as a table: that there is none; that its elements, or
/// the bytes of a row or of what is taken of it, are too many to count; that the file ends
/// before it; that it has fewer than two dimensions. The first of these, in this order, is
/// reported, but for the bytes of a row, which come last.
pub proof fn law_what_keeps_a_table_from_being_read(
    file: Seq<u8>,
    header: HeaderView,
    name: Seq<char>,
    hidden_dim: Option<usize>,
)
    ensures
        ({
            let problem = table_problem(file, header, name, hidden_dim);
            let info = header.tensors[name];
            let bytes = packed_len(elem_count(info.dims), info.block_size, info.type_size);
            let counted = elem_count(info.dims) <= usize::MAX;
            let stored = bytes == 0 || header.data_offset + info.offset + bytes <= file.len();
            let row = packed_len(info.dims[1] as nat, info.block_size, info.type_size);
            let part = packed_len(
                match hidden_dim {
                    Some(elems) => elems as nat,
                    None => info.dims[1] as nat,
                },
                info.block_size,
                info.type_size,
            );
            let narrow = row <= usize::MAX && part <= usize::MAX;
            if !header.tensors.contains_key(name) {
                problem == Some(TableError::Missing)
            } else if !counted {
                problem == Some(TableError::TooLarge)
            } else if !stored {
                problem == Some(TableError::OutOfFile)
            } else if info.dims.len() < 2 {
                problem == Some(TableError::NotTable)
            } else if !narrow {
                problem == Some(TableError::TooWide)
            } else {
                problem is None
            }
        }),
{
}

/// A table that can be read holds the bytes of its tensor: those of the file from where the
/// tensors begin and the tensor lies. Its first dimension counts the rows, its second the
/// elements of a row, of which as many are taken as was asked for, else all.
pub proof fn law_tables_are_read_from_their_place(
    file: Seq<u8>,
    header: HeaderView,
    name: Seq<char>,
    hidden_dim: Option<usize>,
    layer: Option<usize>,
)
    requires
        table_problem(file, header, name, hidden_dim) is None,
    ensures
        ({
            let info = header.tensors[name];
            let table = table_of(file, header, name, hidden_dim, layer);
            let from = header.data_offset + info.offset;
            let bytes = packed_len(elem_count(info.dims), info.block_size, info.type_size);
            &&& table.data.len() == bytes
            &&& bytes > 0 ==> table.data == file.subrange(from, from + bytes)
            &&& table.vocab_size == info.dims[0]
            &&& table.hidden_dim == match hidden_dim {
                Some(elems) => elems,
                None => info.dims[1],
            }
            &&& table.row_bytes == packed_len(
                info.dims[1] as nat,
                info.block_size,
                info.type_size,
            )
            &&& table.layer_bytes == packed_len(
                table.hidden_dim as nat,
                info.block_size,
                info.type_size,
            )
            &&& table.layer == layer
        }),
{
}

} // verus!
