//! The header of a GGUF model file, as the `candle-core` crate reads it.

use candle_core::quantized::gguf_file::Content;
use candle_core::quantized::gguf_file::Value;
use vstd::prelude::*;
use vstd::utf8::is_ascii_chars_encode_utf8;

verus! {

/// The header of a GGUF file.
#[verifier::external_type_specification]
#[verifier::external_body]
pub struct ExContent(candle_core::quantized::gguf_file::Content);

/// An error of `candle-core`, carried through as it came.
#[verifier::external_type_specification]
#[verifier::external_body]
pub struct ExCandleError(candle_core::Error);

/// A metadata value that is not an array, as far as the loader reads it. A 32-bit float is
/// held as its bits; `Other` stands for every other type.
#[derive(Debug, Clone, PartialEq, Eq)]
pub enum MetaItem {
    U32(u32),
    I32(i32),
    F32(u32),
    Bool(bool),
    Text(String),
    Other,
}

/// What a `MetaItem` says.
pub enum ItemView {
    U32(u32),
    I32(i32),
    F32(u32),
    Bool(bool),
    Text(Seq<char>),
    Other,
}

impl View for MetaItem {
    type V = ItemView;

    open spec fn view(&self) -> ItemView {
        match self {
            MetaItem::U32(value) => ItemView::U32(*value),
            MetaItem::I32(value) => ItemView::I32(*value),
            MetaItem::F32(bits) => ItemView::F32(*bits),
            MetaItem::Bool(value) => ItemView::Bool(*value),
            MetaItem::Text(text) => ItemView::Text(text@),
            MetaItem::Other => ItemView::Other,
        }
    }
}

/// What a list of items says.
pub open spec fn item_views(items: Seq<MetaItem>) -> Seq<ItemView> {
    items.map_values(|item: MetaItem| item@)
}

/// A metadata value: a single item, or an array. An array within an array counts as an item
/// of another type.
pub enum MetaView {
    Item(ItemView),
    Array(Seq<ItemView>),
}

/// Where a tensor lies and how it is laid out: its dimensions, the number of elements and
/// of bytes of a block of its type, and its offset behind the header.
#[derive(Debug, Clone, PartialEq, Eq)]
pub struct TensorInfo {
    pub dims: Vec<usize>,
    pub block_size: usize,
    pub type_size: usize,
    pub offset: u64,
}

/// What a `TensorInfo` says.
pub struct TensorView {
    pub dims: Seq<usize>,
    pub block_size: usize,
    pub type_size: usize,
    pub offset: u64,
}

impl View for TensorInfo {
    type V = TensorView;

    open spec fn view(&self) -> TensorView {
        TensorView {
            dims: self.dims@,
            block_size: self.block_size,
            type_size: self.type_size,
            offset: self.offset,
        }
    }
}

/// Everything that the loader reads of a header: the metadata by key, and how each value is
/// written in messages; the tensors by name; and where the tensors begin in the file.
pub struct HeaderView {
    pub metadata: Map<Seq<char>, MetaView>,
    pub shown: Map<Seq<char>, Seq<char>>,
    pub tensors: Map<Seq<char>, TensorView>,
    pub data_offset: u64,
}

/// What a header holds.
pub uninterp spec fn header(content: Content) -> HeaderView;

/// The header that a file begins with, if it begins with one.
pub uninterp spec fn parsed_header(file: Seq<u8>) -> Option<HeaderView>;

/// The key under which a file may declare the alignment of its tensors.
pub open spec fn alignment_key() -> Seq<u8> {
    "general.alignment"@.map_values(|c: char| c as u8)
}

/// How many zero bytes stand in `file` from `at` on.
pub open spec fn zero_run(file: Seq<u8>, at: int) -> nat
    decreases file.len() - at,
{
    if 0 <= at < file.len() && file[at] == 0 {
        1 + zero_run(file, at + 1)
    } else {
        0
    }
}

/// The 32-bit number in the four bytes from `at` on, the lowest byte first.
pub open spec fn u32_at(file: Seq<u8>, at: int) -> nat {
    (file[at] + 0x100 * file[at + 1] + 0x1_0000 * file[at + 2] + 0x100_0000 * file[at + 3]) as nat
}

/// The number in the bytes from `at` on: 64 bits where lengths are wide, else 32.
pub open spec fn length_at(file: Seq<u8>, at: int, wide: bool) -> nat {
    if wide {
        u32_at(file, at) + 0x1_0000_0000 * u32_at(file, at + 4)
    } else {
        u32_at(file, at)
    }
}

/// How many bytes a length takes.
pub open spec fn length_width(wide: bool) -> nat {
    if wide {
        8
    } else {
        4
    }
}

/// How many bytes a number takes whose type, given by its own number, has a fixed width.
pub open spec fn fixed_width(kind: nat) -> Option<nat> {
    if kind <= 1 {
        Some(1)
    } else if kind <= 3 {
        Some(2)
    } else if kind <= 6 {
        Some(4)
    } else if 10 <= kind <= 12 {
        Some(8)
    } else {
        None
    }
}

/// The type number of a truth value.
pub const BOOL_KIND: u32 = 7;

/// The type number of a string.
pub const STRING_KIND: u32 = 8;

/// The type number of an array.
pub const ARRAY_KIND: u32 = 9;

/// The largest type number.
pub const LAST_KIND: u32 = 12;

/// How long a string or an array may be, and how many entries or tensors a header may have.
pub const MAX_LENGTH: u64 = 0x4000_0000;

/// How many dimensions a tensor may have.
pub const MAX_DIMS: u32 = 4;

/// How deep arrays may lie in each other.
pub const MAX_DEPTH: u32 = 64;

/// Where a string ends that begins at `at`, if the file holds it whole: a length, not too
/// large, and as many bytes.
pub open spec fn string_end(file: Seq<u8>, at: int, wide: bool) -> Option<int> {
    let text = at + length_width(wide);
    if text <= file.len() && length_at(file, at, wide) <= MAX_LENGTH {
        within(file, text + length_at(file, at, wide))
    } else {
        None
    }
}

/// Where a value ends that begins at `at`, if the file holds it whole. A truth value is zero
/// or one; an array is a known type, a length, not too large, and its items, with at most
/// `depth` arrays around any item.
pub open spec fn value_end(file: Seq<u8>, at: int, kind: nat, wide: bool, depth: nat) -> Option<int>
    decreases depth, 0nat,
{
    let first = at + 4 + length_width(wide);
    match fixed_width(kind) {
        Some(size) => within(file, at + size),
        None => if kind == BOOL_KIND && at < file.len() && file[at] <= 1 {
            Some(at + 1)
        } else if kind == STRING_KIND {
            string_end(file, at, wide)
        } else if kind == ARRAY_KIND && first <= file.len() && u32_at(file, at) <= LAST_KIND
            && length_at(file, at + 4, wide) <= MAX_LENGTH {
            let count = length_at(file, at + 4, wide);
            if count == 0 {
                Some(first)
            } else if depth == 0 {
                None
            } else {
                items_end(file, first, u32_at(file, at), count, wide, (depth - 1) as nat)
            }
        } else {
            None
        },
    }
}

/// Where the last of `count` values ends that stand one behind the other from `at` on.
pub open spec fn items_end(
    file: Seq<u8>,
    at: int,
    kind: nat,
    count: nat,
    wide: bool,
    depth: nat,
) -> Option<int>
    decreases depth, 1 + count,
{
    if count == 0 {
        Some(at)
    } else {
        match value_end(file, at, kind, wide, depth) {
            Some(end) => items_end(file, end, kind, (count - 1) as nat, wide, depth),
            None => None,
        }
    }
}

/// A place in the file, or its end.
pub open spec fn within(file: Seq<u8>, at: int) -> Option<int> {
    if at <= file.len() {
        Some(at)
    } else {
        None
    }
}

/// The `len` bytes from `at` on are the key of the alignment. Zero bytes behind it do not
/// count.
pub open spec fn is_alignment_key(file: Seq<u8>, at: int, len: nat) -> bool {
    let key = alignment_key();
    &&& key.len() <= len
    &&& file.subrange(at, at + key.len()) == key
    &&& zero_run(file, at + key.len()) >= len - key.len()
}

/// The value of an integer type at `at` is zero.
pub open spec fn is_zero(file: Seq<u8>, at: int, kind: nat) -> bool {
    kind <= 5 && zero_run(file, at) >= fixed_width(kind)->0
}

/// Where the metadata entry at `at` ends, and whether the alignment is zero after it, where
/// `zero` says so of the entries before. None where the entry does not lie whole in the
/// file.
pub open spec fn after_entry(file: Seq<u8>, at: int, wide: bool, zero: bool) -> Option<(int, bool)> {
    let key = at + length_width(wide);
    let len = length_at(file, at, wide);
    let value = key + len + 4;
    if string_end(file, at, wide) is None || value > file.len() {
        None
    } else {
        let kind = u32_at(file, value - 4);
        match value_end(file, value, kind, wide, MAX_DEPTH as nat) {
            Some(end) => Some(
                (
                    end,
                    if is_alignment_key(file, key, len) {
                        is_zero(file, value, kind)
                    } else {
                        zero
                    },
                ),
            ),
            None => None,
        }
    }
}

/// Where `count` metadata entries from `at` on end, and whether the alignment is zero after
/// them, where `zero` says so of the entries before. The last entry with the key counts.
/// None where the entries do not lie whole in the file.
pub open spec fn after_entries(
    file: Seq<u8>,
    at: int,
    count: nat,
    wide: bool,
    zero: bool,
) -> Option<(int, bool)>
    decreases count,
{
    if count == 0 {
        Some((at, zero))
    } else {
        match after_entry(file, at, wide, zero) {
            Some((end, zero)) => after_entries(file, end, (count - 1) as nat, wide, zero),
            None => None,
        }
    }
}

/// The number of a type that the elements of a tensor can have.
pub open spec fn is_tensor_type(kind: nat) -> bool {
    kind <= 3 || 6 <= kind <= 15 || kind == 30
}

/// Where the description of a tensor ends that begins at `at`, if the file holds it whole:
/// a name, a number of dimensions, not too large, the dimensions, a known type and an
/// offset of eight bytes.
pub open spec fn tensor_end(file: Seq<u8>, at: int, wide: bool) -> Option<int> {
    match string_end(file, at, wide) {
        Some(count_at) => {
            let kind_at = count_at + 4 + u32_at(file, count_at) * length_width(wide);
            if count_at + 4 <= file.len() && u32_at(file, count_at) <= MAX_DIMS && kind_at + 12
                <= file.len() && is_tensor_type(u32_at(file, kind_at)) {
                Some(kind_at + 12)
            } else {
                None
            }
        },
        None => None,
    }
}

/// The descriptions of `count` tensors lie whole in the file from `at` on.
pub open spec fn has_tensors(file: Seq<u8>, at: int, count: nat, wide: bool) -> bool
    decreases count,
{
    count == 0 || match tensor_end(file, at, wide) {
        Some(end) => has_tensors(file, end, (count - 1) as nat, wide),
        None => false,
    }
}

/// The file opens with the letters of the format, in either order of bytes, and one of its
/// three versions.
pub open spec fn opens_header(file: Seq<u8>) -> bool {
    &&& 8 <= file.len()
    &&& u32_at(file, 0) == 0x4655_4747 || u32_at(file, 0) == 0x4747_5546
    &&& 1 <= u32_at(file, 4) <= 3
}

/// The file has a whole header, and declares in it that its tensors are aligned to a
/// multiple of zero bytes. Behind the opening stand the number of tensors and the number of
/// metadata entries, not too large, then the entries and the tensors; the first version has
/// narrow lengths.
pub open spec fn declares_zero_alignment(file: Seq<u8>) -> bool {
    let wide = u32_at(file, 4) != 1;
    let width = length_width(wide) as int;
    let tensors = length_at(file, 8, wide);
    let entries = length_at(file, 8 + width, wide);
    &&& opens_header(file)
    &&& 8 + 2 * width <= file.len()
    &&& tensors <= MAX_LENGTH
    &&& entries <= MAX_LENGTH
    &&& match after_entries(file, 8 + 2 * width, entries, wide, false) {
        Some((end, zero)) => zero && has_tensors(file, end, tensors, wide),
        None => false,
    }
}

/// Reads a header with `Content::read` of `candle-core`, from a reader over the whole file.
/// The result depends on the bytes of the file alone. A whole header with an alignment of
/// zero is ruled out: having read it, the reader would divide by the alignment.
#[verifier::external_body]
fn read_content(file: &[u8]) -> (result: Result<Content, candle_core::Error>)
    requires
        !declares_zero_alignment(file@),
    ensures
        match result {
            Ok(content) => parsed_header(file@) == Some(header(content)),
            Err(_) => parsed_header(file@) is None,
        },
{
    Content::read(&mut std::io::Cursor::new(file))
}

/// Looks a key up in the field `metadata` of `Content`, a map from keys to values. An array
/// is reported as an item of another type.
#[verifier::external_body]
pub(crate) fn metadata_item(content: &Content, key: &str) -> (found: Option<MetaItem>)
    ensures
        match found {
            Some(item) => {
                &&& header(*content).metadata.contains_key(key@)
                &&& item@ == match header(*content).metadata[key@] {
                    MetaView::Item(item) => item,
                    MetaView::Array(_) => ItemView::Other,
                }
            },
            None => !header(*content).metadata.contains_key(key@),
        },
{
    match content.metadata.get(key) {
        Some(Value::U32(value)) => Some(MetaItem::U32(*value)),
        Some(Value::I32(value)) => Some(MetaItem::I32(*value)),
        Some(Value::F32(value)) => Some(MetaItem::F32(value.to_bits())),
        Some(Value::Bool(value)) => Some(MetaItem::Bool(*value)),
        Some(Value::String(value)) => Some(MetaItem::Text(value.clone())),
        Some(_) => Some(MetaItem::Other),
        None => None,
    }
}

/// Writes a value of the field `metadata` of `Content` as its `Debug` does.
#[verifier::external_body]
pub(crate) fn metadata_shown(content: &Content, key: &str) -> (shown: Option<String>)
    ensures
        match shown {
            Some(text) => header(*content).metadata.contains_key(key@) && header(
                *content,
            ).shown[key@] == text@,
            None => !header(*content).metadata.contains_key(key@),
        },
{
    content.metadata.get(key).map(|value| format!("{:?}", value))
}

/// Looks up an array in the field `metadata` of `Content`, and hands out its items.
#[verifier::external_body]
pub(crate) fn metadata_array(content: &Content, key: &str) -> (found: Option<Vec<MetaItem>>)
    ensures
        match found {
            Some(items) => header(*content).metadata.contains_key(key@) && header(
                *content,
            ).metadata[key@] == MetaView::Array(item_views(items@)),
            None => !header(*content).metadata.contains_key(key@) || header(
                *content,
            ).metadata[key@] is Item,
        },
{
    match content.metadata.get(key) {
        Some(Value::Array(items)) => Some(items.iter().map(|item| match item {
            Value::U32(value) => MetaItem::U32(*value),
            Value::I32(value) => MetaItem::I32(*value),
            Value::F32(value) => MetaItem::F32(value.to_bits()),
            Value::Bool(value) => MetaItem::Bool(*value),
            Value::String(value) => MetaItem::Text(value.clone()),
            _ => MetaItem::Other,
        }).collect()),
        _ => None,
    }
}

/// Looks a name up in the field `tensor_infos` of `Content`; `block_size` and `type_size` of
/// `GgmlDType` give the layout of a block, which has at least one element.
#[verifier::external_body]
pub(crate) fn tensor_info(content: &Content, name: &str) -> (found: Option<TensorInfo>)
    ensures
        match found {
            Some(info) => {
                &&& header(*content).tensors.contains_key(name@)
                &&& header(*content).tensors[name@] == info@
                &&& info.block_size > 0
            },
            None => !header(*content).tensors.contains_key(name@),
        },
{
    content.tensor_infos.get(name).map(|info| TensorInfo {
        dims: info.shape.dims().to_vec(),
        block_size: info.ggml_dtype.block_size(),
        type_size: info.ggml_dtype.type_size(),
        offset: info.offset,
    })
}

/// The field `tensor_data_offset` of `Content`.
#[verifier::external_body]
pub(crate) fn data_offset(content: &Content) -> (offset: u64)
    ensures
        offset == header(*content).data_offset,
{
    content.tensor_data_offset
}

/// Why a file cannot be read as a model.
pub enum GgufError {
    /// The file declares an alignment of zero.
    ZeroAlignment,
    /// The header is not a valid GGUF header.
    Invalid(candle_core::Error),
}

/// How many zero bytes stand in `file` from `at` on.
fn count_zeros(file: &[u8], at: usize) -> (count: usize)
    requires
        at <= file@.len(),
    ensures
        count == zero_run(file@, at as int),
        at + count <= file@.len(),
{
    let mut end: usize = at;
    while end < file.len() && file[end] == 0
        invariant
            at <= end <= file@.len(),
            zero_run(file@, at as int) == end - at + zero_run(file@, end as int),
        decreases file@.len() - end,
    {
        end += 1;
    }
    end - at
}

/// Whether `key` stands in `file` at `at`.
fn key_at(file: &[u8], key: &[u8], at: usize) -> (found: bool)
    requires
        at + key@.len() <= file@.len(),
    ensures
        found == (file@.subrange(at as int, at + key@.len()) == key@),
{
    let total: usize = file.len();
    let mut i: usize = 0;
    while i < key.len()
        invariant
            i <= key@.len(),
            total == file@.len(),
            at + key@.len() <= total,
            forall|j: int| 0 <= j < i ==> file@[at + j] == key@[j],
        decreases key@.len() - i,
    {
        if file[at + i] != key[i] {
            assert(file@.subrange(at as int, at + key@.len())[i as int] != key@[i as int]);
            return false;
        }
        i += 1;
    }
    assert(file@.subrange(at as int, at + key@.len()) =~= key@);
    true
}

/// The 32-bit number in the four bytes from `at` on.
fn read_u32(file: &[u8], at: usize) -> (number: u32)
    requires
        at + 4 <= file@.len(),
    ensures
        number == u32_at(file@, at as int),
{
    assert(at + 4 <= file.len());
    let low: u32 = file[at] as u32 + 0x100 * (file[at + 1] as u32);
    low + 0x1_0000 * (file[at + 2] as u32) + 0x100_0000 * (file[at + 3] as u32)
}

/// The length in the bytes from `at` on.
fn read_length(file: &[u8], at: usize, wide: bool) -> (number: u64)
    requires
        at + length_width(wide) <= file@.len(),
    ensures
        number == length_at(file@, at as int, wide),
{
    assert(at + 4 <= file.len());
    let low: u64 = read_u32(file, at) as u64;
    if wide {
        low + 0x1_0000_0000 * (read_u32(file, at + 4) as u64)
    } else {
        low
    }
}

/// The place `len` bytes behind `at`, if it lies in the file.
fn skip_bytes(file: &[u8], at: usize, len: u64) -> (end: Option<usize>)
    requires
        at <= file@.len(),
    ensures
        match end {
            Some(end) => within(file@, at + len) == Some(end as int),
            None => within(file@, at + len) is None,
        },
{
    let left: usize = file.len() - at;
    if len <= left as u64 {
        Some(at + len as usize)
    } else {
        None
    }
}

/// Where a string ends that begins at `at`, if the file holds it whole.
fn skip_string(file: &[u8], at: usize, wide: bool) -> (end: Option<usize>)
    requires
        at <= file@.len(),
    ensures
        match end {
            Some(end) => end <= file@.len() && string_end(file@, at as int, wide) == Some(
                end as int,
            ),
            None => string_end(file@, at as int, wide) is None,
        },
{
    let width: u64 = if wide {
        8
    } else {
        4
    };
    match skip_bytes(file, at, width) {
        Some(text) => {
            let len: u64 = read_length(file, at, wide);
            if len <= MAX_LENGTH {
                skip_bytes(file, text, len)
            } else {
                None
            }
        },
        None => None,
    }
}

/// Where a value ends that begins at `at`, if the file holds it whole.
fn skip_value(file: &[u8], at: usize, kind: u32, wide: bool, depth: u32) -> (end: Option<usize>)
    requires
        at <= file@.len(),
    ensures
        match end {
            Some(end) => end <= file@.len() && value_end(
                file@,
                at as int,
                kind as nat,
                wide,
                depth as nat,
            ) == Some(end as int),
            None => value_end(file@, at as int, kind as nat, wide, depth as nat) is None,
        },
    decreases depth, 0int,
{
    let width: u64 = if wide {
        8
    } else {
        4
    };
    if kind <= 1 {
        skip_bytes(file, at, 1)
    } else if kind <= 3 {
        skip_bytes(file, at, 2)
    } else if kind <= 6 {
        skip_bytes(file, at, 4)
    } else if 10 <= kind && kind <= 12 {
        skip_bytes(file, at, 8)
    } else if kind == BOOL_KIND {
        if at < file.len() && file[at] <= 1 {
            Some(at + 1)
        } else {
            None
        }
    } else if kind == STRING_KIND {
        skip_string(file, at, wide)
    } else if kind == ARRAY_KIND {
        match skip_bytes(file, at, 4 + width) {
            Some(first) => {
                let item_kind: u32 = read_u32(file, at);
                let count: u64 = read_length(file, at + 4, wide);
                if item_kind > LAST_KIND || count > MAX_LENGTH {
                    None
                } else if count == 0 {
                    Some(first)
                } else if depth == 0 {
                    None
                } else {
                    skip_items(file, first, item_kind, count, wide, depth - 1)
                }
            },
            None => None,
        }
    } else {
        None
    }
}

/// Where the last of `count` values ends that stand one behind the other from `at` on.
fn skip_items(
    file: &[u8],
    at: usize,
    kind: u32,
    count: u64,
    wide: bool,
    depth: u32,
) -> (end: Option<usize>)
    requires
        at <= file@.len(),
    ensures
        match end {
            Some(end) => end <= file@.len() && items_end(
                file@,
                at as int,
                kind as nat,
                count as nat,
                wide,
                depth as nat,
            ) == Some(end as int),
            None => items_end(
                file@,
                at as int,
                kind as nat,
                count as nat,
                wide,
                depth as nat,
            ) is None,
        },
    decreases depth, 1int,
{
    let mut place: usize = at;
    let mut left: u64 = count;
    while left > 0
        invariant
            place <= file@.len(),
            items_end(file@, at as int, kind as nat, count as nat, wide, depth as nat)
                == items_end(
                file@,
                place as int,
                kind as nat,
                left as nat,
                wide,
                depth as nat,
            ),
        decreases left,
    {
        match skip_value(file, place, kind, wide, depth) {
            Some(next) => {
                place = next;
            },
            None => {
                return None;
            },
        }
        left -= 1;
    }
    Some(place)
}

/// Whether the `len` bytes from `at` on are the key of the alignment.
fn alignment_key_at(file: &[u8], at: usize, len: u64) -> (found: bool)
    requires
        at + len <= file@.len(),
    ensures
        found == is_alignment_key(file@, at as int, len as nat),
{
    assert(at + len <= file.len());
    let key: &[u8] = "general.alignment".as_bytes();
    proof {
        reveal_strlit("general.alignment");
        is_ascii_chars_encode_utf8("general.alignment"@);
        assert(key@ =~= alignment_key());
    }
    if len < 17 {
        return false;
    }
    key_at(file, key, at) && count_zeros(file, at + 17) as u64 >= len - 17
}

/// Where the metadata entry at `at` ends, and whether the alignment is zero after it.
fn read_entry(file: &[u8], at: usize, wide: bool, zero: bool) -> (next: Option<(usize, bool)>)
    requires
        at <= file@.len(),
    ensures
        match next {
            Some((end, zero_after)) => end <= file@.len() && after_entry(
                file@,
                at as int,
                wide,
                zero,
            ) == Some((end as int, zero_after)),
            None => after_entry(file@, at as int, wide, zero) is None,
        },
{
    let kind_at: usize = match skip_string(file, at, wide) {
        Some(kind_at) => kind_at,
        None => return None,
    };
    let len: u64 = read_length(file, at, wide);
    let key: usize = if wide {
        at + 8
    } else {
        at + 4
    };
    let value: usize = match skip_bytes(file, kind_at, 4) {
        Some(value) => value,
        None => return None,
    };
    let kind: u32 = read_u32(file, kind_at);
    let end: usize = match skip_value(file, value, kind, wide, MAX_DEPTH) {
        Some(end) => end,
        None => return None,
    };
    if alignment_key_at(file, key, len) {
        let size: usize = if kind <= 1 {
            1
        } else if kind <= 3 {
            2
        } else {
            4
        };
        Some((end, kind <= 5 && count_zeros(file, value) >= size))
    } else {
        Some((end, zero))
    }
}

/// Where `count` metadata entries from `at` on end, and whether the alignment is zero after
/// them.
fn read_entries(file: &[u8], at: usize, count: u64, wide: bool) -> (next: Option<(usize, bool)>)
    requires
        at <= file@.len(),
    ensures
        match next {
            Some((end, zero)) => end <= file@.len() && after_entries(
                file@,
                at as int,
                count as nat,
                wide,
                false,
            ) == Some((end as int, zero)),
            None => after_entries(file@, at as int, count as nat, wide, false) is None,
        },
{
    let mut left: u64 = count;
    let mut place: usize = at;
    let mut zero: bool = false;
    let ghost goal = after_entries(file@, at as int, count as nat, wide, false);
    while left > 0
        invariant
            place <= file@.len(),
            goal == after_entries(file@, at as int, count as nat, wide, false),
            goal == after_entries(file@, place as int, left as nat, wide, zero),
        decreases left,
    {
        match read_entry(file, place, wide, zero) {
            Some((end, zero_after)) => {
                place = end;
                zero = zero_after;
            },
            None => {
                return None;
            },
        }
        left -= 1;
    }
    Some((place, zero))
}

/// Where the description of a tensor ends that begins at `at`, if the file holds it whole.
fn skip_tensor(file: &[u8], at: usize, wide: bool) -> (end: Option<usize>)
    requires
        at <= file@.len(),
    ensures
        match end {
            Some(end) => end <= file@.len() && tensor_end(file@, at as int, wide) == Some(
                end as int,
            ),
            None => tensor_end(file@, at as int, wide) is None,
        },
{
    let count_at: usize = match skip_string(file, at, wide) {
        Some(count_at) => count_at,
        None => return None,
    };
    let dims_at: usize = match skip_bytes(file, count_at, 4) {
        Some(dims_at) => dims_at,
        None => return None,
    };
    let count: u32 = read_u32(file, count_at);
    if count > MAX_DIMS {
        return None;
    }
    let dims: u64 = if wide {
        count as u64 * 8
    } else {
        count as u64 * 4
    };
    let kind_at: usize = match skip_bytes(file, dims_at, dims) {
        Some(kind_at) => kind_at,
        None => return None,
    };
    let end: usize = match skip_bytes(file, kind_at, 12) {
        Some(end) => end,
        None => return None,
    };
    let kind: u32 = read_u32(file, kind_at);
    if kind <= 3 || (6 <= kind && kind <= 15) || kind == 30 {
        Some(end)
    } else {
        None
    }
}

/// Whether the descriptions of `count` tensors lie whole in the file from `at` on.
fn check_tensors(file: &[u8], at: usize, count: u64, wide: bool) -> (whole: bool)
    requires
        at <= file@.len(),
    ensures
        whole == has_tensors(file@, at as int, count as nat, wide),
{
    let mut left: u64 = count;
    let mut place: usize = at;
    while left > 0
        invariant
            place <= file@.len(),
            has_tensors(file@, at as int, count as nat, wide) == has_tensors(
                file@,
                place as int,
                left as nat,
                wide,
            ),
        decreases left,
    {
        match skip_tensor(file, place, wide) {
            Some(end) => {
                place = end;
            },
            None => {
                return false;
            },
        }
        left -= 1;
    }
    true
}

/// Whether the file has a whole header, and declares in it that its tensors are aligned to a
/// multiple of zero bytes.
pub fn check_zero_alignment(file: &[u8]) -> (declared: bool)
    ensures
        declared == declares_zero_alignment(file@),
{
    if file.len() < 16 {
        return false;
    }
    let letters: u32 = read_u32(file, 0);
    let version: u32 = read_u32(file, 4);
    if (letters != 0x4655_4747 && letters != 0x4747_5546) || version < 1 || version > 3 {
        return false;
    }
    let wide: bool = version != 1;
    let width: usize = if wide {
        8
    } else {
        4
    };
    if file.len() < 8 + 2 * width {
        return false;
    }
    let tensors: u64 = read_length(file, 8, wide);
    let entries: u64 = read_length(file, 8 + width, wide);
    if tensors > MAX_LENGTH || entries > MAX_LENGTH {
        return false;
    }
    match read_entries(file, 8 + 2 * width, entries, wide) {
        Some((end, zero)) => zero && check_tensors(file, end, tensors, wide),
        None => false,
    }
}

/// Reads the header of a model file.
pub fn read_gguf(file: &[u8]) -> (result: Result<Content, GgufError>)
    ensures
        match result {
            Ok(content) => !declares_zero_alignment(file@) && parsed_header(file@) == Some(
                header(content),
            ),
            Err(GgufError::ZeroAlignment) => declares_zero_alignment(file@),
            Err(GgufError::Invalid(_)) => !declares_zero_alignment(file@) && parsed_header(
                file@,
            ) is None,
        },
{
    if check_zero_alignment(file) {
        return Err(GgufError::ZeroAlignment);
    }
    match read_content(file) {
        Ok(content) => Ok(content),
        Err(error) => Err(GgufError::Invalid(error)),
    }
}

/// The bytes from `from` up to `to` are zero.
pub open spec fn zeros(file: Seq<u8>, from: int, to: int) -> bool {
    to <= file.len() && forall|i: int| from <= i < to ==> #[trigger] file[i] == 0
}

/// At `at` stands the key `general.alignment`, of `len` bytes with the zeros behind it, and
/// behind it the number of an integer type and a zero of that type.
pub open spec fn zero_declared_at(file: Seq<u8>, at: int, len: int) -> bool {
    &&& 0 <= at
    &&& 17 <= len
    &&& file.subrange(at, at + 17) == "general.alignment"@.map_values(|c: char| c as u8)
    &&& zeros(file, at + 17, at + len)
    &&& at + len + 4 <= file.len()
    &&& file[at + len] <= 5
    &&& zeros(file, at + len + 1, at + len + 4)
    &&& zeros(
        file,
        at + len + 4,
        at + len + 4 + if file[at + len] <= 1 {
            1
        } else if file[at + len] <= 3 {
            2int
        } else {
            4
        },
    )
}

/// What `zero_run` counts.
proof fn lemma_zero_run(file: Seq<u8>, at: int, n: nat)
    requires
        0 <= at <= file.len(),
        n <= zero_run(file, at),
    ensures
        zeros(file, at, at + n),
    decreases n,
{
    if n > 0 {
        lemma_zero_run(file, at + 1, (n - 1) as nat);
        assert forall|i: int| at <= i < at + n implies #[trigger] file[i] == 0 by {}
    }
}

/// An entry after which the alignment is zero declares it so, or it was zero before.
proof fn lemma_entry_declares(file: Seq<u8>, at: int, wide: bool, zero: bool)
    requires
        0 <= at,
        after_entry(file, at, wide, zero) matches Some((_, true)),
    ensures
        zero || exists|k: int, len: int| zero_declared_at(file, k, len),
{
    let key = at + length_width(wide) as int;
    let len = length_at(file, at, wide) as int;
    let value = key + len + 4;
    let kind = u32_at(file, value - 4);
    reveal_strlit("general.alignment");
    if is_alignment_key(file, key, len as nat) && is_zero(file, value, kind) {
        assert(alignment_key().len() == 17);
        lemma_zero_run(file, key + 17, (len - 17) as nat);
        lemma_zero_run(file, value, fixed_width(kind)->0);
        assert(file[key + len] == kind && file[key + len + 1] == 0 && file[key + len + 2] == 0
            && file[key + len + 3] == 0);
        assert(zeros(file, key + len + 1, key + len + 4));
        assert(zero_declared_at(file, key, len));
    }
}

/// Entries after which the alignment is zero declare it so, or it was zero before.
proof fn lemma_entries_declare(file: Seq<u8>, at: int, count: nat, wide: bool, zero: bool)
    requires
        0 <= at,
        after_entries(file, at, count, wide, zero) matches Some((_, true)),
    ensures
        zero || exists|k: int, len: int| zero_declared_at(file, k, len),
    decreases count,
{
    if count > 0 {
        let (end, after) = after_entry(file, at, wide, zero)->0;
        lemma_value_end(
            file,
            at + length_width(wide) as int + length_at(file, at, wide) + 4,
            u32_at(file, at + length_width(wide) as int + length_at(file, at, wide)),
            wide,
            MAX_DEPTH as nat,
        );
        lemma_entries_declare(file, end, (count - 1) as nat, wide, after);
        if after {
            lemma_entry_declares(file, at, wide, zero);
        }
    }
}

/// A value does not end before it begins.
proof fn lemma_value_end(file: Seq<u8>, at: int, kind: nat, wide: bool, depth: nat)
    ensures
        value_end(file, at, kind, wide, depth) matches Some(end) ==> at <= end,
    decreases depth, 0nat,
{
    if kind == ARRAY_KIND && depth > 0 {
        lemma_items_end(
            file,
            at + 4 + length_width(wide),
            u32_at(file, at),
            length_at(file, at + 4, wide),
            wide,
            (depth - 1) as nat,
        );
    }
}

/// Values do not end before they begin.
proof fn lemma_items_end(file: Seq<u8>, at: int, kind: nat, count: nat, wide: bool, depth: nat)
    ensures
        items_end(file, at, kind, count, wide, depth) matches Some(end) ==> at <= end,
    decreases depth, 1 + count,
{
    if count > 0 {
        lemma_value_end(file, at, kind, wide, depth);
        match value_end(file, at, kind, wide, depth) {
            Some(end) => {
                lemma_items_end(file, end, kind, (count - 1) as nat, wide, depth);
            },
            None => {},
        }
    }
}

/// A file is refused for its alignment only if it opens with the letters of the format and
/// holds the key of the alignment with a zero behind it: any other file is read.
pub proof fn law_only_declared_zeros_are_refused(file: Seq<u8>)
    requires
        declares_zero_alignment(file),
    ensures
        file.len() >= 16,
        file.take(4) == seq![0x47u8, 0x47, 0x55, 0x46] || file.take(4) == seq![
            0x46u8,
            0x55,
            0x47,
            0x47,
        ],
        exists|at: int, len: int| zero_declared_at(file, at, len),
{
    let wide = u32_at(file, 4) != 1;
    let width = length_width(wide) as int;
    lemma_entries_declare(
        file,
        8 + 2 * width,
        length_at(file, 8 + width, wide),
        wide,
        false,
    );
    assert(file.take(4) =~= seq![file[0], file[1], file[2], file[3]]);
    if u32_at(file, 0) == 0x4655_4747 {
        assert(file[0] == 0x47 && file[1] == 0x47 && file[2] == 0x55 && file[3] == 0x46);
    } else {
        assert(file[0] == 0x46 && file[1] == 0x55 && file[2] == 0x47 && file[3] == 0x47);
    }
}

/// An entry with the key of the alignment decides by itself, whatever entries before it said;
/// an entry with a key of other letters changes nothing.
pub proof fn law_the_last_alignment_counts(file: Seq<u8>, at: int, wide: bool, zero: bool)
    requires
        after_entry(file, at, wide, zero) is Some,
    ensures
        ({
            let width = if wide {
                8int
            } else {
                4
            };
            let name = file.subrange(at + width, at + width + 17);
            let len = length_at(file, at, wide);
            let letters = "general.alignment"@.map_values(|c: char| c as u8);
            &&& len == 17 && name == letters ==> after_entry(file, at, wide, zero) == after_entry(
                file,
                at,
                wide,
                !zero,
            )
            &&& len < 17 || name != letters ==> (after_entry(file, at, wide, zero)->0).1 == zero
        }),
{
    reveal_strlit("general.alignment");
}

/// Entries are read one after the other: what holds after all of them is what holds after the
/// last ones, begun with what holds after the first.
pub proof fn law_entries_are_read_in_order(
    file: Seq<u8>,
    at: int,
    first: nat,
    second: nat,
    wide: bool,
    zero: bool,
)
    ensures
        after_entries(file, at, first + second, wide, zero) == match after_entries(
            file,
            at,
            first,
            wide,
            zero,
        ) {
            Some((end, after)) => after_entries(file, end, second, wide, after),
            None => None,
        },
        after_entries(file, at, 1, wide, zero) == after_entry(file, at, wide, zero),
        after_entries(file, at, 0, wide, zero) == Some((at, zero)),
    decreases first,
{
    reveal_with_fuel(after_entries, 2);
    if first > 0 {
        match after_entry(file, at, wide, zero) {
            Some((end, after)) => {
                law_entries_are_read_in_order(file, end, (first - 1) as nat, second, wide, after);
            },
            None => {},
        }
    }
}

/// A file of version two or three without tensors, whose only entry declares an alignment of
/// zero in a type of at most four bytes, is refused, whatever follows.
pub proof fn law_a_declared_zero_is_refused(file: Seq<u8>, version: u8, kind: u8, rest: Seq<u8>)
    requires
        version == 2 || version == 3,
        kind <= 5,
        file == seq![0x47u8, 0x47, 0x55, 0x46, version, 0, 0, 0] + seq![
            0u8,
            0,
            0,
            0,
            0,
            0,
            0,
            0,
            1,
            0,
            0,
            0,
            0,
            0,
            0,
            0,
            17,
            0,
            0,
            0,
            0,
            0,
            0,
            0,
        ] + "general.alignment"@.map_values(|c: char| c as u8) + seq![kind, 0, 0, 0, 0, 0, 0, 0]
            + rest,
    ensures
        declares_zero_alignment(file),
{
    reveal_strlit("general.alignment");
    assert(file.len() == 57 + rest.len());
    assert(file[4] == version);
    assert(u32_at(file, 0) == 0x4655_4747);
    assert(u32_at(file, 4) == version);
    assert(length_at(file, 8, true) == 0);
    assert(length_at(file, 16, true) == 1);
    assert(length_at(file, 24, true) == 17);
    assert(file.subrange(32, 49) =~= alignment_key());
    assert(u32_at(file, 49) == kind);
    reveal_with_fuel(zero_run, 5);
    assert(file[53] == 0 && file[54] == 0 && file[55] == 0 && file[56] == 0);
    assert(zero_run(file, 53) >= 4);
    assert(after_entry(file, 24, true, false) is Some);
    assert((after_entry(file, 24, true, false)->0).1);
    law_entries_are_read_in_order(file, 24, 0, 1, true, false);
}

} // verus!
