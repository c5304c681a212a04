//! The shape of a Gemma model: what its metadata say of the whole model, and what follows for
//! each layer.

use candle_core::quantized::gguf_file::Content;
use vstd::prelude::*;

use crate::gguf::{header, item_views, metadata_array, metadata_item, metadata_shown};
use crate::gguf::{HeaderView, ItemView, MetaItem, MetaView};

verus! {

/// How many positions the rotary tables cover at most, whatever the model declares.
pub const MAX_SEQ_LEN: u32 = 8192;

/// The width of a per-layer embedding that a model does not declare.
pub const DEFAULT_PLE_LEN: u32 = 256;

/// The width of an attention head that no normalization declares.
pub const DEFAULT_HEAD_DIM: usize = 256;

/// The rotary base frequency 1 000 000, as the bits of a 32-bit float.
pub const DEFAULT_ROPE_FREQUENCY: u32 = 0x4974_2400;

/// The rotary base frequency 10 000 of sliding layers, as the bits of a 32-bit float.
pub const DEFAULT_ROPE_FREQUENCY_SLIDING: u32 = 0x461c_4000;

/// What is wrong with the metadata: a key that is missing, or a key and the value of another
/// type that was found under it.
pub enum ConfigProblem {
    Missing(Seq<char>),
    NotU32(Seq<char>, Seq<char>),
    NotF32(Seq<char>, Seq<char>),
}

/// What is wrong with the metadata: a key that is missing, or a key and the value of another
/// type that was found under it.
#[derive(Debug, Clone, PartialEq, Eq)]
pub enum ConfigError {
    Missing(String),
    NotU32(String, String),
    NotF32(String, String),
}

impl View for ConfigError {
    type V = ConfigProblem;

    open spec fn view(&self) -> ConfigProblem {
        match self {
            ConfigError::Missing(key) => ConfigProblem::Missing(key@),
            ConfigError::NotU32(key, found) => ConfigProblem::NotU32(key@, found@),
            ConfigError::NotF32(key, found) => ConfigProblem::NotF32(key@, found@),
        }
    }
}

impl ConfigError {
    /// The error as a text.
    pub fn message(&self) -> (text: String)
        ensures
            text@ == match self@ {
                ConfigProblem::Missing(key) => "cannot find "@ + key + " in metadata"@,
                ConfigProblem::NotU32(_, found) => "not a u32 "@ + found,
                ConfigProblem::NotF32(_, found) => "not a f32 "@ + found,
            },
    {
        match self {
            ConfigError::Missing(key) => {
                let mut text: String = "cannot find ".to_owned();
                text.append(key.as_str());
                text.append(" in metadata");
                text
            },
            ConfigError::NotU32(_, found) => {
                let mut text: String = "not a u32 ".to_owned();
                text.append(found.as_str());
                text
            },
            ConfigError::NotF32(_, found) => {
                let mut text: String = "not a f32 ".to_owned();
                text.append(found.as_str());
                text
            },
        }
    }
}

/// A key under the name of an architecture.
pub open spec fn meta_key(prefix: Seq<char>, name: Seq<char>) -> Seq<char> {
    prefix + "."@ + name
}

/// The metadata name the number of attention heads under this architecture.
pub open spec fn has_heads(meta: Map<Seq<char>, MetaView>, prefix: Seq<char>) -> bool {
    meta.contains_key(meta_key(prefix, "attention.head_count"@))
}

/// The architecture of the model: the first of the known ones that the metadata name.
pub open spec fn architecture(meta: Map<Seq<char>, MetaView>) -> Seq<char> {
    if has_heads(meta, "gemma4"@) {
        "gemma4"@
    } else if has_heads(meta, "gemma3"@) {
        "gemma3"@
    } else if has_heads(meta, "gemma2"@) {
        "gemma2"@
    } else if has_heads(meta, "gemma"@) {
        "gemma"@
    } else if has_heads(meta, "gemma-embedding"@) {
        "gemma-embedding"@
    } else {
        "gemma4"@
    }
}

/// The unsigned 32-bit integer under a key.
pub open spec fn u32_of(meta: Map<Seq<char>, MetaView>, key: Seq<char>) -> Option<u32> {
    if meta.contains_key(key) {
        match meta[key] {
            MetaView::Item(ItemView::U32(value)) => Some(value),
            _ => None,
        }
    } else {
        None
    }
}

/// The bits of the 32-bit float under a key.
pub open spec fn f32_of(meta: Map<Seq<char>, MetaView>, key: Seq<char>) -> Option<u32> {
    if meta.contains_key(key) {
        match meta[key] {
            MetaView::Item(ItemView::F32(bits)) => Some(bits),
            _ => None,
        }
    } else {
        None
    }
}

/// What keeps the value under a key from being an unsigned 32-bit integer.
pub open spec fn u32_problem(head: HeaderView, key: Seq<char>) -> Option<ConfigProblem> {
    if !head.metadata.contains_key(key) {
        Some(ConfigProblem::Missing(key))
    } else if u32_of(head.metadata, key) is None {
        Some(ConfigProblem::NotU32(key, head.shown[key]))
    } else {
        None
    }
}

/// What keeps the value under a key from being a 32-bit float.
pub open spec fn f32_problem(head: HeaderView, key: Seq<char>) -> Option<ConfigProblem> {
    if !head.metadata.contains_key(key) {
        Some(ConfigProblem::Missing(key))
    } else if f32_of(head.metadata, key) is None {
        Some(ConfigProblem::NotF32(key, head.shown[key]))
    } else {
        None
    }
}

/// The first thing that is wrong with what a model must declare.
pub open spec fn first_problem(head: HeaderView) -> Option<ConfigProblem> {
    let p = architecture(head.metadata);
    let head_count = u32_problem(head, meta_key(p, "attention.head_count"@));
    let head_count_kv = u32_problem(head, meta_key(p, "attention.head_count_kv"@));
    let block_count = u32_problem(head, meta_key(p, "block_count"@));
    let embedding_length = u32_problem(head, meta_key(p, "embedding_length"@));
    let key_length = u32_problem(head, meta_key(p, "attention.key_length"@));
    let value_length = u32_problem(head, meta_key(p, "attention.value_length"@));
    let epsilon = f32_problem(head, meta_key(p, "attention.layer_norm_rms_epsilon"@));
    let sliding_window = u32_problem(head, meta_key(p, "attention.sliding_window"@));
    if head_count is Some {
        head_count
    } else if head_count_kv is Some {
        head_count_kv
    } else if block_count is Some {
        block_count
    } else if embedding_length is Some {
        embedding_length
    } else if key_length is Some {
        key_length
    } else if value_length is Some {
        value_length
    } else if epsilon is Some {
        epsilon
    } else {
        sliding_window
    }
}

/// The flags in an array: booleans, and integers that are zero or not. Other items do not
/// count.
pub open spec fn flags(items: Seq<ItemView>) -> Seq<bool>
    decreases items.len(),
{
    if items.len() == 0 {
        seq![]
    } else {
        match items.last() {
            ItemView::Bool(value) => flags(items.drop_last()).push(value),
            ItemView::I32(value) => flags(items.drop_last()).push(value != 0),
            _ => flags(items.drop_last()),
        }
    }
}

/// The flags under a key; none where there is no array.
pub open spec fn flags_of(meta: Map<Seq<char>, MetaView>, key: Seq<char>) -> Seq<bool> {
    if meta.contains_key(key) {
        match meta[key] {
            MetaView::Array(items) => flags(items),
            MetaView::Item(_) => seq![],
        }
    } else {
        seq![]
    }
}

/// A value, or what stands in for it.
pub open spec fn or_default(value: Option<u32>, default: u32) -> u32 {
    match value {
        Some(value) => value,
        None => default,
    }
}

/// What a `ModelConfig` says.
pub struct ConfigView {
    pub block_count: u32,
    pub shared_kv_layers: u32,
    pub embedding_length: u32,
    pub rms_norm_eps: u32,
    pub sliding_window: u32,
    pub sliding_pattern: Seq<bool>,
    pub rope_frequency: u32,
    pub rope_frequency_sliding: u32,
    pub max_seq_len: u32,
    pub rope_dim: u32,
    pub rope_dim_sliding: u32,
    pub ple_len: u32,
}

/// The base frequency of sliding layers: the local one where it is declared at all, else
/// the one for sliding windows, else the usual one.
pub open spec fn sliding_frequency(meta: Map<Seq<char>, MetaView>, p: Seq<char>) -> u32 {
    let local = meta_key(p, "rope.local_freq_base"@);
    if meta.contains_key(local) {
        or_default(f32_of(meta, local), DEFAULT_ROPE_FREQUENCY_SLIDING)
    } else {
        or_default(
            f32_of(meta, meta_key(p, "rope.freq_base_swa"@)),
            DEFAULT_ROPE_FREQUENCY_SLIDING,
        )
    }
}

/// How many dimensions of a head are rotated: as declared under one of two keys, else all.
pub open spec fn rotated_dims(meta: Map<Seq<char>, MetaView>, p: Seq<char>) -> u32 {
    match u32_of(meta, meta_key(p, "rope.dimension"@)) {
        Some(dim) => dim,
        None => match u32_of(meta, meta_key(p, "rope.dimension_count"@)) {
            Some(dim) => dim,
            None => or_default(u32_of(meta, meta_key(p, "attention.key_length"@)), 0),
        },
    }
}

/// What complete metadata say of a model.
pub open spec fn config_of(meta: Map<Seq<char>, MetaView>) -> ConfigView {
    let p = architecture(meta);
    let context_length = or_default(u32_of(meta, meta_key(p, "context_length"@)), MAX_SEQ_LEN);
    ConfigView {
        block_count: or_default(u32_of(meta, meta_key(p, "block_count"@)), 0),
        shared_kv_layers: or_default(u32_of(meta, meta_key(p, "attention.shared_kv_layers"@)), 0),
        embedding_length: or_default(u32_of(meta, meta_key(p, "embedding_length"@)), 0),
        rms_norm_eps: or_default(f32_of(meta, meta_key(p, "attention.layer_norm_rms_epsilon"@)), 0),
        sliding_window: or_default(u32_of(meta, meta_key(p, "attention.sliding_window"@)), 0),
        sliding_pattern: flags_of(meta, meta_key(p, "attention.sliding_window_pattern"@)),
        rope_frequency: or_default(
            f32_of(meta, meta_key(p, "rope.freq_base"@)),
            DEFAULT_ROPE_FREQUENCY,
        ),
        rope_frequency_sliding: sliding_frequency(meta, p),
        max_seq_len: if context_length < MAX_SEQ_LEN {
            context_length
        } else {
            MAX_SEQ_LEN
        },
        rope_dim: rotated_dims(meta, p),
        rope_dim_sliding: or_default(
            u32_of(meta, meta_key(p, "rope.dimension_count_swa"@)),
            rotated_dims(meta, p) / 2,
        ),
        ple_len: or_default(
            u32_of(meta, meta_key(p, "embedding_length_per_layer_input"@)),
            DEFAULT_PLE_LEN,
        ),
    }
}

/// The shape of a model. Floats are held as their bits.
#[derive(Debug, Clone, PartialEq, Eq)]
pub struct ModelConfig {
    pub block_count: u32,
    pub shared_kv_layers: u32,
    pub embedding_length: u32,
    pub rms_norm_eps: u32,
    pub sliding_window: u32,
    pub sliding_pattern: Vec<bool>,
    pub rope_frequency: u32,
    pub rope_frequency_sliding: u32,
    pub max_seq_len: u32,
    pub rope_dim: u32,
    pub rope_dim_sliding: u32,
    pub ple_len: u32,
}

impl View for ModelConfig {
    type V = ConfigView;

    open spec fn view(&self) -> ConfigView {
        ConfigView {
            block_count: self.block_count,
            shared_kv_layers: self.shared_kv_layers,
            embedding_length: self.embedding_length,
            rms_norm_eps: self.rms_norm_eps,
            sliding_window: self.sliding_window,
            sliding_pattern: self.sliding_pattern@,
            rope_frequency: self.rope_frequency,
            rope_frequency_sliding: self.rope_frequency_sliding,
            max_seq_len: self.max_seq_len,
            rope_dim: self.rope_dim,
            rope_dim_sliding: self.rope_dim_sliding,
            ple_len: self.ple_len,
        }
    }
}

/// A key under the name of an architecture.
fn full_key(prefix: &str, name: &str) -> (key: String)
    ensures
        key@ == meta_key(prefix@, name@),
{
    let mut key: String = prefix.to_owned();
    key.append(".");
    key.append(name);
    key
}

fn names_heads(content: &Content, prefix: &str) -> (named: bool)
    ensures
        named == has_heads(header(*content).metadata, prefix@),
{
    let key: String = full_key(prefix, "attention.head_count");
    metadata_item(content, key.as_str()).is_some()
}

/// The architecture of the model.
fn find_architecture(content: &Content) -> (prefix: &'static str)
    ensures
        prefix@ == architecture(header(*content).metadata),
{
    if names_heads(content, "gemma4") {
        "gemma4"
    } else if names_heads(content, "gemma3") {
        "gemma3"
    } else if names_heads(content, "gemma2") {
        "gemma2"
    } else if names_heads(content, "gemma") {
        "gemma"
    } else if names_heads(content, "gemma-embedding") {
        "gemma-embedding"
    } else {
        "gemma4"
    }
}

fn require_u32(content: &Content, prefix: &str, name: &str) -> (result: Result<u32, ConfigError>)
    ensures
        ({
            let head = header(*content);
            let key = meta_key(prefix@, name@);
            match result {
                Ok(value) => u32_problem(head, key) is None && u32_of(head.metadata, key) == Some(
                    value,
                ),
                Err(error) => u32_problem(head, key) == Some(error@),
            }
        }),
{
    let key: String = full_key(prefix, name);
    match metadata_item(content, key.as_str()) {
        None => Err(ConfigError::Missing(key)),
        Some(MetaItem::U32(value)) => Ok(value),
        Some(_) => match metadata_shown(content, key.as_str()) {
            Some(found) => Err(ConfigError::NotU32(key, found)),
            None => Err(ConfigError::Missing(key)),
        },
    }
}

fn require_f32(content: &Content, prefix: &str, name: &str) -> (result: Result<u32, ConfigError>)
    ensures
        ({
            let head = header(*content);
            let key = meta_key(prefix@, name@);
            match result {
                Ok(bits) => f32_problem(head, key) is None && f32_of(head.metadata, key) == Some(
                    bits,
                ),
                Err(error) => f32_problem(head, key) == Some(error@),
            }
        }),
{
    let key: String = full_key(prefix, name);
    match metadata_item(content, key.as_str()) {
        None => Err(ConfigError::Missing(key)),
        Some(MetaItem::F32(bits)) => Ok(bits),
        Some(_) => match metadata_shown(content, key.as_str()) {
            Some(found) => Err(ConfigError::NotF32(key, found)),
            None => Err(ConfigError::Missing(key)),
        },
    }
}

fn optional_u32(content: &Content, prefix: &str, name: &str) -> (value: Option<u32>)
    ensures
        value == u32_of(header(*content).metadata, meta_key(prefix@, name@)),
{
    let key: String = full_key(prefix, name);
    match metadata_item(content, key.as_str()) {
        Some(MetaItem::U32(value)) => Some(value),
        _ => None,
    }
}

fn optional_f32(content: &Content, prefix: &str, name: &str) -> (bits: Option<u32>)
    ensures
        bits == f32_of(header(*content).metadata, meta_key(prefix@, name@)),
{
    let key: String = full_key(prefix, name);
    match metadata_item(content, key.as_str()) {
        Some(MetaItem::F32(bits)) => Some(bits),
        _ => None,
    }
}

/// The flags in an array.
fn collect_flags(items: &Vec<MetaItem>) -> (list: Vec<bool>)
    ensures
        list@ == flags(item_views(items@)),
{
    let mut list: Vec<bool> = Vec::new();
    let ghost all = item_views(items@);
    let mut i: usize = 0;
    while i < items.len()
        invariant
            i <= items.len(),
            all == item_views(items@),
            list@ == flags(all.take(i as int)),
        decreases items.len() - i,
    {
        proof {
            assert(all.take(i + 1).drop_last() =~= all.take(i as int));
            assert(all.take(i + 1).last() == items@[i as int]@);
        }
        match &items[i] {
            MetaItem::Bool(value) => {
                list.push(*value);
            },
            MetaItem::I32(value) => {
                list.push(*value != 0);
            },
            _ => {},
        }
        i += 1;
    }
    assert(all.take(items.len() as int) =~= all);
    list
}

fn read_flags(content: &Content, prefix: &str, name: &str) -> (list: Vec<bool>)
    ensures
        list@ == flags_of(header(*content).metadata, meta_key(prefix@, name@)),
{
    let key: String = full_key(prefix, name);
    match metadata_array(content, key.as_str()) {
        Some(items) => collect_flags(&items),
        None => Vec::new(),
    }
}

impl ModelConfig {
    /// Reads the shape of a model from its header.
    pub fn from_gguf(content: &Content) -> (result: Result<ModelConfig, ConfigError>)
        ensures
            ({
                let head = header(*content);
                match result {
                    Ok(config) => first_problem(head) is None && config@ == config_of(
                        head.metadata,
                    ),
                    Err(error) => first_problem(head) == Some(error@),
                }
            }),
    {
        let prefix: &str = find_architecture(content);
        match require_u32(content, prefix, "attention.head_count") {
            Ok(_) => {},
            Err(error) => return Err(error),
        }
        match require_u32(content, prefix, "attention.head_count_kv") {
            Ok(_) => {},
            Err(error) => return Err(error),
        }
        let block_count: u32 = match require_u32(content, prefix, "block_count") {
            Ok(value) => value,
            Err(error) => return Err(error),
        };
        let shared_kv_layers: u32 = match optional_u32(
            content,
            prefix,
            "attention.shared_kv_layers",
        ) {
            Some(value) => value,
            None => 0,
        };
        let embedding_length: u32 = match require_u32(content, prefix, "embedding_length") {
            Ok(value) => value,
            Err(error) => return Err(error),
        };
        let key_length: u32 = match require_u32(content, prefix, "attention.key_length") {
            Ok(value) => value,
            Err(error) => return Err(error),
        };
        match require_u32(content, prefix, "attention.value_length") {
            Ok(_) => {},
            Err(error) => return Err(error),
        }
        let rms_norm_eps: u32 = match require_f32(
            content,
            prefix,
            "attention.layer_norm_rms_epsilon",
        ) {
            Ok(bits) => bits,
            Err(error) => return Err(error),
        };
        let sliding_window: u32 = match require_u32(content, prefix, "attention.sliding_window") {
            Ok(value) => value,
            Err(error) => return Err(error),
        };
        let sliding_pattern: Vec<bool> = read_flags(
            content,
            prefix,
            "attention.sliding_window_pattern",
        );
        let rope_frequency: u32 = match optional_f32(content, prefix, "rope.freq_base") {
            Some(bits) => bits,
            None => DEFAULT_ROPE_FREQUENCY,
        };
        let local: Option<MetaItem> = metadata_item(
            content,
            full_key(prefix, "rope.local_freq_base").as_str(),
        );
        let rope_frequency_sliding: u32 = match local {
            Some(MetaItem::F32(bits)) => bits,
            Some(_) => DEFAULT_ROPE_FREQUENCY_SLIDING,
            None => match optional_f32(content, prefix, "rope.freq_base_swa") {
                Some(bits) => bits,
                None => DEFAULT_ROPE_FREQUENCY_SLIDING,
            },
        };
        let context_length: u32 = match optional_u32(content, prefix, "context_length") {
            Some(value) => value,
            None => MAX_SEQ_LEN,
        };
        let max_seq_len: u32 = if context_length < MAX_SEQ_LEN {
            context_length
        } else {
            MAX_SEQ_LEN
        };
        let rope_dim: u32 = match optional_u32(content, prefix, "rope.dimension") {
            Some(dim) => dim,
            None => match optional_u32(content, prefix, "rope.dimension_count") {
                Some(dim) => dim,
                None => key_length,
            },
        };
        let rope_dim_sliding: u32 = match optional_u32(
            content,
            prefix,
            "rope.dimension_count_swa",
        ) {
            Some(dim) => dim,
            None => rope_dim / 2,
        };
        let ple_len: u32 = match optional_u32(
            content,
            prefix,
            "embedding_length_per_layer_input",
        ) {
            Some(len) => len,
            None => DEFAULT_PLE_LEN,
        };
        Ok(
            ModelConfig {
                block_count,
                shared_kv_layers,
                embedding_length,
                rms_norm_eps,
                sliding_window,
                sliding_pattern,
                rope_frequency,
                rope_frequency_sliding,
                max_seq_len,
                rope_dim,
                rope_dim_sliding,
                ple_len,
            },
        )
    }
}

/// Whatever length a model declares, the rotary tables stay within their cap.
pub proof fn law_rotary_tables_are_capped(meta: Map<Seq<char>, MetaView>)
    ensures
        config_of(meta).max_seq_len <= MAX_SEQ_LEN,
        u32_of(meta, meta_key(architecture(meta), "context_length"@)) matches Some(length)
            ==> length <= MAX_SEQ_LEN ==> config_of(meta).max_seq_len == length,
{
}

/// A number is what stands under its key as an unsigned 32-bit integer, or, as bits, as a
/// 32-bit float, and nothing else.
pub proof fn law_numbers_are_read_by_their_type(
    meta: Map<Seq<char>, MetaView>,
    key: Seq<char>,
    value: u32,
)
    ensures
        u32_of(meta, key) == Some(value) <==> meta.contains_pair(
            key,
            MetaView::Item(ItemView::U32(value)),
        ),
        f32_of(meta, key) == Some(value) <==> meta.contains_pair(
            key,
            MetaView::Item(ItemView::F32(value)),
        ),
{
}

/// The architecture is the first of the five known ones under which the number of attention
/// heads is declared; the first of all where it is declared under none.
pub proof fn law_the_first_known_architecture_counts(meta: Map<Seq<char>, MetaView>, i: int)
    requires
        0 <= i < 5,
    ensures
        ({
            let known = seq!["gemma4"@, "gemma3"@, "gemma2"@, "gemma"@, "gemma-embedding"@];
            let declared = |k: int|
                meta.contains_key(known[k] + "."@ + "attention.head_count"@);
            &&& declared(i) && (forall|k: int| 0 <= k < i ==> !#[trigger] declared(k))
                ==> architecture(meta) == known[i]
            &&& (forall|k: int| 0 <= k < 5 ==> !#[trigger] declared(k)) ==> architecture(meta)
                == "gemma4"@
        }),
{
    let known = seq!["gemma4"@, "gemma3"@, "gemma2"@, "gemma"@, "gemma-embedding"@];
    let declared = |k: int| meta.contains_key(known[k] + "."@ + "attention.head_count"@);
    assert(declared(0) == has_heads(meta, "gemma4"@));
    assert(declared(1) == has_heads(meta, "gemma3"@));
    assert(declared(2) == has_heads(meta, "gemma2"@));
    assert(declared(3) == has_heads(meta, "gemma"@));
    assert(declared(4) == has_heads(meta, "gemma-embedding"@));
}

/// The numbers that a model declares are taken as they stand under their keys, but for its
/// length, of which no more than 8192 is used.
pub proof fn law_declared_numbers_are_taken(meta: Map<Seq<char>, MetaView>, n: u32)
    ensures
        ({
            let config = config_of(meta);
            let p = architecture(meta) + "."@;
            let declares = |name: Seq<char>| u32_of(meta, p + name) == Some(n);
            &&& declares("block_count"@) ==> config.block_count == n
            &&& declares("attention.shared_kv_layers"@) ==> config.shared_kv_layers == n
            &&& declares("embedding_length"@) ==> config.embedding_length == n
            &&& declares("attention.sliding_window"@) ==> config.sliding_window == n
            &&& declares("rope.dimension"@) ==> config.rope_dim == n
            &&& declares("rope.dimension_count"@) && u32_of(meta, p + "rope.dimension"@) is None
                ==> config.rope_dim == n
            &&& declares("attention.key_length"@) && u32_of(meta, p + "rope.dimension"@) is None
                && u32_of(meta, p + "rope.dimension_count"@) is None ==> config.rope_dim == n
            &&& declares("rope.dimension_count_swa"@) ==> config.rope_dim_sliding == n
            &&& declares("embedding_length_per_layer_input"@) ==> config.ple_len == n
            &&& declares("context_length"@) && n <= 8192 ==> config.max_seq_len == n
            &&& declares("context_length"@) && n > 8192 ==> config.max_seq_len == 8192
        }),
{
}

/// The floats that a model declares are taken as they stand under their keys; the frequency of
/// sliding layers has two keys, of which the local one, where it is there at all, hides the
/// other.
pub proof fn law_declared_floats_are_taken(meta: Map<Seq<char>, MetaView>, bits: u32)
    ensures
        ({
            let config = config_of(meta);
            let p = architecture(meta) + "."@;
            let declares = |name: Seq<char>| f32_of(meta, p + name) == Some(bits);
            &&& declares("attention.layer_norm_rms_epsilon"@) ==> config.rms_norm_eps == bits
            &&& declares("rope.freq_base"@) ==> config.rope_frequency == bits
            &&& declares("rope.local_freq_base"@) ==> config.rope_frequency_sliding == bits
            &&& declares("rope.freq_base_swa"@) && !meta.contains_key(
                p + "rope.local_freq_base"@,
            ) ==> config.rope_frequency_sliding == bits
        }),
{
}

/// What a model does not declare has a usual value: no layers that share, no pattern, 8192
/// positions, parts of 256 elements, half of the rotated dimensions in sliding layers, and the
/// base frequencies 1 000 000 and 10 000, here as their bits.
pub proof fn law_undeclared_values_are_usual(meta: Map<Seq<char>, MetaView>)
    ensures
        ({
            let config = config_of(meta);
            let p = architecture(meta) + "."@;
            let lacks = |name: Seq<char>| u32_of(meta, p + name) is None;
            &&& lacks("attention.shared_kv_layers"@) ==> config.shared_kv_layers == 0
            &&& lacks("context_length"@) ==> config.max_seq_len == 8192
            &&& lacks("embedding_length_per_layer_input"@) ==> config.ple_len == 256
            &&& lacks("rope.dimension_count_swa"@) ==> config.rope_dim_sliding == config.rope_dim
                / 2
            &&& f32_of(meta, p + "rope.freq_base"@) is None ==> config.rope_frequency
                == 0x4974_2400
            &&& f32_of(meta, p + "rope.local_freq_base"@) is None && (meta.contains_key(
                p + "rope.local_freq_base"@,
            ) || f32_of(meta, p + "rope.freq_base_swa"@) is None)
                ==> config.rope_frequency_sliding == 0x461c_4000
            &&& !meta.contains_key(p + "attention.sliding_window_pattern"@)
                ==> config.sliding_pattern == Seq::<bool>::empty()
        }),
{
}

/// The pattern of a model holds a flag for each item that is a truth value, or an integer,
/// which says whether it is not zero; it keeps their order and passes everything else over.
pub proof fn law_the_pattern_is_read_item_by_item(
    meta: Map<Seq<char>, MetaView>,
    a: Seq<ItemView>,
    b: Seq<ItemView>,
    item: ItemView,
)
    ensures
        meta.contains_pair(
            architecture(meta) + "."@ + "attention.sliding_window_pattern"@,
            MetaView::Array(a),
        ) ==> config_of(meta).sliding_pattern == flags(a),
        flags(a + b) == flags(a) + flags(b),
        flags(seq![item]) == match item {
            ItemView::Bool(value) => seq![value],
            ItemView::I32(value) => seq![value != 0],
            _ => seq![],
        },
    decreases b.len(),
{
    let one = seq![item];
    assert(one.drop_last().len() == 0);
    assert(flags(one.drop_last()) =~= Seq::<bool>::empty());
    match item {
        ItemView::Bool(value) => {
            assert(flags(one) =~= seq![value]);
        },
        ItemView::I32(value) => {
            assert(flags(one) =~= seq![value != 0]);
        },
        _ => {},
    }
    if b.len() == 0 {
        assert(a + b =~= a);
        assert(flags(a) + flags(b) =~= flags(a));
    } else {
        law_the_pattern_is_read_item_by_item(meta, a, b.drop_last(), item);
        assert((a + b).drop_last() =~= a + b.drop_last());
        assert(flags(a + b) =~= flags(a) + flags(b));
    }
}

/// Eight values must be declared, all but the seventh as integers. The first one that is not
/// is reported: as missing, or with what was found in its place. Where all are, nothing is.
pub proof fn law_the_first_wrong_value_is_reported(head: HeaderView, i: int)
    requires
        0 <= i < 8,
    ensures
        ({
            let meta = head.metadata;
            let p = architecture(meta) + "."@;
            let keys = seq![
                p + "attention.head_count"@,
                p + "attention.head_count_kv"@,
                p + "block_count"@,
                p + "embedding_length"@,
                p + "attention.key_length"@,
                p + "attention.value_length"@,
                p + "attention.layer_norm_rms_epsilon"@,
                p + "attention.sliding_window"@,
            ];
            let fine = |k: int|
                if k == 6 {
                    f32_of(meta, keys[k]) is Some
                } else {
                    u32_of(meta, keys[k]) is Some
                };
            &&& (forall|k: int| 0 <= k < 8 ==> #[trigger] fine(k)) ==> first_problem(head) is None
            &&& (forall|k: int| 0 <= k < i ==> #[trigger] fine(k)) && !fine(i) ==> first_problem(
                head,
            ) == if !meta.contains_key(keys[i]) {
                Some(ConfigProblem::Missing(keys[i]))
            } else if i == 6 {
                Some(ConfigProblem::NotF32(keys[i], head.shown[keys[i]]))
            } else {
                Some(ConfigProblem::NotU32(keys[i], head.shown[keys[i]]))
            }
        }),
{
    let meta = head.metadata;
    let p = architecture(meta) + "."@;
    let keys = seq![
        p + "attention.head_count"@,
        p + "attention.head_count_kv"@,
        p + "block_count"@,
        p + "embedding_length"@,
        p + "attention.key_length"@,
        p + "attention.value_length"@,
        p + "attention.layer_norm_rms_epsilon"@,
        p + "attention.sliding_window"@,
    ];
    let fine = |k: int|
        if k == 6 {
            f32_of(meta, keys[k]) is Some
        } else {
            u32_of(meta, keys[k]) is Some
        };
    let a = architecture(meta);
    assert(fine(0) == (u32_problem(head, meta_key(a, "attention.head_count"@)) is None));
    assert(fine(1) == (u32_problem(head, meta_key(a, "attention.head_count_kv"@)) is None));
    assert(fine(2) == (u32_problem(head, meta_key(a, "block_count"@)) is None));
    assert(fine(3) == (u32_problem(head, meta_key(a, "embedding_length"@)) is None));
    assert(fine(4) == (u32_problem(head, meta_key(a, "attention.key_length"@)) is None));
    assert(fine(5) == (u32_problem(head, meta_key(a, "attention.value_length"@)) is None));
    assert(fine(6) == (f32_problem(head, meta_key(a, "attention.layer_norm_rms_epsilon"@))
        is None));
    assert(fine(7) == (u32_problem(head, meta_key(a, "attention.sliding_window"@)) is None));
}

} // verus!
