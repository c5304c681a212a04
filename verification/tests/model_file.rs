use candle_core::quantized::gguf_file::{self, Content, Value};
use candle_core::quantized::{GgmlDType, QTensor};
use candle_core::{Device, Tensor};
use pocket_core::config::{ConfigError, ModelConfig};
use pocket_core::embedding::{layer_embedding, shared_embedding, token_embedding};
use pocket_core::embedding::{CustomEmbedding, IndexError, TableError};
use pocket_core::gguf::{check_zero_alignment, read_gguf, GgufError};
use pocket_core::layers::{layer_tensor_name, LayerPlan};

/// A model file with the given metadata and tensors.
fn file(metadata: &[(&str, Value)], tensors: &[(&str, &QTensor)]) -> Vec<u8> {
    let entries: Vec<(&str, &Value)> = metadata.iter().map(|(k, v)| (*k, v)).collect();
    let mut cursor = std::io::Cursor::new(Vec::new());
    gguf_file::write(&mut cursor, &entries, tensors).unwrap();
    cursor.into_inner()
}

fn content(bytes: &[u8]) -> Content {
    match read_gguf(bytes) {
        Ok(content) => content,
        Err(_) => panic!("not a model file"),
    }
}

fn table(rows: usize, cols: usize) -> QTensor {
    let values: Vec<f32> = (0..rows * cols).map(|i| i as f32).collect();
    let tensor = Tensor::from_vec(values, (rows, cols), &Device::Cpu).unwrap();
    QTensor::quantize(&tensor, GgmlDType::F32).unwrap()
}

fn bytes_of(values: &[f32]) -> Vec<u8> {
    values.iter().flat_map(|v| v.to_le_bytes()).collect()
}

/// The metadata that a model must declare, under the given architecture.
fn required(arch: &str) -> Vec<(String, Value)> {
    let key = |name: &str| format!("{arch}.{name}");
    vec![
        (key("attention.head_count"), Value::U32(8)),
        (key("attention.head_count_kv"), Value::U32(4)),
        (key("block_count"), Value::U32(26)),
        (key("embedding_length"), Value::U32(2304)),
        (key("attention.key_length"), Value::U32(256)),
        (key("attention.value_length"), Value::U32(256)),
        (key("attention.layer_norm_rms_epsilon"), Value::F32(1e-6)),
        (key("attention.sliding_window"), Value::U32(4096)),
    ]
}

fn config(entries: &[(String, Value)]) -> Result<ModelConfig, ConfigError> {
    let metadata: Vec<(&str, Value)> =
        entries.iter().map(|(k, v)| (k.as_str(), v.clone())).collect();
    ModelConfig::from_gguf(&content(&file(&metadata, &[])))
}

#[test]
fn what_is_no_header_is_refused() {
    assert!(matches!(read_gguf(b""), Err(GgufError::Invalid(_))));
    assert!(matches!(read_gguf(b"no model file at all"), Err(GgufError::Invalid(_))));
    let mut cut = file(&[("a", Value::U32(1))], &[]);
    cut.truncate(30);
    assert!(matches!(read_gguf(&cut), Err(GgufError::Invalid(_))));
}

#[test]
fn an_alignment_of_zero_is_refused() {
    for zero in [
        Value::U8(0),
        Value::I8(0),
        Value::U16(0),
        Value::I16(0),
        Value::U32(0),
        Value::I32(0),
    ] {
        let list = Value::Array(vec![Value::String("x".to_string()), Value::String("".to_string())]);
        let bytes = file(&[("list", list), ("general.alignment", zero)], &[]);
        assert!(check_zero_alignment(&bytes));
        assert!(matches!(read_gguf(&bytes), Err(GgufError::ZeroAlignment)));
    }
}

#[test]
fn other_alignments_are_fine() {
    for value in [
        Value::U32(32),
        Value::I32(-1),
        Value::U64(0),
        Value::F32(0.0),
        Value::String(String::new()),
    ] {
        let bytes = file(&[("general.alignment", value)], &[]);
        assert!(!check_zero_alignment(&bytes));
        assert!(read_gguf(&bytes).is_ok());
    }
}

#[test]
fn the_last_alignment_counts() {
    let bytes = file(
        &[("general.alignment", Value::U32(0)), ("general.alignment", Value::U32(64))],
        &[],
    );
    assert!(read_gguf(&bytes).is_ok());
    let bytes = file(
        &[("general.alignment", Value::U32(64)), ("general.alignment\0", Value::U32(0))],
        &[],
    );
    assert!(matches!(read_gguf(&bytes), Err(GgufError::ZeroAlignment)));
}

/// A file of one entry that declares an alignment of zero, with changes by position.
fn zero_aligned(changes: &[(usize, u8)]) -> Vec<u8> {
    let mut bytes = file(
        &[("flag", Value::Bool(true)), ("general.alignment", Value::U32(0))],
        &[("t", &table(2, 2))],
    );
    for (at, byte) in changes {
        bytes[*at] = *byte;
    }
    bytes
}

#[test]
fn headers_that_are_not_whole_are_invalid() {
    assert!(matches!(read_gguf(&zero_aligned(&[])), Err(GgufError::ZeroAlignment)));
    // Other letters, another version, too many tensors, too many entries.
    for change in [(0, b'X'), (4, 9), (11, 0x80), (19, 0x80)] {
        let bytes = zero_aligned(&[change]);
        assert!(!check_zero_alignment(&bytes));
        assert!(matches!(read_gguf(&bytes), Err(GgufError::Invalid(_))));
    }
    // A truth value that is neither zero nor one: behind the opening of 24 bytes stand a
    // length, four letters and a type.
    let bytes = zero_aligned(&[(24 + 8 + 4 + 4, 2)]);
    assert!(matches!(read_gguf(&bytes), Err(GgufError::Invalid(_))));
    // The tensor: a length of eight bytes and a letter, then the number of dimensions, the
    // dimensions, and the type.
    let tensor = 24 + (8 + 4 + 4 + 1) + (8 + 17 + 4 + 4);
    for change in [(tensor + 7, 0x80), (tensor + 9, 5), (tensor + 9 + 4 + 16, 4)] {
        let bytes = zero_aligned(&[change]);
        assert!(!check_zero_alignment(&bytes));
        assert!(matches!(read_gguf(&bytes), Err(GgufError::Invalid(_))));
    }
    // The letters in the other order of bytes are fine.
    let swapped = [(0, b'F'), (1, b'U'), (2, b'G'), (3, b'G')];
    assert!(matches!(read_gguf(&zero_aligned(&swapped)), Err(GgufError::ZeroAlignment)));
}

#[test]
fn arrays_of_unknown_types_are_invalid() {
    // The items of an array that has none.
    let mut bytes = b"GGUF".to_vec();
    bytes.extend(3u32.to_le_bytes());
    bytes.extend(0u64.to_le_bytes());
    bytes.extend(2u64.to_le_bytes());
    bytes.extend(1u64.to_le_bytes());
    bytes.extend(b"a");
    bytes.extend(9u32.to_le_bytes());
    let kind_at = bytes.len();
    bytes.extend(12u32.to_le_bytes());
    bytes.extend(0u64.to_le_bytes());
    bytes.extend(17u64.to_le_bytes());
    bytes.extend(b"general.alignment");
    bytes.extend(4u32.to_le_bytes());
    bytes.extend(0u32.to_le_bytes());
    assert!(matches!(read_gguf(&bytes), Err(GgufError::ZeroAlignment)));
    bytes[kind_at] = 13;
    assert!(matches!(read_gguf(&bytes), Err(GgufError::Invalid(_))));
}

#[test]
fn the_name_of_the_alignment_may_occur_elsewhere() {
    let words = Value::Array(vec![
        Value::String("general.alignment".to_string()),
        Value::String("abcde".to_string()),
    ]);
    let nested = Value::Array(vec![Value::Array(vec![Value::U8(0)]), Value::Array(vec![])]);
    let bytes = file(
        &[("words", words), ("nested", nested), ("general.alignments", Value::U32(0))],
        &[],
    );
    assert!(!check_zero_alignment(&bytes));
    assert!(read_gguf(&bytes).is_ok());
}

#[test]
fn what_a_model_declares() {
    let mut entries = required("gemma3");
    let key = |name: &str| format!("gemma3.{name}");
    entries.push((key("attention.shared_kv_layers"), Value::U32(3)));
    entries.push((
        key("attention.sliding_window_pattern"),
        Value::Array(vec![Value::Bool(true), Value::Bool(false)]),
    ));
    entries.push((key("rope.freq_base"), Value::F32(5e5)));
    entries.push((key("rope.freq_base_swa"), Value::F32(2e4)));
    entries.push((key("context_length"), Value::U32(2048)));
    entries.push((key("rope.dimension_count"), Value::U32(128)));
    entries.push((key("rope.dimension_count_swa"), Value::U32(96)));
    entries.push((key("embedding_length_per_layer_input"), Value::U32(64)));
    let config = config(&entries).unwrap();
    assert_eq!(
        config,
        ModelConfig {
            block_count: 26,
            shared_kv_layers: 3,
            embedding_length: 2304,
            rms_norm_eps: 1e-6f32.to_bits(),
            sliding_window: 4096,
            sliding_pattern: vec![true, false],
            rope_frequency: 5e5f32.to_bits(),
            rope_frequency_sliding: 2e4f32.to_bits(),
            max_seq_len: 2048,
            rope_dim: 128,
            rope_dim_sliding: 96,
            ple_len: 64,
        }
    );
}

#[test]
fn what_a_model_need_not_declare() {
    let config = config(&required("gemma2")).unwrap();
    assert_eq!(config.shared_kv_layers, 0);
    assert!(config.sliding_pattern.is_empty());
    assert_eq!(f32::from_bits(config.rope_frequency), 1_000_000.0);
    assert_eq!(f32::from_bits(config.rope_frequency_sliding), 10_000.0);
    assert_eq!(config.max_seq_len, 8192);
    assert_eq!(config.rope_dim, 256);
    assert_eq!(config.rope_dim_sliding, 128);
    assert_eq!(config.ple_len, 256);
}

#[test]
fn rotary_tables_are_capped() {
    for (declared, used) in [(131_072, 8192), (8192, 8192), (8191, 8191)] {
        let mut entries = required("gemma4");
        entries.push(("gemma4.context_length".to_string(), Value::U32(declared)));
        assert_eq!(config(&entries).unwrap().max_seq_len, used);
    }
}

#[test]
fn values_of_another_type_fall_back() {
    let mut entries = required("gemma");
    let key = |name: &str| format!("gemma.{name}");
    entries.push((key("rope.local_freq_base"), Value::U32(7)));
    entries.push((key("rope.freq_base_swa"), Value::F32(2e4)));
    entries.push((key("rope.dimension"), Value::F32(1.0)));
    entries.push((key("rope.dimension_count"), Value::U32(32)));
    entries.push((
        key("attention.sliding_window_pattern"),
        Value::Array(vec![Value::I32(0), Value::I32(7)]),
    ));
    let config = config(&entries).unwrap();
    // A local frequency that is declared, but is no float, counts for nothing, and hides the
    // other one.
    assert_eq!(f32::from_bits(config.rope_frequency_sliding), 10_000.0);
    assert_eq!(config.rope_dim, 32);
    assert_eq!(config.rope_dim_sliding, 16);
    assert_eq!(config.sliding_pattern, vec![false, true]);
}

#[test]
fn the_newest_architecture_wins() {
    let mut entries = required("gemma2");
    entries.extend(required("gemma3"));
    entries.push(("gemma3.context_length".to_string(), Value::U32(5)));
    entries.push(("gemma2.context_length".to_string(), Value::U32(6)));
    assert_eq!(config(&entries).unwrap().max_seq_len, 5);
    assert!(config(&required("gemma-embedding")).is_ok());
}

#[test]
fn missing_and_mistyped_values_are_reported() {
    let error = config(&[]).unwrap_err();
    assert_eq!(error, ConfigError::Missing("gemma4.attention.head_count".to_string()));
    assert_eq!(error.message(), "cannot find gemma4.attention.head_count in metadata");
    let entries = required("gemma3");
    for (i, (key, _)) in entries.iter().enumerate().skip(1) {
        let mut partial = entries.clone();
        partial.remove(i);
        assert_eq!(config(&partial).unwrap_err(), ConfigError::Missing(key.clone()));
        let mut wrong = entries.clone();
        wrong[i].1 = Value::String("x".to_string());
        let found = "String(\"x\")".to_string();
        let (expected, message) = if key.ends_with("epsilon") {
            (ConfigError::NotF32(key.clone(), found), "not a f32 String(\"x\")")
        } else {
            (ConfigError::NotU32(key.clone(), found), "not a u32 String(\"x\")")
        };
        let error = config(&wrong).unwrap_err();
        assert_eq!(error, expected);
        assert_eq!(error.message(), message);
    }
}

#[test]
fn messages_for_values_are_those_of_the_reader() {
    for value in [Value::U8(3), Value::F32(1.5), Value::Array(vec![Value::Bool(true)])] {
        let mut entries = required("gemma3");
        entries[2].1 = value.clone();
        let expected = value.to_u32().unwrap_err().to_string();
        let message = config(&entries).unwrap_err().message();
        assert_eq!(expected.lines().next(), Some(message.as_str()));
    }
}

#[test]
fn layers_differ_by_the_pattern() {
    let mut entries = required("gemma3");
    entries.push((
        "gemma3.attention.sliding_window_pattern".to_string(),
        Value::Array(vec![Value::Bool(true), Value::Bool(false)]),
    ));
    let config = config(&entries).unwrap();
    let full = LayerPlan::new(&config, 1, None, 2048, 1024);
    assert_eq!(full.head_dim, 256);
    assert_eq!(full.n_head, 8);
    assert_eq!(full.n_kv_head, 4);
    assert_eq!(full.q_dim, 2048);
    assert_eq!(full.kv_repeats(), 2);
    assert_eq!(full.sliding_window, None);
    assert_eq!(f32::from_bits(full.rope_frequency), 1_000_000.0);
    assert_eq!(full.rope_dim, 256);
    assert_eq!(full.max_seq_len, 8192);
    for layer in [0, 2, 25] {
        let sliding = LayerPlan::new(&config, layer, Some(&vec![128]), 2048, 1024);
        assert_eq!(sliding.head_dim, 128);
        assert_eq!(sliding.n_head, 16);
        assert_eq!(sliding.n_kv_head, 8);
        assert_eq!(sliding.sliding_window, Some(4096));
        assert_eq!(f32::from_bits(sliding.rope_frequency), 10_000.0);
        assert_eq!(sliding.rope_dim, 128);
    }
    assert_eq!(LayerPlan::new(&config, 0, Some(&vec![1, 64]), 128, 64).head_dim, 64);
}

#[test]
fn tensors_of_a_layer_have_names() {
    assert_eq!(layer_tensor_name(0, "attn_q"), "blk.0.attn_q.weight");
    assert_eq!(layer_tensor_name(33, "layer_output_scale"), "blk.33.layer_output_scale.weight");
}

#[test]
fn rows_come_out_as_they_lie_in_the_file() {
    let bytes = file(&[], &[("token_embd.weight", &table(3, 2))]);
    let embedding = match token_embedding(&bytes, &content(&bytes)) {
        Ok(embedding) => embedding,
        Err(_) => panic!("no table"),
    };
    assert_eq!(embedding.hidden_dim(), 2);
    assert!(embedding.can_gather(&[2, 0, 2]));
    assert_eq!(
        embedding.forward(&[2, 0, 2]).unwrap(),
        bytes_of(&[4.0, 5.0, 0.0, 1.0, 4.0, 5.0])
    );
    assert_eq!(embedding.forward(&[]).unwrap(), Vec::<u8>::new());
    let error = embedding.forward(&[1, 3, 9]).unwrap_err();
    assert_eq!(error, IndexError { index: 3, vocab_size: 3 });
    assert_eq!(error.message(), "index out of bounds in CustomEmbedding: 3 >= 3");
}

#[test]
fn quantized_rows_are_whole_blocks() {
    let values: Vec<f32> = (0..2 * 64).map(|i| (i as f32 - 64.0) / 8.0).collect();
    let tensor = Tensor::from_vec(values, (2, 64), &Device::Cpu).unwrap();
    let quantized = QTensor::quantize(&tensor, GgmlDType::Q8_0).unwrap();
    let bytes = file(&[], &[("token_embd.weight", &quantized)]);
    let embedding = match token_embedding(&bytes, &content(&bytes)) {
        Ok(embedding) => embedding,
        Err(_) => panic!("no table"),
    };
    let data = quantized.data().unwrap().to_vec();
    assert_eq!(embedding.forward(&[1]).unwrap(), data[68..136].to_vec());
    assert_eq!(embedding.forward(&[0, 1]).unwrap(), data);
}

#[test]
fn layers_share_a_table() {
    let bytes = file(
        &[],
        &[
            ("per_layer_token_embd.weight", &table(2, 6)),
            ("blk.1.token_embd_per_layer.weight", &table(2, 2)),
        ],
    );
    let header = content(&bytes);
    let shared = match shared_embedding(&bytes, &header, 2) {
        Ok(shared) => shared,
        Err(_) => panic!("no table"),
    };
    assert!(shared.is_some());
    let of_layer = |layer: usize| match layer_embedding(&bytes, &header, layer, &shared) {
        Ok(Some(table)) => table,
        _ => panic!("no table"),
    };
    assert_eq!(of_layer(0).forward(&[1]).unwrap(), bytes_of(&[6.0, 7.0]));
    assert_eq!(of_layer(2).forward(&[0, 1]).unwrap(), bytes_of(&[4.0, 5.0, 10.0, 11.0]));
    // The second layer has a table of its own.
    assert_eq!(of_layer(1).forward(&[1]).unwrap(), bytes_of(&[2.0, 3.0]));
    // A fourth layer finds a part behind the first row, but none behind the last one.
    assert!(of_layer(3).can_gather(&[0]));
    assert!(!of_layer(3).can_gather(&[1]));
}

#[test]
fn tables_that_are_not_there() {
    let bytes = file(&[], &[]);
    let header = content(&bytes);
    assert!(matches!(token_embedding(&bytes, &header), Err(TableError::Missing)));
    assert!(matches!(shared_embedding(&bytes, &header, 4), Ok(None)));
    assert!(matches!(layer_embedding(&bytes, &header, 0, &None), Ok(None)));
}

#[test]
fn tables_that_cannot_be_read() {
    let whole = file(&[], &[("token_embd.weight", &table(3, 2))]);
    let header = content(&whole);
    let cut = &whole[..whole.len() - 20];
    assert!(matches!(token_embedding(cut, &header), Err(TableError::OutOfFile)));
    let flat = Tensor::from_vec(vec![1f32; 4], 4, &Device::Cpu).unwrap();
    let flat = QTensor::quantize(&flat, GgmlDType::F32).unwrap();
    let bytes = file(&[], &[("token_embd.weight", &flat)]);
    assert!(matches!(
        token_embedding(&bytes, &content(&bytes)),
        Err(TableError::NotTable)
    ));
}

/// A header of the second version with one tensor of no metadata, written byte by byte.
fn bare_tensor(name: &str, dims: &[u64]) -> Vec<u8> {
    let mut bytes = b"GGUF".to_vec();
    bytes.extend(2u32.to_le_bytes());
    bytes.extend(1u64.to_le_bytes());
    bytes.extend(0u64.to_le_bytes());
    bytes.extend((name.len() as u64).to_le_bytes());
    bytes.extend(name.as_bytes());
    bytes.extend((dims.len() as u32).to_le_bytes());
    for dim in dims.iter().rev() {
        bytes.extend(dim.to_le_bytes());
    }
    bytes.extend(0u32.to_le_bytes());
    bytes.extend(0u64.to_le_bytes());
    bytes
}

#[test]
fn tables_of_absurd_sizes() {
    let bytes = bare_tensor("token_embd.weight", &[1 << 40, 1 << 40]);
    assert!(matches!(
        token_embedding(&bytes, &content(&bytes)),
        Err(TableError::TooLarge)
    ));
    let bytes = bare_tensor("token_embd.weight", &[0, 1 << 63]);
    assert!(matches!(
        token_embedding(&bytes, &content(&bytes)),
        Err(TableError::TooWide)
    ));
    let bytes = bare_tensor("token_embd.weight", &[0, 1 << 40]);
    assert!(token_embedding(&bytes, &content(&bytes)).is_ok());
}

#[test]
fn parts_of_rows() {
    let data: Vec<u8> = (0..12).collect();
    let embedding = CustomEmbedding::new(data.clone(), 1, 2, 2, 1, Some(2), 3);
    assert_eq!(embedding.forward(&[1, 0]).unwrap(), vec![10, 11, 4, 5]);
    let embedding = CustomEmbedding::new(data, 2, 2, 2, 3, None, 5);
    // Five elements in blocks of two take two blocks, three take one.
    assert_eq!(embedding.forward(&[0, 1]).unwrap(), vec![0, 1, 4, 5]);
}
