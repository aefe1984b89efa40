use meshcore::gguf::{layer_index, read, read_full, GgufError, Value};

#[test]
fn layer_index_parses() {
    assert_eq!(layer_index("blk.17.attn_q.weight"), Some(17));
    assert_eq!(layer_index("token_embd.weight"), None);
    assert_eq!(layer_index("blk.x.y"), None);
}

fn s(out: &mut Vec<u8>, t: &str) {
    out.extend_from_slice(&(t.len() as u64).to_le_bytes());
    out.extend_from_slice(t.as_bytes());
}

fn kv_str(out: &mut Vec<u8>, k: &str, v: &str) {
    s(out, k);
    out.extend_from_slice(&8u32.to_le_bytes());
    s(out, v);
}

fn kv_u32(out: &mut Vec<u8>, k: &str, v: u32) {
    s(out, k);
    out.extend_from_slice(&4u32.to_le_bytes());
    out.extend_from_slice(&v.to_le_bytes());
}

fn tensor(out: &mut Vec<u8>, name: &str, dims: &[u64], offset: u64) {
    s(out, name);
    out.extend_from_slice(&(dims.len() as u32).to_le_bytes());
    for d in dims {
        out.extend_from_slice(&d.to_le_bytes());
    }
    out.extend_from_slice(&0u32.to_le_bytes());
    out.extend_from_slice(&offset.to_le_bytes());
}

/// A two-block model: header, then a data section of 1000 bytes.
fn tiny() -> Vec<u8> {
    let mut b = Vec::new();
    b.extend_from_slice(b"GGUF");
    b.extend_from_slice(&3u32.to_le_bytes());
    b.extend_from_slice(&4u64.to_le_bytes());
    b.extend_from_slice(&6u64.to_le_bytes());
    kv_str(&mut b, "general.architecture", "llama");
    kv_str(&mut b, "general.name", "Tiny");
    kv_u32(&mut b, "llama.block_count", 2);
    kv_u32(&mut b, "llama.embedding_length", 64);
    kv_u32(&mut b, "llama.attention.head_count", 4);
    kv_u32(&mut b, "llama.context_length", 2048);
    tensor(&mut b, "token_embd.weight", &[64, 10], 0);
    tensor(&mut b, "blk.0.attn_q.weight", &[64, 64], 100);
    tensor(&mut b, "blk.1.attn_q.weight", &[64, 64], 400);
    tensor(&mut b, "output.weight", &[64, 10], 700);
    while b.len() % 32 != 0 {
        b.push(0);
    }
    b.extend(std::iter::repeat(0u8).take(1000));
    b
}

#[test]
fn reads_a_small_header() {
    let b = tiny();
    let m = read(&b, b.len() as u64, "/m/tiny-Q8_0.gguf").unwrap();
    assert_eq!(m.arch, "llama");
    assert_eq!(m.name, "Tiny");
    assert_eq!(m.version, 3);
    assert_eq!(m.n_layer, 2);
    assert_eq!(m.n_head, 4);
    assert_eq!(m.n_head_kv, 4);
    assert_eq!(m.n_ctx_train, 2048);
    assert_eq!(m.layer_bytes, vec![300, 300]);
    assert_eq!(m.non_layer_bytes, 100 + 300);
    assert_eq!(m.weight_bytes(), 1000);
    // 2 layers × 4 kv heads × (16 + 16) × 2 bytes
    assert_eq!(m.kv_bytes_per_token, 2 * 4 * 32 * 2);
    assert_eq!(m.quant_label, "Q8_0");
    assert_eq!(m.tensor_count, 4);
    assert!(!m.is_moe());
}

#[test]
fn reads_tensors_and_metadata() {
    let b = tiny();
    let g = read_full(&b, b.len() as u64, "/m/tiny-Q8_0.gguf").unwrap();
    assert_eq!(g.tensors.len(), 4);
    assert_eq!(g.tensors[1].bytes, 300);
    let k = "llama.block_count".to_string();
    assert_eq!(g.kv.get(&k).and_then(|v| v.as_u64()), Some(2));
    let n = "general.name".to_string();
    assert_eq!(g.kv.get(&n).and_then(|v| v.as_str().map(|s| s.to_string())), Some("Tiny".to_string()));
}

#[test]
fn refuses_bad_magic_version_and_short_files() {
    let mut b = tiny();
    b[0] = b'X';
    assert!(matches!(read(&b, b.len() as u64, "x.gguf"), Err(GgufError::BadMagic)));
    let mut b = tiny();
    b[4] = 9;
    assert!(matches!(read(&b, b.len() as u64, "x.gguf"), Err(GgufError::Version(9))));
    let b = tiny();
    assert!(matches!(read(&b[..20], 20, "x.gguf"), Err(GgufError::Eof)));
    assert!(matches!(read(&b[..20], b.len() as u64, "x.gguf"), Err(GgufError::NeedBytes)));
}

#[test]
fn value_conversions() {
    assert_eq!(Value::I32(-1).as_u64(), None);
    assert_eq!(Value::U16(7).as_u64(), Some(7));
    assert_eq!(Value::Str("a".into()).as_str(), Some("a"));
}

#[test]
fn every_head_of_the_file_reads_the_same_or_asks_for_more() {
    let b = tiny();
    let fl = b.len() as u64;
    let whole = read(&b, fl, "/m/tiny-Q8_0.gguf").unwrap();
    let mut first_ok = None;
    for k in 0..=b.len() {
        match read(&b[..k], fl, "/m/tiny-Q8_0.gguf") {
            Err(GgufError::NeedBytes) => assert!(first_ok.is_none(), "asked for more after reading at {k}"),
            Ok(m) => {
                assert_eq!(m.layer_bytes, whole.layer_bytes);
                assert_eq!(m.non_layer_bytes, whole.non_layer_bytes);
                assert_eq!(m.name, whole.name);
                first_ok.get_or_insert(k);
            }
            Err(e) => panic!("head of {k} bytes: {e:?}"),
        }
    }
    assert!(first_ok.unwrap() < b.len());
}
