use meshcore::models::{catalog, valid_model_name, BENCH_MODEL_FILE, expected_total, incomplete, range_header, servable_name};

#[test]
fn rejects_traversal_and_non_gguf() {
    assert!(valid_model_name("Qwen3-0.6B-Q8_0.gguf"));
    assert!(!valid_model_name("/home/x/.bashrc"));
    assert!(!valid_model_name("../x.gguf"));
    assert!(!valid_model_name("a/b.gguf"));
    assert!(!valid_model_name("x.bin"));
    assert!(!valid_model_name(".hidden.gguf"));
    assert!(!valid_model_name("sp ace.gguf"));
}

#[test]
fn more_names() {
    assert!(!valid_model_name(""));
    assert!(!valid_model_name("a\\b.gguf"));
    assert!(!valid_model_name("a..b.gguf"));
    assert!(!valid_model_name("ünï.gguf"));
    assert!(!valid_model_name(&format!("{}.gguf", "a".repeat(195))));
    assert!(valid_model_name(&format!("{}.gguf", "a".repeat(194))));
}

#[test]
fn catalog_holds_the_demo_set() {
    let c = catalog();
    assert_eq!(c.len(), 6);
    assert_eq!(c[0].file, BENCH_MODEL_FILE);
    assert!(c.iter().all(|e| valid_model_name(&e.file)));
    let vl = c.iter().find(|e| e.role == "vision").unwrap();
    let proj = vl.mmproj.as_deref().unwrap();
    assert!(c.iter().any(|e| e.file == proj && e.layers == 0));
}

#[test]
fn downloads_resume_and_must_be_complete() {
    assert_eq!(range_header(0), None);
    assert_eq!(range_header(1_048_576), Some("bytes=1048576-".to_string()));
    assert_eq!(expected_total(Some(500), true, 100), 600);
    assert_eq!(expected_total(Some(500), false, 100), 500);
    assert_eq!(expected_total(None, false, 100), 0);
    assert_eq!(incomplete(600, 600), None);
    assert_eq!(incomplete(0, 12), None);
    assert_eq!(
        incomplete(600, 550),
        Some("download ended early: 550 of 600 bytes (resume to continue)".to_string())
    );
}

#[test]
fn the_model_route_serves_plain_names_only() {
    assert!(servable_name("Qwen3-0.6B-Q8_0.gguf"));
    assert!(servable_name("any name.bin"));
    assert!(!servable_name("../etc/passwd"));
    assert!(!servable_name("a/b.gguf"));
    assert!(!servable_name("x..gguf"));
}
