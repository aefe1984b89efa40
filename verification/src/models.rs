//! The model catalog: known demo models, and which file names may be written or served.
use vstd::prelude::*;
use crate::text::{dec, ends_with, contains, owned, chars_of, starts_with_at, contains_chars, push_str, push_dec};

verus! {

/// The reference model every phone benches when it joins, and whose layer config turns that bench
/// into a bandwidth figure.
pub const BENCH_MODEL_FILE: &'static str = "Qwen3-0.6B-Q8_0.gguf";

/// One model of the catalog.
#[derive(Debug, Clone)]
pub struct CatalogEntry {
    pub id: String,
    /// qwen | openai | anthropic | huggingface
    pub provider: String,
    pub name: String,
    pub file: String,
    pub url: String,
    pub bytes: u64,
    pub layers: u32,
    /// baseline | budget | headline | test | cloud | vision | projector
    pub role: String,
    pub note: String,
    /// Multimodal projector file that must sit next to the model for image input.
    pub mmproj: Option<String>,
}

/// The mathematical form of a [`CatalogEntry`].
pub struct CatalogEntryV {
    pub id: Seq<char>,
    pub provider: Seq<char>,
    pub name: Seq<char>,
    pub file: Seq<char>,
    pub url: Seq<char>,
    pub bytes: u64,
    pub layers: u32,
    pub role: Seq<char>,
    pub note: Seq<char>,
    pub mmproj: Option<Seq<char>>,
}

impl View for CatalogEntry {
    type V = CatalogEntryV;

    open spec fn view(&self) -> CatalogEntryV {
        CatalogEntryV {
            id: self.id@,
            provider: self.provider@,
            name: self.name@,
            file: self.file@,
            url: self.url@,
            bytes: self.bytes,
            layers: self.layers,
            role: self.role@,
            note: self.note@,
            mmproj: match self.mmproj {
                Some(m) => Some(m@),
                None => None,
            },
        }
    }
}

/// An entry from its texts.
pub open spec fn entry(id: &str, provider: &str, name: &str, file: &str, url: &str, bytes: u64, layers: u32, role: &str,
    note: &str, mmproj: Option<&str>) -> CatalogEntryV {
    CatalogEntryV {
        id: id@,
        provider: provider@,
        name: name@,
        file: file@,
        url: url@,
        bytes,
        layers,
        role: role@,
        note: note@,
        mmproj: match mmproj {
            Some(m) => Some(m@),
            None => None,
        },
    }
}

/// The demo set. `bytes` is the model-card size; a download checks the served length.
pub open spec fn catalog_spec() -> Seq<CatalogEntryV> {
    seq![
        entry("qwen3-0.6b", "qwen", "Qwen3 0.6B", "Qwen3-0.6B-Q8_0.gguf",
            "https://huggingface.co/Qwen/Qwen3-0.6B-GGUF/resolve/main/Qwen3-0.6B-Q8_0.gguf", 639_446_688, 28, "test",
            "Split tests and CI", None),
        entry("qwen3-8b", "qwen", "Qwen3 8B", "Qwen3-8B-Q4_K_M.gguf",
            "https://huggingface.co/Qwen/Qwen3-8B-GGUF/resolve/main/Qwen3-8B-Q4_K_M.gguf", 5_027_783_488, 36, "baseline",
            "What the laptop can do alone", None),
        entry("gpt-oss-20b", "openai", "gpt-oss 20B", "gpt-oss-20b-mxfp4.gguf",
            "https://huggingface.co/ggml-org/gpt-oss-20b-GGUF/resolve/main/gpt-oss-20b-mxfp4.gguf", 12_100_000_000, 24, "budget",
            "Budget-laptop story: laptop capped to 6 GB needs one phone", None),
        entry("qwen2.5-vl-3b", "qwen", "Qwen2.5-VL 3B (sees images)", "Qwen2.5-VL-3B-Instruct-Q4_K_M.gguf",
            "https://huggingface.co/ggml-org/Qwen2.5-VL-3B-Instruct-GGUF/resolve/main/Qwen2.5-VL-3B-Instruct-Q4_K_M.gguf",
            2_100_000_000, 36, "vision",
            "Describe photos, read screenshots, charts and documents. Needs its projector file too.",
            Some("mmproj-Qwen2.5-VL-3B-Instruct-f16.gguf")),
        entry("qwen2.5-vl-3b-mmproj", "qwen", "Qwen2.5-VL 3B projector", "mmproj-Qwen2.5-VL-3B-Instruct-f16.gguf",
            "https://huggingface.co/ggml-org/Qwen2.5-VL-3B-Instruct-GGUF/resolve/main/mmproj-Qwen2.5-VL-3B-Instruct-f16.gguf",
            1_400_000_000, 0, "projector", "The eyes of Qwen2.5-VL: download both.", None),
        entry("qwen3-coder-30b-a3b", "qwen", "Qwen3 Coder 30B-A3B", "Qwen3-Coder-30B-A3B-Instruct-Q4_K_M.gguf",
            "https://huggingface.co/unsloth/Qwen3-Coder-30B-A3B-Instruct-GGUF/resolve/main/Qwen3-Coder-30B-A3B-Instruct-Q4_K_M.gguf",
            18_600_000_000, 48, "headline", "MoE: 30B knowledge, 3.3B active per token. Needs the phones.", None),
    ]
}

/// Views of a sequence of entries.
pub open spec fn entries_view(v: Seq<CatalogEntry>) -> Seq<CatalogEntryV> {
    Seq::new(v.len(), |i: int| v[i]@)
}

/// Builds one entry.
fn make_entry(id: &str, provider: &str, name: &str, file: &str, url: &str, bytes: u64, layers: u32, role: &str,
    note: &str, mmproj: Option<&str>) -> (e: CatalogEntry)
    ensures
        e@ == entry(id, provider, name, file, url, bytes, layers, role, note, mmproj),
{
    CatalogEntry {
        id: owned(id),
        provider: owned(provider),
        name: owned(name),
        file: owned(file),
        url: owned(url),
        bytes,
        layers,
        role: owned(role),
        note: owned(note),
        mmproj: match mmproj {
            Some(m) => Some(owned(m)),
            None => None,
        },
    }
}

/// The demo set.
pub fn catalog() -> (v: Vec<CatalogEntry>)
    ensures
        entries_view(v@) == catalog_spec(),
{
    let mut v: Vec<CatalogEntry> = Vec::new();
    v.push(make_entry("qwen3-0.6b", "qwen", "Qwen3 0.6B", "Qwen3-0.6B-Q8_0.gguf",
        "https://huggingface.co/Qwen/Qwen3-0.6B-GGUF/resolve/main/Qwen3-0.6B-Q8_0.gguf", 639_446_688, 28, "test",
        "Split tests and CI", None));
    v.push(make_entry("qwen3-8b", "qwen", "Qwen3 8B", "Qwen3-8B-Q4_K_M.gguf",
        "https://huggingface.co/Qwen/Qwen3-8B-GGUF/resolve/main/Qwen3-8B-Q4_K_M.gguf", 5_027_783_488, 36, "baseline",
        "What the laptop can do alone", None));
    v.push(make_entry("gpt-oss-20b", "openai", "gpt-oss 20B", "gpt-oss-20b-mxfp4.gguf",
        "https://huggingface.co/ggml-org/gpt-oss-20b-GGUF/resolve/main/gpt-oss-20b-mxfp4.gguf", 12_100_000_000, 24, "budget",
        "Budget-laptop story: laptop capped to 6 GB needs one phone", None));
    v.push(make_entry("qwen2.5-vl-3b", "qwen", "Qwen2.5-VL 3B (sees images)", "Qwen2.5-VL-3B-Instruct-Q4_K_M.gguf",
        "https://huggingface.co/ggml-org/Qwen2.5-VL-3B-Instruct-GGUF/resolve/main/Qwen2.5-VL-3B-Instruct-Q4_K_M.gguf",
        2_100_000_000, 36, "vision",
        "Describe photos, read screenshots, charts and documents. Needs its projector file too.",
        Some("mmproj-Qwen2.5-VL-3B-Instruct-f16.gguf")));
    v.push(make_entry("qwen2.5-vl-3b-mmproj", "qwen", "Qwen2.5-VL 3B projector", "mmproj-Qwen2.5-VL-3B-Instruct-f16.gguf",
        "https://huggingface.co/ggml-org/Qwen2.5-VL-3B-Instruct-GGUF/resolve/main/mmproj-Qwen2.5-VL-3B-Instruct-f16.gguf",
        1_400_000_000, 0, "projector", "The eyes of Qwen2.5-VL: download both.", None));
    v.push(make_entry("qwen3-coder-30b-a3b", "qwen", "Qwen3 Coder 30B-A3B", "Qwen3-Coder-30B-A3B-Instruct-Q4_K_M.gguf",
        "https://huggingface.co/unsloth/Qwen3-Coder-30B-A3B-Instruct-GGUF/resolve/main/Qwen3-Coder-30B-A3B-Instruct-Q4_K_M.gguf",
        18_600_000_000, 48, "headline", "MoE: 30B knowledge, 3.3B active per token. Needs the phones.", None));
    assert(entries_view(v@) =~= catalog_spec());
    v
}

/// A character allowed in a model file name: ASCII letter or digit, `.`, `-`, `_`.
pub open spec fn name_char(c: char) -> bool {
    ('a' <= c && c <= 'z') || ('A' <= c && c <= 'Z') || ('0' <= c && c <= '9') || c == '.' || c == '-' || c == '_'
}

/// A model file name we are willing to write or serve: a plain `*.gguf` name of fewer than 200
/// characters, not hidden, with no path separator and no `..`, made only of ASCII letters,
/// digits, `.`, `-` and `_`.
pub open spec fn valid_name(f: Seq<char>) -> bool {
    &&& f.len() > 0
    &&& f.len() < 200
    &&& ends_with(f, ".gguf"@)
    &&& f[0] != '.'
    &&& !contains(f, "/"@)
    &&& !contains(f, "\\"@)
    &&& !contains(f, ".."@)
    &&& forall|i: int| 0 <= i < f.len() ==> name_char(#[trigger] f[i])
}

/// Whether `file` is a name we are willing to write or serve (see [`valid_name`]).
pub fn valid_model_name(file: &str) -> (r: bool)
    ensures
        r == valid_name(file@),
{
    let c = chars_of(file);
    let n = c.len();
    if n == 0 || n >= 200 {
        return false;
    }
    let ext = chars_of(".gguf");
    if ext.len() > n || !starts_with_at(c.as_slice(), n - ext.len(), ext.as_slice()) {
        return false;
    }
    if c[0] == '.' {
        return false;
    }
    let slash = chars_of("/");
    let back = chars_of("\\");
    let dots = chars_of("..");
    if contains_chars(c.as_slice(), slash.as_slice()) {
        assert(contains(file@, "/"@));
        return false;
    }
    if contains_chars(c.as_slice(), back.as_slice()) {
        assert(contains(file@, "\\"@));
        return false;
    }
    if contains_chars(c.as_slice(), dots.as_slice()) {
        assert(contains(file@, ".."@));
        return false;
    }
    let mut i: usize = 0;
    while i < n
        invariant
            n == c@.len(),
            c@ == file@,
            i <= n,
            forall|j: int| 0 <= j < i ==> name_char(#[trigger] c@[j]),
        decreases n - i,
    {
        let ch = c[i];
        let ok = ('a' <= ch && ch <= 'z') || ('A' <= ch && ch <= 'Z') || ('0' <= ch && ch <= '9') || ch == '.' || ch == '-' || ch == '_';
        if !ok {
            assert(!name_char(c@[i as int]));
            return false;
        }
        i = i + 1;
    }
    true
}

/// A name the model-file route serves from the models directory: no path separator, no `..`.
pub open spec fn servable_spec(f: Seq<char>) -> bool {
    !contains(f, "/"@) && !contains(f, ".."@)
}

/// Whether the model-file route serves `file` (see [`servable_spec`]).
pub fn servable_name(file: &str) -> (r: bool)
    ensures
        r == servable_spec(file@),
{
    let c = chars_of(file);
    let slash = chars_of("/");
    let dots = chars_of("..");
    !contains_chars(c.as_slice(), slash.as_slice()) && !contains_chars(c.as_slice(), dots.as_slice())
}

/// Every file the catalog may download can be served back to the phones: the download rule is
/// the stricter.
pub proof fn law_downloadable_is_servable(f: Seq<char>)
    requires
        valid_name(f),
    ensures
        servable_spec(f),
{
}

// ------------------------------------------------------------------------------------------------
// Downloads, resumed where a partial file left off.

/// The `Range` header that resumes a download of which `existing` bytes are on disk, if any are.
pub open spec fn range_spec(existing: u64) -> Option<Seq<char>> {
    if existing > 0 { Some("bytes="@ + dec(existing as nat) + "-"@) } else { None }
}

/// The `Range` header that resumes a download (see [`range_spec`]).
pub fn range_header(existing: u64) -> (r: Option<String>)
    ensures
        match r {
            Some(h) => range_spec(existing) == Some(h@),
            None => range_spec(existing) is None,
        },
{
    if existing > 0 {
        let mut h = owned("bytes=");
        push_dec(&mut h, existing);
        push_str(&mut h, "-");
        Some(h)
    } else {
        None
    }
}

/// The size of the whole file: what the server sends, plus what was on disk when it resumed.
pub fn expected_total(content_length: Option<u64>, resumed: bool, existing: u64) -> (r: u64)
    requires
        (match content_length { Some(n) => n as nat, None => 0 }) + (if resumed { existing as nat } else { 0 }) <= u64::MAX,
    ensures
        r == (match content_length { Some(n) => n as nat, None => 0 }) + (if resumed { existing as nat } else { 0 }),
{
    let sent = match content_length {
        Some(n) => n,
        None => 0,
    };
    if resumed { sent + existing } else { sent }
}

/// Why a finished transfer is not the whole file: it stopped short of (or ran past) a known size.
pub open spec fn incomplete_spec(total: u64, got: u64) -> Option<Seq<char>> {
    if total > 0 && got != total {
        Some("download ended early: "@ + dec(got as nat) + " of "@ + dec(total as nat) + " bytes (resume to continue)"@)
    } else {
        None
    }
}

/// Why a finished transfer is not the whole file, if it is not (see [`incomplete_spec`]).
pub fn incomplete(total: u64, got: u64) -> (r: Option<String>)
    ensures
        match r {
            Some(e) => incomplete_spec(total, got) == Some(e@),
            None => incomplete_spec(total, got) is None,
        },
{
    if total > 0 && got != total {
        let mut e = owned("download ended early: ");
        push_dec(&mut e, got);
        push_str(&mut e, " of ");
        push_dec(&mut e, total);
        push_str(&mut e, " bytes (resume to continue)");
        Some(e)
    } else {
        None
    }
}

} // verus!
