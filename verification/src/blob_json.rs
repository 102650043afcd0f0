//! Reading the JSON metadata blobs of registry entries. Blobs may carry a
//! prefix before the JSON object; the object starts at the first `{`.
//! Parsing is `serde_json`'s; what the registry decides from the fields
//! it reads is verified here.
use vstd::prelude::*;

verus! {

/// The unsigned integer `serde_json` reads at `key` of the JSON document
/// `bytes`: None when the bytes are not a JSON document, or the value at
/// `key` is missing, not an object member, or not an integer in `u64`.
pub uninterp spec fn json_u64_at(bytes: Seq<u8>, key: Seq<char>) -> Option<u64>;

/// The string `serde_json` reads at `key` of the JSON document `bytes`:
/// None when the bytes are not a JSON document or the value at `key` is
/// missing or not a string.
pub uninterp spec fn json_str_at(bytes: Seq<u8>, key: Seq<char>) -> Option<Seq<char>>;

/// Parses `bytes` with `serde_json::from_slice` into a `serde_json::Value`
/// and reads `value[key].as_u64()`. The contract names the result as a
/// function of the bytes and the key alone; nothing about JSON syntax is
/// stated.
#[verifier::external_body]
fn read_json_u64(bytes: &[u8], key: &str) -> (r: Option<u64>)
    ensures
        r == json_u64_at(bytes@, key@),
{
    match serde_json::from_slice::<serde_json::Value>(bytes) {
        Ok(v) => v[key].as_u64(),
        Err(_) => None,
    }
}

/// Parses `bytes` with `serde_json::from_slice` into a `serde_json::Value`
/// and reads `value[key].as_str()`, copied into a `String`. The contract
/// names the result as a function of the bytes and the key alone.
#[verifier::external_body]
fn read_json_str(bytes: &[u8], key: &str) -> (r: Option<String>)
    ensures
        match r {
            Some(s) => json_str_at(bytes@, key@) == Some(s@),
            None => json_str_at(bytes@, key@) is None,
        },
{
    match serde_json::from_slice::<serde_json::Value>(bytes) {
        Ok(v) => match v[key].as_str() {
            Some(s) => Some(s.to_string()),
            None => None,
        },
        Err(_) => None,
    }
}

/// The position of the first `{` in `raw`, if any.
pub open spec fn brace_at(raw: Seq<u8>) -> Option<int> {
    if exists|i: int| 0 <= i < raw.len() && raw[i] == 123u8 {
        Some(choose|i: int| 0 <= i < raw.len() && raw[i] == 123u8 && forall|j: int| 0 <= j < i ==> raw[j] != 123u8)
    } else {
        None
    }
}

/// Where the JSON object of a blob starts: its first `{`.
pub fn json_start(raw: &[u8]) -> (r: Option<usize>)
    ensures
        match r {
            Some(i) => i < raw@.len() && raw@[i as int] == 123u8 && forall|j: int| 0 <= j < i ==> raw@[j] != 123u8,
            None => forall|j: int| 0 <= j < raw@.len() ==> raw@[j] != 123u8,
        },
{
    let mut i: usize = 0;
    while i < raw.len()
        invariant
            i <= raw@.len(),
            forall|j: int| 0 <= j < i ==> raw@[j] != 123u8,
        decreases raw@.len() - i,
    {
        if raw[i] == 123u8 {
            return Some(i);
        }
        i = i + 1;
    }
    None
}

/// The first-brace start of a blob, or 0 when it has no `{`.
pub open spec fn start_or_zero(raw: Seq<u8>) -> int {
    if exists|i: int| 0 <= i < raw.len() && raw[i] == 123u8 {
        choose|i: int| 0 <= i < raw.len() && raw[i] == 123u8 && forall|j: int| 0 <= j < i ==> raw[j] != 123u8
    } else {
        0
    }
}

proof fn lemma_first_brace_unique(raw: Seq<u8>, i: int)
    requires
        0 <= i < raw.len(),
        raw[i] == 123u8,
        forall|j: int| 0 <= j < i ==> raw[j] != 123u8,
    ensures
        start_or_zero(raw) == i,
{
    let k = choose|k: int| 0 <= k < raw.len() && raw[k] == 123u8 && forall|j: int| 0 <= j < k ==> raw[j] != 123u8;
    assert(0 <= k < raw.len() && raw[k] == 123u8 && forall|j: int| 0 <= j < k ==> raw[j] != 123u8);
    if k < i {
        assert(raw[k] != 123u8);
    }
    if i < k {
        assert(raw[i] != 123u8);
    }
}

/// A warrant's confirmed severity from what its blob's `computed_severity`
/// field read as: absent or unreadable counts as 0; the value is taken
/// into `u32` by truncation.
pub fn severity_from(field: Option<u64>) -> (r: u32)
    ensures
        r == match field {
            Some(v) => v as u32,
            None => 0u32,
        },
{
    match field {
        Some(v) => v as u32,
        None => 0,
    }
}

/// The severity a warrant confirmation records: the warrant blob's
/// `computed_severity`, read from its first `{` on (from the start when it
/// has none).
pub fn computed_severity(raw: &[u8]) -> (r: u32)
    ensures
        r == match json_u64_at(raw@.subrange(start_or_zero(raw@), raw@.len() as int), "computed_severity"@) {
            Some(v) => v as u32,
            None => 0u32,
        },
{
    let start: usize = match json_start(raw) {
        Some(i) => {
            proof {
                lemma_first_brace_unique(raw@, i as int);
            }
            i
        },
        None => 0,
    };
    let (_, tail) = raw.split_at(start);
    let field = read_json_u64(tail, "computed_severity");
    severity_from(field)
}

/// The artifact types a trust score is computed for.
pub open spec fn scoreable_type(t: Seq<char>) -> bool {
    t == "ai_model"@ || t == "dataset"@ || t == "training_run"@ || t == "inference_endpoint"@
}

/// Whether a manifest's `blob_type` (as read) names a scoreable artifact.
pub fn scoreable_blob_type(blob_type: &Option<String>) -> (r: bool)
    ensures
        r == match blob_type {
            Some(t) => scoreable_type(t@),
            None => false,
        },
{
    match blob_type {
        Some(t) => {
            let a: String = "ai_model".to_owned();
            let d: String = "dataset".to_owned();
            let tr: String = "training_run".to_owned();
            let ie: String = "inference_endpoint".to_owned();
            *t == a || *t == d || *t == tr || *t == ie
        },
        None => false,
    }
}

/// A string field of a manifest blob, read from its first `{`; None when
/// the blob has no `{`.
pub fn manifest_str_field(raw: &[u8], key: &str) -> (r: Option<String>)
    ensures
        match r {
            Some(s) => brace_at(raw@) is Some
                && json_str_at(raw@.subrange(start_or_zero(raw@), raw@.len() as int), key@) == Some(s@),
            None => brace_at(raw@) is None
                || json_str_at(raw@.subrange(start_or_zero(raw@), raw@.len() as int), key@) is None,
        },
{
    match json_start(raw) {
        Some(i) => {
            proof {
                lemma_first_brace_unique(raw@, i as int);
            }
            let (_, tail) = raw.split_at(i);
            read_json_str(tail, key)
        },
        None => None,
    }
}

/// Whether a manifest's blob names a scoreable kind of model or data: the
/// gate in front of every trust score.
pub fn manifest_scoreable(raw: &[u8]) -> (r: bool)
    ensures
        r == (brace_at(raw@) is Some && match json_str_at(
            raw@.subrange(start_or_zero(raw@), raw@.len() as int),
            "blob_type"@,
        ) {
            Some(t) => scoreable_type(t),
            None => false,
        }),
{
    let t = manifest_str_field(raw, "blob_type");
    scoreable_blob_type(&t)
}

} // verus!
