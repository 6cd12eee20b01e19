//! Decoding the shipped data: the gazetteer (a JSON array of skill names) and
//! the classifier weights (base64 little-endian `f32` arrays, handed out as
//! their bit patterns).

use base64::Engine;
use vstd::prelude::*;

use crate::matcher::KeywordMatcher;
use crate::text::lowercase;

verus! {

#[verifier::external_type_specification]
#[verifier::external_body]
pub struct ExDecodeError(base64::DecodeError);

#[verifier::external_type_specification]
#[verifier::external_body]
pub struct ExJsonError(serde_json::Error);

/// Why loading the gazetteer or the weights failed.
#[derive(Debug)]
pub enum LoadError {
    /// The gazetteer is not a JSON array of strings.
    InvalidGazetteer(serde_json::Error),
    /// The weights are in a format other than `mlp-weights-v1`; the format
    /// found.
    UnsupportedFormat(String),
    /// A weights or bias array is not valid standard base64.
    InvalidBase64(base64::DecodeError),
}

// ---------------------------------------------------------------------------
// The gazetteer
// ---------------------------------------------------------------------------

/// What `serde_json::from_str::<Vec<String>>` yields for the text `s`: the
/// strings of the array, or `None` where it fails.
pub uninterp spec fn json_string_array(s: Seq<char>) -> Option<Seq<Seq<char>>>;

/// Calls `serde_json::from_str` for a `Vec<String>`; its outcome is named by
/// `json_string_array`, a function of the text alone.
#[verifier::external_body]
fn parse_string_array(json: &str) -> (r: Result<Vec<String>, serde_json::Error>)
    ensures
        match r {
            Ok(v) => json_string_array(json@) == Some(v@.map_values(|s: String| s@)),
            Err(_) => json_string_array(json@) is None,
        },
{
    serde_json::from_str(json)
}

impl KeywordMatcher {
    /// The matcher for the skill names of a JSON array of strings, each
    /// lowercased.
    pub fn from_json(json: &str) -> (r: Result<KeywordMatcher, LoadError>)
        ensures
            match r {
                Ok(m) => {
                    &&& m.wf()
                    &&& json_string_array(json@) is Some
                    &&& m@ == json_string_array(json@)->0.map_values(|k: Seq<char>| lowercase(k)).to_set().remove(
                        Seq::<char>::empty(),
                    )
                },
                Err(e) => json_string_array(json@) is None && e is InvalidGazetteer,
            },
    {
        match parse_string_array(json) {
            Ok(skills) => {
                let m = KeywordMatcher::new(skills.as_slice());
                assert(skills@.map_values(|s: String| lowercase(s@)) =~= skills@.map_values(
                    |s: String| s@,
                ).map_values(|k: Seq<char>| lowercase(k)));
                Ok(m)
            },
            Err(e) => Err(LoadError::InvalidGazetteer(e)),
        }
    }
}

// ---------------------------------------------------------------------------
// The classifier weights
// ---------------------------------------------------------------------------

/// What `base64::engine::general_purpose::STANDARD.decode` yields for the text
/// `s`: the bytes, or `None` where it fails.
pub uninterp spec fn base64_decoded(s: Seq<char>) -> Option<Seq<u8>>;

/// Calls the standard-alphabet, padded base64 engine's `decode`; its outcome
/// is named by `base64_decoded`, a function of the text alone.
#[verifier::external_body]
fn base64_decode(s: &str) -> (r: Result<Vec<u8>, base64::DecodeError>)
    ensures
        match r {
            Ok(v) => base64_decoded(s@) == Some(v@),
            Err(_) => base64_decoded(s@) is None,
        },
{
    base64::engine::general_purpose::STANDARD.decode(s)
}

/// The little-endian value of the four bytes of `b` from position `4 * i` on.
pub open spec fn le_word(b: Seq<u8>, i: int) -> int {
    b[4 * i] + 256 * b[4 * i + 1] + 65536 * b[4 * i + 2] + 16777216 * b[4 * i + 3]
}

/// A word's bytes are those of `b`, lowest first: its lowest byte is
/// `b[4 * i]` and its highest `b[4 * i + 3]`.
pub proof fn law_le_word_bytes(b: Seq<u8>, i: int)
    requires
        0 <= i,
        4 * i + 3 < b.len(),
    ensures
        0 <= le_word(b, i) < 0x1_0000_0000,
        le_word(b, i) % 256 == b[4 * i],
        (le_word(b, i) / 256) % 256 == b[4 * i + 1],
        (le_word(b, i) / 65536) % 256 == b[4 * i + 2],
        le_word(b, i) / 16777216 == b[4 * i + 3],
{
    let x0 = b[4 * i] as int;
    let x1 = b[4 * i + 1] as int;
    let x2 = b[4 * i + 2] as int;
    let x3 = b[4 * i + 3] as int;
    let w = le_word(b, i);
    assert(w == x0 + 256 * (x1 + 256 * (x2 + 256 * x3)));
    assert(w % 256 == x0 && w / 256 == x1 + 256 * (x2 + 256 * x3)) by (nonlinear_arith)
        requires
            0 <= x0 < 256,
            0 <= x1 < 256,
            0 <= x2 < 256,
            0 <= x3 < 256,
            w == x0 + 256 * (x1 + 256 * (x2 + 256 * x3)),
    ;
    let w1 = x1 + 256 * (x2 + 256 * x3);
    assert(w1 % 256 == x1 && w1 / 256 == x2 + 256 * x3) by (nonlinear_arith)
        requires
            0 <= x1 < 256,
            0 <= x2 < 256,
            0 <= x3 < 256,
            w1 == x1 + 256 * (x2 + 256 * x3),
    ;
    let w2 = x2 + 256 * x3;
    assert(w2 % 256 == x2 && w2 / 256 == x3) by (nonlinear_arith)
        requires
            0 <= x2 < 256,
            0 <= x3 < 256,
            w2 == x2 + 256 * x3,
    ;
    assert(w / 65536 == w2 && w / 16777216 == x3) by (nonlinear_arith)
        requires
            0 <= w2,
            w == x0 + 256 * w1,
            w1 == x1 + 256 * w2,
            w2 == x2 + 256 * x3,
            0 <= x0 < 256,
            0 <= x1 < 256,
            0 <= x2 < 256,
            0 <= x3 < 256,
    ;
}

/// `w` holds the little-endian 32-bit words of the complete four-byte groups
/// of `b` (trailing bytes that do not fill a group are dropped).
pub open spec fn is_le_words(w: Seq<u32>, b: Seq<u8>) -> bool {
    &&& w.len() == b.len() / 4
    &&& forall|i: int| 0 <= i < w.len() ==> #[trigger] w[i] == le_word(b, i)
}

/// The little-endian 32-bit words of the complete four-byte groups of
/// `bytes`, as `chunks_exact(4)` and `from_le_bytes` read them.
pub fn decode_le_words(bytes: &[u8]) -> (w: Vec<u32>)
    ensures
        is_le_words(w@, bytes@),
{
    let len = bytes.len();
    let n = len / 4;
    let mut w: Vec<u32> = Vec::new();
    let mut i: usize = 0;
    while i < n
        invariant
            len == bytes@.len(),
            n == bytes@.len() / 4,
            i <= n,
            w@.len() == i,
            forall|j: int| 0 <= j < i ==> #[trigger] w@[j] == le_word(bytes@, j),
        decreases n - i,
    {
        assert(4 * i + 3 < bytes@.len()) by (nonlinear_arith)
            requires
                i < n,
                n == bytes@.len() / 4,
        ;
        let k = 4 * i;
        let b0 = bytes[k] as u32;
        let b1 = bytes[k + 1] as u32;
        let b2 = bytes[k + 2] as u32;
        let b3 = bytes[k + 3] as u32;
        w.push(b0 + 256 * b1 + 65536 * b2 + 16777216 * b3);
        i = i + 1;
    }
    w
}

/// The bit patterns of the `f32` array encoded in `b64` (base64 of its
/// little-endian bytes).
pub fn decode_weights(b64: &str) -> (r: Result<Vec<u32>, base64::DecodeError>)
    ensures
        match r {
            Ok(w) => base64_decoded(b64@) matches Some(b) && is_le_words(w@, b),
            Err(_) => base64_decoded(b64@) is None,
        },
{
    let bytes = base64_decode(b64)?;
    Ok(decode_le_words(bytes.as_slice()))
}

/// One layer of the weights file.
pub struct LayerSpec {
    /// `[rows, cols]` of the row-major weight matrix.
    pub shape: [usize; 2],
    pub weights_b64: String,
    pub bias_b64: String,
}

/// The weights file.
pub struct MlpSpec {
    pub format: String,
    pub layers: Vec<LayerSpec>,
}

/// A decoded layer: the `rows × cols` row-major weight matrix and the bias, as
/// `f32` bit patterns.
pub struct LayerBits {
    pub rows: usize,
    pub cols: usize,
    pub w: Vec<u32>,
    pub b: Vec<u32>,
}

/// The only weights format there is.
pub open spec fn weights_format() -> Seq<char> {
    "mlp-weights-v1"@
}

/// Both arrays of layer `l` are valid base64.
pub open spec fn layer_decodes(l: LayerSpec) -> bool {
    base64_decoded(l.weights_b64@) is Some && base64_decoded(l.bias_b64@) is Some
}

/// `d` is the decoding of `l`.
pub open spec fn layer_decoded(d: LayerBits, l: LayerSpec) -> bool {
    &&& layer_decodes(l)
    &&& d.rows == l.shape[0]
    &&& d.cols == l.shape[1]
    &&& is_le_words(d.w@, base64_decoded(l.weights_b64@)->0)
    &&& is_le_words(d.b@, base64_decoded(l.bias_b64@)->0)
}

/// A decoded layer keeps the shape in order: its rows are the first
/// dimension of the shape (the layer's inputs) and its columns the second
/// (its outputs), and its arrays are the words of the decoded bytes.
pub proof fn law_decoded_layer_keeps_shape(d: LayerBits, l: LayerSpec)
    requires
        layer_decoded(d, l),
    ensures
        d.rows == l.shape[0],
        d.cols == l.shape[1],
        base64_decoded(l.weights_b64@) matches Some(wb) && d.w@.len() == wb.len() / 4,
        base64_decoded(l.bias_b64@) matches Some(bb) && d.b@.len() == bb.len() / 4,
{
}

/// Checks the format of the weights file and decodes its layers.
pub fn decode_layers(spec: &MlpSpec) -> (r: Result<Vec<LayerBits>, LoadError>)
    ensures
        spec.format@ != weights_format() ==> (r matches Err(LoadError::UnsupportedFormat(f))
            && f@ == spec.format@),
        spec.format@ == weights_format() ==> match r {
            Ok(ls) => {
                &&& ls@.len() == spec.layers@.len()
                &&& forall|i: int|
                    0 <= i < ls@.len() ==> layer_decoded(#[trigger] ls@[i], spec.layers@[i])
                &&& forall|i: int|
                    0 <= i < ls@.len() ==> (#[trigger] ls@[i]).rows == spec.layers@[i].shape[0]
                        && ls@[i].cols == spec.layers@[i].shape[1]
            },
            Err(e) => e is InvalidBase64 && exists|i: int|
                0 <= i < spec.layers@.len() && !layer_decodes(#[trigger] spec.layers@[i]) && forall|j: int|
                    0 <= j < i ==> layer_decodes(spec.layers@[j]),
        },
{
    let expected = "mlp-weights-v1".to_owned();
    if spec.format != expected {
        return Err(LoadError::UnsupportedFormat(spec.format.clone()));
    }
    let mut layers: Vec<LayerBits> = Vec::new();
    let mut i: usize = 0;
    while i < spec.layers.len()
        invariant
            spec.format@ == weights_format(),
            i <= spec.layers@.len(),
            layers@.len() == i,
            forall|j: int|
                0 <= j < i ==> layer_decoded(#[trigger] layers@[j], spec.layers@[j]),
        decreases spec.layers@.len() - i,
    {
        let l = &spec.layers[i];
        assert forall|j: int| 0 <= j < i implies layer_decodes(spec.layers@[j]) by {
            assert(layer_decoded(layers@[j], spec.layers@[j]));
        }
        let w = match decode_weights(l.weights_b64.as_str()) {
            Ok(w) => w,
            Err(e) => {
                assert(!layer_decodes(spec.layers@[i as int]));
                return Err(LoadError::InvalidBase64(e));
            },
        };
        let b = match decode_weights(l.bias_b64.as_str()) {
            Ok(b) => b,
            Err(e) => {
                assert(!layer_decodes(spec.layers@[i as int]));
                return Err(LoadError::InvalidBase64(e));
            },
        };
        let d = LayerBits { rows: l.shape[0], cols: l.shape[1], w, b };
        assert(layer_decodes(spec.layers@[i as int]));
        assert(d.rows == spec.layers@[i as int].shape[0]);
        assert(is_le_words(d.w@, base64_decoded(l.weights_b64@)->0));
        assert(layer_decoded(d, spec.layers@[i as int]));
        let ghost prev = layers@;
        layers.push(d);
        assert forall|j: int| 0 <= j < i + 1 implies layer_decoded(
            #[trigger] layers@[j],
            spec.layers@[j],
        ) by {
            if j < i {
                assert(layers@[j] == prev[j]);
            }
        }
        i = i + 1;
    }
    Ok(layers)
}

} // verus!
