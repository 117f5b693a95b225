//! The PLY header: the grammar that rply accepts, parsed from the raw bytes
//! of a file; the readers' plans for vertex and face data; the headers and
//! integer records of the rply-compatible writer, which read back.

use vstd::prelude::*;
use vstd::string::StringSliceAdditionalSpecFns;
use vstd::utf8::{decode_utf8, valid_utf8};
use crate::io::{str_eq, FileGeometry};

verus! {

// ------------------------------------------------------------ bytes and words

/// Byte-wise equality of two slices.
fn bytes_eq(a: &[u8], b: &[u8]) -> (r: bool)
    ensures
        r == (a@ == b@),
{
    if a.len() != b.len() {
        return false;
    }
    let mut i: usize = 0;
    while i < a.len()
        invariant
            a@.len() == b@.len(),
            i <= a@.len(),
            forall|j: int| 0 <= j < i ==> a@[j] == b@[j],
        decreases a@.len() - i,
    {
        if a[i] != b[i] {
            return false;
        }
        i += 1;
    }
    proof {
        assert(a@ =~= b@);
    }
    true
}

/// The bytes of `format`.
pub open spec fn kw_format() -> Seq<u8> {
    seq![102, 111, 114, 109, 97, 116]
}

fn is_format(t: &[u8]) -> (r: bool)
    ensures
        r == (t@ == kw_format()),
{
    let k: [u8; 6] = [102, 111, 114, 109, 97, 116];
    proof {
        assert(k@ =~= kw_format());
    }
    bytes_eq(t, k.as_slice())
}

/// The bytes of `ascii`.
pub open spec fn kw_ascii() -> Seq<u8> {
    seq![97, 115, 99, 105, 105]
}

fn is_ascii(t: &[u8]) -> (r: bool)
    ensures
        r == (t@ == kw_ascii()),
{
    let k: [u8; 5] = [97, 115, 99, 105, 105];
    proof {
        assert(k@ =~= kw_ascii());
    }
    bytes_eq(t, k.as_slice())
}

/// The bytes of `binary_little_endian`.
pub open spec fn kw_binary_little_endian() -> Seq<u8> {
    seq![98, 105, 110, 97, 114, 121, 95, 108, 105, 116, 116, 108, 101, 95, 101, 110, 100, 105, 97, 110]
}

fn is_binary_little_endian(t: &[u8]) -> (r: bool)
    ensures
        r == (t@ == kw_binary_little_endian()),
{
    let k: [u8; 20] = [98, 105, 110, 97, 114, 121, 95, 108, 105, 116, 116, 108, 101, 95, 101, 110, 100, 105, 97, 110];
    proof {
        assert(k@ =~= kw_binary_little_endian());
    }
    bytes_eq(t, k.as_slice())
}

/// The bytes of `binary_big_endian`.
pub open spec fn kw_binary_big_endian() -> Seq<u8> {
    seq![98, 105, 110, 97, 114, 121, 95, 98, 105, 103, 95, 101, 110, 100, 105, 97, 110]
}

fn is_binary_big_endian(t: &[u8]) -> (r: bool)
    ensures
        r == (t@ == kw_binary_big_endian()),
{
    let k: [u8; 17] = [98, 105, 110, 97, 114, 121, 95, 98, 105, 103, 95, 101, 110, 100, 105, 97, 110];
    proof {
        assert(k@ =~= kw_binary_big_endian());
    }
    bytes_eq(t, k.as_slice())
}

/// The bytes of `comment`.
pub open spec fn kw_comment() -> Seq<u8> {
    seq![99, 111, 109, 109, 101, 110, 116]
}

fn is_comment(t: &[u8]) -> (r: bool)
    ensures
        r == (t@ == kw_comment()),
{
    let k: [u8; 7] = [99, 111, 109, 109, 101, 110, 116];
    proof {
        assert(k@ =~= kw_comment());
    }
    bytes_eq(t, k.as_slice())
}

/// The bytes of `obj_info`.
pub open spec fn kw_obj_info() -> Seq<u8> {
    seq![111, 98, 106, 95, 105, 110, 102, 111]
}

fn is_obj_info(t: &[u8]) -> (r: bool)
    ensures
        r == (t@ == kw_obj_info()),
{
    let k: [u8; 8] = [111, 98, 106, 95, 105, 110, 102, 111];
    proof {
        assert(k@ =~= kw_obj_info());
    }
    bytes_eq(t, k.as_slice())
}

/// The bytes of `element`.
pub open spec fn kw_element() -> Seq<u8> {
    seq![101, 108, 101, 109, 101, 110, 116]
}

fn is_element(t: &[u8]) -> (r: bool)
    ensures
        r == (t@ == kw_element()),
{
    let k: [u8; 7] = [101, 108, 101, 109, 101, 110, 116];
    proof {
        assert(k@ =~= kw_element());
    }
    bytes_eq(t, k.as_slice())
}

/// The bytes of `property`.
pub open spec fn kw_property() -> Seq<u8> {
    seq![112, 114, 111, 112, 101, 114, 116, 121]
}

fn is_property(t: &[u8]) -> (r: bool)
    ensures
        r == (t@ == kw_property()),
{
    let k: [u8; 8] = [112, 114, 111, 112, 101, 114, 116, 121];
    proof {
        assert(k@ =~= kw_property());
    }
    bytes_eq(t, k.as_slice())
}

/// The bytes of `list`.
pub open spec fn kw_list() -> Seq<u8> {
    seq![108, 105, 115, 116]
}

fn is_list(t: &[u8]) -> (r: bool)
    ensures
        r == (t@ == kw_list()),
{
    let k: [u8; 4] = [108, 105, 115, 116];
    proof {
        assert(k@ =~= kw_list());
    }
    bytes_eq(t, k.as_slice())
}

/// The bytes of `end_header`.
pub open spec fn kw_end_header() -> Seq<u8> {
    seq![101, 110, 100, 95, 104, 101, 97, 100, 101, 114]
}

fn is_end_header(t: &[u8]) -> (r: bool)
    ensures
        r == (t@ == kw_end_header()),
{
    let k: [u8; 10] = [101, 110, 100, 95, 104, 101, 97, 100, 101, 114];
    proof {
        assert(k@ =~= kw_end_header());
    }
    bytes_eq(t, k.as_slice())
}

/// The bytes of `int8`.
pub open spec fn kw_int8() -> Seq<u8> {
    seq![105, 110, 116, 56]
}

fn is_int8(t: &[u8]) -> (r: bool)
    ensures
        r == (t@ == kw_int8()),
{
    let k: [u8; 4] = [105, 110, 116, 56];
    proof {
        assert(k@ =~= kw_int8());
    }
    bytes_eq(t, k.as_slice())
}

/// The bytes of `char`.
pub open spec fn kw_char() -> Seq<u8> {
    seq![99, 104, 97, 114]
}

fn is_char(t: &[u8]) -> (r: bool)
    ensures
        r == (t@ == kw_char()),
{
    let k: [u8; 4] = [99, 104, 97, 114];
    proof {
        assert(k@ =~= kw_char());
    }
    bytes_eq(t, k.as_slice())
}

/// The bytes of `uint8`.
pub open spec fn kw_uint8() -> Seq<u8> {
    seq![117, 105, 110, 116, 56]
}

fn is_uint8(t: &[u8]) -> (r: bool)
    ensures
        r == (t@ == kw_uint8()),
{
    let k: [u8; 5] = [117, 105, 110, 116, 56];
    proof {
        assert(k@ =~= kw_uint8());
    }
    bytes_eq(t, k.as_slice())
}

/// The bytes of `uchar`.
pub open spec fn kw_uchar() -> Seq<u8> {
    seq![117, 99, 104, 97, 114]
}

fn is_uchar(t: &[u8]) -> (r: bool)
    ensures
        r == (t@ == kw_uchar()),
{
    let k: [u8; 5] = [117, 99, 104, 97, 114];
    proof {
        assert(k@ =~= kw_uchar());
    }
    bytes_eq(t, k.as_slice())
}

/// The bytes of `int16`.
pub open spec fn kw_int16() -> Seq<u8> {
    seq![105, 110, 116, 49, 54]
}

fn is_int16(t: &[u8]) -> (r: bool)
    ensures
        r == (t@ == kw_int16()),
{
    let k: [u8; 5] = [105, 110, 116, 49, 54];
    proof {
        assert(k@ =~= kw_int16());
    }
    bytes_eq(t, k.as_slice())
}

/// The bytes of `short`.
pub open spec fn kw_short() -> Seq<u8> {
    seq![115, 104, 111, 114, 116]
}

fn is_short(t: &[u8]) -> (r: bool)
    ensures
        r == (t@ == kw_short()),
{
    let k: [u8; 5] = [115, 104, 111, 114, 116];
    proof {
        assert(k@ =~= kw_short());
    }
    bytes_eq(t, k.as_slice())
}

/// The bytes of `uint16`.
pub open spec fn kw_uint16() -> Seq<u8> {
    seq![117, 105, 110, 116, 49, 54]
}

fn is_uint16(t: &[u8]) -> (r: bool)
    ensures
        r == (t@ == kw_uint16()),
{
    let k: [u8; 6] = [117, 105, 110, 116, 49, 54];
    proof {
        assert(k@ =~= kw_uint16());
    }
    bytes_eq(t, k.as_slice())
}

/// The bytes of `ushort`.
pub open spec fn kw_ushort() -> Seq<u8> {
    seq![117, 115, 104, 111, 114, 116]
}

fn is_ushort(t: &[u8]) -> (r: bool)
    ensures
        r == (t@ == kw_ushort()),
{
    let k: [u8; 6] = [117, 115, 104, 111, 114, 116];
    proof {
        assert(k@ =~= kw_ushort());
    }
    bytes_eq(t, k.as_slice())
}

/// The bytes of `int32`.
pub open spec fn kw_int32() -> Seq<u8> {
    seq![105, 110, 116, 51, 50]
}

fn is_int32(t: &[u8]) -> (r: bool)
    ensures
        r == (t@ == kw_int32()),
{
    let k: [u8; 5] = [105, 110, 116, 51, 50];
    proof {
        assert(k@ =~= kw_int32());
    }
    bytes_eq(t, k.as_slice())
}

/// The bytes of `int`.
pub open spec fn kw_int() -> Seq<u8> {
    seq![105, 110, 116]
}

fn is_int(t: &[u8]) -> (r: bool)
    ensures
        r == (t@ == kw_int()),
{
    let k: [u8; 3] = [105, 110, 116];
    proof {
        assert(k@ =~= kw_int());
    }
    bytes_eq(t, k.as_slice())
}

/// The bytes of `uint32`.
pub open spec fn kw_uint32() -> Seq<u8> {
    seq![117, 105, 110, 116, 51, 50]
}

fn is_uint32(t: &[u8]) -> (r: bool)
    ensures
        r == (t@ == kw_uint32()),
{
    let k: [u8; 6] = [117, 105, 110, 116, 51, 50];
    proof {
        assert(k@ =~= kw_uint32());
    }
    bytes_eq(t, k.as_slice())
}

/// The bytes of `uint`.
pub open spec fn kw_uint() -> Seq<u8> {
    seq![117, 105, 110, 116]
}

fn is_uint(t: &[u8]) -> (r: bool)
    ensures
        r == (t@ == kw_uint()),
{
    let k: [u8; 4] = [117, 105, 110, 116];
    proof {
        assert(k@ =~= kw_uint());
    }
    bytes_eq(t, k.as_slice())
}

/// The bytes of `float32`.
pub open spec fn kw_float32() -> Seq<u8> {
    seq![102, 108, 111, 97, 116, 51, 50]
}

fn is_float32(t: &[u8]) -> (r: bool)
    ensures
        r == (t@ == kw_float32()),
{
    let k: [u8; 7] = [102, 108, 111, 97, 116, 51, 50];
    proof {
        assert(k@ =~= kw_float32());
    }
    bytes_eq(t, k.as_slice())
}

/// The bytes of `float`.
pub open spec fn kw_float() -> Seq<u8> {
    seq![102, 108, 111, 97, 116]
}

fn is_float(t: &[u8]) -> (r: bool)
    ensures
        r == (t@ == kw_float()),
{
    let k: [u8; 5] = [102, 108, 111, 97, 116];
    proof {
        assert(k@ =~= kw_float());
    }
    bytes_eq(t, k.as_slice())
}

/// The bytes of `float64`.
pub open spec fn kw_float64() -> Seq<u8> {
    seq![102, 108, 111, 97, 116, 54, 52]
}

fn is_float64(t: &[u8]) -> (r: bool)
    ensures
        r == (t@ == kw_float64()),
{
    let k: [u8; 7] = [102, 108, 111, 97, 116, 54, 52];
    proof {
        assert(k@ =~= kw_float64());
    }
    bytes_eq(t, k.as_slice())
}

/// The bytes of `double`.
pub open spec fn kw_double() -> Seq<u8> {
    seq![100, 111, 117, 98, 108, 101]
}

fn is_double(t: &[u8]) -> (r: bool)
    ensures
        r == (t@ == kw_double()),
{
    let k: [u8; 6] = [100, 111, 117, 98, 108, 101];
    proof {
        assert(k@ =~= kw_double());
    }
    bytes_eq(t, k.as_slice())
}

/// The bytes of `vertex`.
pub open spec fn kw_vertex() -> Seq<u8> {
    seq![118, 101, 114, 116, 101, 120]
}

fn is_vertex(t: &[u8]) -> (r: bool)
    ensures
        r == (t@ == kw_vertex()),
{
    let k: [u8; 6] = [118, 101, 114, 116, 101, 120];
    proof {
        assert(k@ =~= kw_vertex());
    }
    bytes_eq(t, k.as_slice())
}

/// The bytes of `face`.
pub open spec fn kw_face() -> Seq<u8> {
    seq![102, 97, 99, 101]
}

fn is_face(t: &[u8]) -> (r: bool)
    ensures
        r == (t@ == kw_face()),
{
    let k: [u8; 4] = [102, 97, 99, 101];
    proof {
        assert(k@ =~= kw_face());
    }
    bytes_eq(t, k.as_slice())
}

/// The bytes of `vertex_indices`.
pub open spec fn kw_vertex_indices() -> Seq<u8> {
    seq![118, 101, 114, 116, 101, 120, 95, 105, 110, 100, 105, 99, 101, 115]
}

fn is_vertex_indices(t: &[u8]) -> (r: bool)
    ensures
        r == (t@ == kw_vertex_indices()),
{
    let k: [u8; 14] = [118, 101, 114, 116, 101, 120, 95, 105, 110, 100, 105, 99, 101, 115];
    proof {
        assert(k@ =~= kw_vertex_indices());
    }
    bytes_eq(t, k.as_slice())
}

/// The bytes of `vertex_index`.
pub open spec fn kw_vertex_index() -> Seq<u8> {
    seq![118, 101, 114, 116, 101, 120, 95, 105, 110, 100, 101, 120]
}

fn is_vertex_index(t: &[u8]) -> (r: bool)
    ensures
        r == (t@ == kw_vertex_index()),
{
    let k: [u8; 12] = [118, 101, 114, 116, 101, 120, 95, 105, 110, 100, 101, 120];
    proof {
        assert(k@ =~= kw_vertex_index());
    }
    bytes_eq(t, k.as_slice())
}
// ------------------------------------------------------------------ value types

/// The scalar types of PLY properties.
#[derive(Clone, Copy, PartialEq, Eq, Structural, Debug)]
pub enum PlyType {
    Int8,
    Uint8,
    Int16,
    Uint16,
    Int32,
    Uint32,
    Float32,
    Float64,
}

/// The type a PLY type name denotes, with both the sized and the C-style names.
pub open spec fn ply_type_of(s: Seq<u8>) -> Option<PlyType> {
    if s == kw_int8() || s == kw_char() {
        Some(PlyType::Int8)
    } else if s == kw_uint8() || s == kw_uchar() {
        Some(PlyType::Uint8)
    } else if s == kw_int16() || s == kw_short() {
        Some(PlyType::Int16)
    } else if s == kw_uint16() || s == kw_ushort() {
        Some(PlyType::Uint16)
    } else if s == kw_int32() || s == kw_int() {
        Some(PlyType::Int32)
    } else if s == kw_uint32() || s == kw_uint() {
        Some(PlyType::Uint32)
    } else if s == kw_float32() || s == kw_float() {
        Some(PlyType::Float32)
    } else if s == kw_float64() || s == kw_double() {
        Some(PlyType::Float64)
    } else {
        None
    }
}

/// Size in bytes of a value of the type in a binary PLY file.
pub open spec fn ply_type_size(t: PlyType) -> nat {
    match t {
        PlyType::Int8 | PlyType::Uint8 => 1,
        PlyType::Int16 | PlyType::Uint16 => 2,
        PlyType::Int32 | PlyType::Uint32 | PlyType::Float32 => 4,
        PlyType::Float64 => 8,
    }
}

impl PlyType {
    /// The type named by a header word.
    pub fn parse(s: &[u8]) -> (r: Option<PlyType>)
        ensures
            r == ply_type_of(s@),
    {
        if is_int8(s) || is_char(s) {
            Some(PlyType::Int8)
        } else if is_uint8(s) || is_uchar(s) {
            Some(PlyType::Uint8)
        } else if is_int16(s) || is_short(s) {
            Some(PlyType::Int16)
        } else if is_uint16(s) || is_ushort(s) {
            Some(PlyType::Uint16)
        } else if is_int32(s) || is_int(s) {
            Some(PlyType::Int32)
        } else if is_uint32(s) || is_uint(s) {
            Some(PlyType::Uint32)
        } else if is_float32(s) || is_float(s) {
            Some(PlyType::Float32)
        } else if is_float64(s) || is_double(s) {
            Some(PlyType::Float64)
        } else {
            None
        }
    }

    /// Size in bytes of one value in a binary file.
    pub fn size(&self) -> (n: usize)
        ensures
            n == ply_type_size(*self),
    {
        match self {
            PlyType::Int8 | PlyType::Uint8 => 1,
            PlyType::Int16 | PlyType::Uint16 => 2,
            PlyType::Int32 | PlyType::Uint32 | PlyType::Float32 => 4,
            PlyType::Float64 => 8,
        }
    }
}

// ------------------------------------------------------------------ tokens

/// ASCII whitespace as `split_ascii_whitespace` knows it.
pub open spec fn is_ascii_ws(b: u8) -> bool {
    b == 32 || b == 9 || b == 10 || b == 12 || b == 13
}

/// The whitespace-separated words of `s[i..]`, where `cur` is the start of a
/// word in progress.
pub open spec fn words_from(s: Seq<u8>, i: int, cur: Option<int>) -> Seq<Seq<u8>>
    decreases s.len() - i,
{
    if i >= s.len() || i < 0 {
        match cur {
            Some(a) => seq![s.subrange(a, s.len() as int)],
            None => seq![],
        }
    } else if is_ascii_ws(s[i]) {
        let head: Seq<Seq<u8>> = match cur {
            Some(a) => seq![s.subrange(a, i)],
            None => seq![],
        };
        head + words_from(s, i + 1, None)
    } else {
        words_from(
            s,
            i + 1,
            match cur {
                Some(a) => Some(a),
                None => Some(i),
            },
        )
    }
}

/// The whitespace-separated words of a line (`split_ascii_whitespace`).
pub open spec fn words(s: Seq<u8>) -> Seq<Seq<u8>> {
    words_from(s, 0, None)
}

/// The words named by spans of `s`.
pub open spec fn span_words(s: Seq<u8>, spans: Seq<(usize, usize)>) -> Seq<Seq<u8>> {
    spans.map_values(|p: (usize, usize)| s.subrange(p.0 as int, p.1 as int))
}

/// Start and end of each whitespace-separated word of `s`.
fn word_spans(s: &[u8]) -> (spans: Vec<(usize, usize)>)
    ensures
        span_words(s@, spans@) == words(s@),
        forall|k: int| 0 <= k < spans@.len() ==> #[trigger] spans@[k].0 <= spans@[k].1 <= s@.len(),
{
    let mut spans: Vec<(usize, usize)> = Vec::new();
    let mut cur: Option<usize> = None;
    let mut i: usize = 0;
    while i < s.len()
        invariant
            i <= s@.len(),
            cur matches Some(a) ==> a < i,
            span_words(s@, spans@) + words_from(
                s@,
                i as int,
                match cur {
                    Some(a) => Some(a as int),
                    None => None::<int>,
                },
            ) == words(s@),
            forall|k: int| 0 <= k < spans@.len() ==> #[trigger] spans@[k].0 <= spans@[k].1 <= s@.len(),
        decreases s@.len() - i,
    {
        let ghost before = spans@;
        if s[i] == 32 || s[i] == 9 || s[i] == 10 || s[i] == 12 || s[i] == 13 {
            if let Some(a) = cur {
                spans.push((a, i));
            }
            proof {
                assert(span_words(s@, spans@) =~= span_words(s@, before) + match cur {
                    Some(a) => seq![s@.subrange(a as int, i as int)],
                    None => Seq::<Seq<u8>>::empty(),
                });
            }
            cur = None;
        } else {
            if cur.is_none() {
                cur = Some(i);
            }
        }
        i += 1;
    }
    let ghost before = spans@;
    if let Some(a) = cur {
        spans.push((a, s.len()));
    }
    proof {
        assert(span_words(s@, spans@) =~= span_words(s@, before) + match cur {
            Some(a) => seq![s@.subrange(a as int, s@.len() as int)],
            None => Seq::<Seq<u8>>::empty(),
        });
    }
    spans
}

// ------------------------------------------------------------------ numbers

/// All bytes are ASCII decimal digits.
pub open spec fn all_digits(s: Seq<u8>) -> bool {
    forall|i: int| 0 <= i < s.len() ==> 48 <= #[trigger] s[i] <= 57
}

/// The number the decimal digits of `s` denote.
pub open spec fn digits_value(s: Seq<u8>) -> nat
    decreases s.len(),
{
    if s.len() == 0 {
        0
    } else {
        digits_value(s.drop_last()) * 10 + (s.last() - 48) as nat
    }
}

/// `<usize as FromStr>::from_str`: decimal digits after an optional `+`,
/// rejected when empty or out of range.
pub open spec fn parse_usize_spec(s: Seq<u8>) -> Option<usize> {
    let d = if s.len() > 0 && s[0] == 43 {
        s.drop_first()
    } else {
        s
    };
    if d.len() == 0 || !all_digits(d) || digits_value(d) > usize::MAX {
        None
    } else {
        Some(digits_value(d) as usize)
    }
}

proof fn lemma_digits_value_grows(s: Seq<u8>, i: int)
    requires
        0 <= i <= s.len(),
        all_digits(s),
    ensures
        digits_value(s.take(i)) <= digits_value(s),
    decreases s.len() - i,
{
    if i < s.len() {
        lemma_digits_value_grows(s, i + 1);
        assert(s.take(i + 1).drop_last() =~= s.take(i));
    } else {
        assert(s.take(i) =~= s);
    }
}

/// Parses an element count.
fn parse_usize(s: &[u8]) -> (r: Option<usize>)
    ensures
        r == parse_usize_spec(s@),
{
    let start: usize = if s.len() > 0 && s[0] == 43 {
        1
    } else {
        0
    };
    let ghost d = if s@.len() > 0 && s@[0] == 43 {
        s@.drop_first()
    } else {
        s@
    };
    proof {
        assert(d =~= s@.skip(start as int));
    }
    if start == s.len() {
        return None;
    }
    let mut value: usize = 0;
    let mut i: usize = start;
    while i < s.len()
        invariant
            start <= i <= s@.len(),
            start < s@.len(),
            d == s@.skip(start as int),
            d == (if s@.len() > 0 && s@[0] == 43 {
                s@.drop_first()
            } else {
                s@
            }),
            all_digits(d.take(i - start)),
            value as nat == digits_value(d.take(i - start)),
        decreases s@.len() - i,
    {
        let c = s[i];
        proof {
            assert(d.take(i - start + 1).drop_last() =~= d.take(i - start));
            assert(d.take(i - start + 1).last() == c);
        }
        if c < 48 || c > 57 {
            proof {
                assert(d[i - start] == c);
                assert(!(48 <= d[i - start] <= 57));
                assert(!all_digits(d));
            }
            return None;
        }
        let digit = (c - 48) as usize;
        match value.checked_mul(10) {
            None => {
                proof {
                    assert(all_digits(d.take(i - start + 1)));
                    assert(digits_value(d.take(i - start + 1)) >= value * 10);
                    if all_digits(d) {
                        lemma_digits_value_grows(d, i - start + 1);
                    }
                }
                return None;
            },
            Some(v10) => match v10.checked_add(digit) {
                None => {
                    proof {
                        assert(all_digits(d.take(i - start + 1)));
                        assert(digits_value(d.take(i - start + 1)) == value * 10 + digit);
                        if all_digits(d) {
                            lemma_digits_value_grows(d, i - start + 1);
                        }
                    }
                    return None;
                },
                Some(v) => {
                    value = v;
                },
            },
        }
        i += 1;
    }
    proof {
        assert(d.take(i - start) =~= d);
    }
    Some(value)
}

// ------------------------------------------------------------------ text

/// Unicode `White_Space`, the whitespace of `char::is_whitespace`.
pub open spec fn is_white_space(c: char) -> bool {
    let u = c as u32;
    (9 <= u <= 13) || u == 32 || u == 0x85 || u == 0xa0 || u == 0x1680 || (0x2000 <= u <= 0x200a)
        || u == 0x2028 || u == 0x2029 || u == 0x202f || u == 0x205f || u == 0x3000
}

/// `s` without its leading whitespace.
pub open spec fn trim_start_ws(s: Seq<char>) -> Seq<char>
    decreases s.len(),
{
    if s.len() > 0 && is_white_space(s[0]) {
        trim_start_ws(s.drop_first())
    } else {
        s
    }
}

/// `s` without its trailing whitespace.
pub open spec fn trim_end_ws(s: Seq<char>) -> Seq<char>
    decreases s.len(),
{
    if s.len() > 0 && is_white_space(s.last()) {
        trim_end_ws(s.drop_last())
    } else {
        s
    }
}

/// `str::trim`: both ends stripped of whitespace.
pub open spec fn trim_ws(s: Seq<char>) -> Seq<char> {
    trim_end_ws(trim_start_ws(s))
}

/// `std::str::from_utf8`: the bytes as text exactly when they are well-formed
/// UTF-8, the text being their decoding.
#[verifier::external_body]
fn utf8_str(bytes: &[u8]) -> (r: Option<&str>)
    ensures
        r is Some <==> valid_utf8(bytes@),
        r matches Some(s) ==> s@ == decode_utf8(bytes@),
{
    std::str::from_utf8(bytes).ok()
}

/// `str::trim`: the text without its leading and trailing Unicode
/// `White_Space` characters.
#[verifier::external_body]
fn str_trim(s: &str) -> (r: &str)
    ensures
        r@ == trim_ws(s@),
{
    s.trim()
}

/// The first line of a PLY file: the word `ply`, perhaps with whitespace around it.
pub open spec fn is_ply_line(line: Seq<u8>) -> bool {
    valid_utf8(line) && trim_ws(decode_utf8(line)) == seq!['p', 'l', 'y']
}

fn check_ply_line(line: &[u8]) -> (r: bool)
    ensures
        r == is_ply_line(line@),
{
    match utf8_str(line) {
        None => false,
        Some(text) => {
            let t = str_trim(text);
            let r = str_eq(t, "ply");
            proof {
                reveal_strlit("ply");
                assert("ply"@ =~= seq!['p', 'l', 'y']);
            }
            r
        },
    }
}

// ------------------------------------------------------------------ the header

/// A property: its name, value type, whether it is a list, and the list's length type.
pub type PropView = (Seq<u8>, PlyType, bool, PlyType);

/// An element: its name, its instance count and its properties.
pub type ElemView = (Seq<u8>, usize, Seq<PropView>);

/// The header read so far.
pub struct HeaderAcc {
    pub ascii: bool,
    pub little_endian: bool,
    pub elements: Seq<ElemView>,
    pub seen_format: bool,
}

/// What a header line does: ends the header with an error, ends it, or
/// continues with a new state.
pub enum LineStep {
    Fail,
    Done,
    Next(HeaderAcc),
}

/// A `format` line with the given format word.
pub open spec fn format_step(acc: HeaderAcc, f: Seq<u8>) -> LineStep {
    if f == kw_ascii() {
        LineStep::Next(
            HeaderAcc { ascii: true, little_endian: acc.little_endian, elements: acc.elements, seen_format: true },
        )
    } else if f == kw_binary_little_endian() {
        LineStep::Next(
            HeaderAcc { ascii: false, little_endian: true, elements: acc.elements, seen_format: true },
        )
    } else if f == kw_binary_big_endian() {
        LineStep::Next(
            HeaderAcc { ascii: false, little_endian: false, elements: acc.elements, seen_format: true },
        )
    } else {
        LineStep::Fail
    }
}

/// The state with a property added to the last element.
pub open spec fn with_property(acc: HeaderAcc, p: PropView) -> HeaderAcc {
    let last = acc.elements.len() - 1;
    let e = acc.elements[last];
    HeaderAcc {
        ascii: acc.ascii,
        little_endian: acc.little_endian,
        elements: acc.elements.update(last, (e.0, e.1, e.2.push(p))),
        seen_format: acc.seen_format,
    }
}

/// A `property` line: `property <type> <name>` or
/// `property list <length type> <type> <name>`, after at least one element.
pub open spec fn property_step(acc: HeaderAcc, t: Seq<Seq<u8>>) -> LineStep {
    if acc.elements.len() == 0 || t.len() < 2 {
        LineStep::Fail
    } else if t[1] == kw_list() {
        if t.len() < 5 || ply_type_of(t[2]) is None || ply_type_of(t[3]) is None {
            LineStep::Fail
        } else {
            LineStep::Next(
                with_property(acc, (t[4], ply_type_of(t[3]).unwrap(), true, ply_type_of(t[2]).unwrap())),
            )
        }
    } else {
        if ply_type_of(t[1]) is None || t.len() < 3 {
            LineStep::Fail
        } else {
            LineStep::Next(with_property(acc, (t[2], ply_type_of(t[1]).unwrap(), false, PlyType::Uint8)))
        }
    }
}

/// One header line after the first, given its words. Lines with an unknown
/// first word, and empty lines, are skipped.
pub open spec fn step_line(acc: HeaderAcc, t: Seq<Seq<u8>>) -> LineStep {
    if t.len() == 0 {
        LineStep::Next(acc)
    } else if t[0] == kw_format() {
        if t.len() < 2 {
            LineStep::Fail
        } else {
            format_step(acc, t[1])
        }
    } else if t[0] == kw_comment() || t[0] == kw_obj_info() {
        LineStep::Next(acc)
    } else if t[0] == kw_element() {
        if t.len() < 3 || parse_usize_spec(t[2]) is None {
            LineStep::Fail
        } else {
            LineStep::Next(
                HeaderAcc {
                    ascii: acc.ascii,
                    little_endian: acc.little_endian,
                    elements: acc.elements.push((t[1], parse_usize_spec(t[2]).unwrap(), seq![])),
                    seen_format: acc.seen_format,
                },
            )
        }
    } else if t[0] == kw_property() {
        property_step(acc, t)
    } else if t[0] == kw_end_header() {
        LineStep::Done
    } else {
        LineStep::Next(acc)
    }
}

/// Position of the first newline at or after `i`.
pub open spec fn newline_from(data: Seq<u8>, i: int) -> Option<int>
    decreases data.len() - i,
{
    if i < 0 || i >= data.len() {
        None
    } else if data[i] == 10 {
        Some(i)
    } else {
        newline_from(data, i + 1)
    }
}

proof fn lemma_newline_from(data: Seq<u8>, i: int)
    requires
        0 <= i,
    ensures
        newline_from(data, i) matches Some(e) ==> i <= e < data.len() && data[e] == 10 && forall|j: int|
            i <= j < e ==> data[j] != 10,
        newline_from(data, i) is None ==> forall|j: int| i <= j < data.len() ==> data[j] != 10,
    decreases data.len() - i,
{
    if 0 <= i < data.len() && data[i] != 10 {
        lemma_newline_from(data, i + 1);
    }
}

/// The header lines from `pos` on: the state at `end_header` and the offset
/// just after that line, or `None` for a malformed header.
pub open spec fn lines_from(data: Seq<u8>, pos: int, acc: HeaderAcc) -> Option<(HeaderAcc, int)>
    decreases data.len() - pos,
{
    if pos < 0 {
        None
    } else {
        match newline_from(data, pos) {
            None => None,
            Some(e) => {
                let line = data.subrange(pos, e);
                if e < pos || e >= data.len() || !valid_utf8(line) {
                    None
                } else {
                    match step_line(acc, words(line)) {
                        LineStep::Fail => None,
                        LineStep::Done => Some((acc, e + 1)),
                        LineStep::Next(a) => lines_from(data, e + 1, a),
                    }
                }
            },
        }
    }
}

/// The header given by the lines from `pos` on, once the format is known.
pub open spec fn header_from(data: Seq<u8>, pos: int, acc: HeaderAcc) -> Option<
    (bool, bool, Seq<ElemView>, usize),
> {
    match lines_from(data, pos, acc) {
        None => None,
        Some((a, off)) => if a.seen_format {
            Some((a.ascii, a.little_endian, a.elements, off as usize))
        } else {
            None
        },
    }
}

/// The state before the first header line after `ply`.
pub open spec fn initial_acc() -> HeaderAcc {
    HeaderAcc { ascii: true, little_endian: true, elements: seq![], seen_format: false }
}

/// The header of a PLY file: `(ascii, little_endian, elements, data_offset)`,
/// or `None` when the file does not start with a well-formed header.
pub open spec fn header_spec(data: Seq<u8>) -> Option<(bool, bool, Seq<ElemView>, usize)> {
    match newline_from(data, 0) {
        None => None,
        Some(e) => if is_ply_line(data.subrange(0, e)) {
            header_from(data, e + 1, initial_acc())
        } else {
            None
        },
    }
}

/// A property of an element.
#[derive(Clone, Debug)]
pub struct PlyProperty {
    pub name: Vec<u8>,
    pub ptype: PlyType,
    pub is_list: bool,
    pub length_type: PlyType,
}

impl View for PlyProperty {
    type V = PropView;

    open spec fn view(&self) -> PropView {
        (self.name@, self.ptype, self.is_list, self.length_type)
    }
}

/// An element of the header with its properties.
#[derive(Clone, Debug)]
pub struct PlyElement {
    pub name: Vec<u8>,
    pub count: usize,
    pub properties: Vec<PlyProperty>,
}

impl View for PlyElement {
    type V = ElemView;

    open spec fn view(&self) -> ElemView {
        (self.name@, self.count, self.properties@.map_values(|p: PlyProperty| p@))
    }
}

/// The parsed header.
pub struct PlyHeader {
    pub ascii: bool,
    pub little_endian: bool,
    pub elements: Vec<PlyElement>,
    pub data_offset: usize,
}

/// The views of a list of elements.
pub open spec fn elements_view(es: Seq<PlyElement>) -> Seq<ElemView> {
    es.map_values(|e: PlyElement| e@)
}

impl View for PlyHeader {
    type V = (bool, bool, Seq<ElemView>, usize);

    open spec fn view(&self) -> (bool, bool, Seq<ElemView>, usize) {
        (self.ascii, self.little_endian, elements_view(self.elements@), self.data_offset)
    }
}

/// The header state while it is read.
struct HeaderBuilder {
    ascii: bool,
    little_endian: bool,
    elements: Vec<PlyElement>,
    seen_format: bool,
}

impl HeaderBuilder {
    spec fn acc(&self) -> HeaderAcc {
        HeaderAcc {
            ascii: self.ascii,
            little_endian: self.little_endian,
            elements: elements_view(self.elements@),
            seen_format: self.seen_format,
        }
    }

    /// Applies one header line given by the words `spans` of `line`:
    /// `None` for a malformed line, `Some(true)` at `end_header`.
    fn step(&mut self, line: &[u8], spans: &Vec<(usize, usize)>) -> (r: Option<bool>)
        requires
            forall|k: int| 0 <= k < spans@.len() ==> #[trigger] spans@[k].0 <= spans@[k].1 <= line@.len(),
        ensures
            match step_line(old(self).acc(), span_words(line@, spans@)) {
                LineStep::Fail => r is None,
                LineStep::Done => r == Some(true) && final(self).acc() == old(self).acc(),
                LineStep::Next(a) => r == Some(false) && final(self).acc() == a,
            },
    {
        let ghost t = span_words(line@, spans@);
        if spans.len() == 0 {
            return Some(false);
        }
        let w0 = word(line, spans, 0);
        if is_format(w0) {
            if spans.len() < 2 {
                return None;
            }
            let f = word(line, spans, 1);
            if is_ascii(f) {
                self.ascii = true;
            } else if is_binary_little_endian(f) {
                self.ascii = false;
                self.little_endian = true;
            } else if is_binary_big_endian(f) {
                self.ascii = false;
                self.little_endian = false;
            } else {
                return None;
            }
            self.seen_format = true;
            return Some(false);
        }
        if is_comment(w0) || is_obj_info(w0) {
            return Some(false);
        }
        if is_element(w0) {
            if spans.len() < 3 {
                return None;
            }
            let name = vstd::slice::slice_to_vec(word(line, spans, 1));
            let count = match parse_usize(word(line, spans, 2)) {
                Some(c) => c,
                None => {
                    return None;
                },
            };
            let ghost before = self.elements@;
            self.elements.push(PlyElement { name, count, properties: Vec::new() });
            proof {
                assert(self.elements@.last().properties@.map_values(|p: PlyProperty| p@) =~= Seq::<
                    PropView,
                >::empty());
                assert(self.elements@.last()@ == (t[1], count, Seq::<PropView>::empty()));
                assert(elements_view(self.elements@) =~= elements_view(before).push(
                    (t[1], count, seq![]),
                ));
            }
            return Some(false);
        }
        if is_property(w0) {
            if self.elements.len() == 0 || spans.len() < 2 {
                return None;
            }
            let t1 = word(line, spans, 1);
            let prop = if is_list(t1) {
                if spans.len() < 5 {
                    return None;
                }
                let lt = match PlyType::parse(word(line, spans, 2)) {
                    Some(x) => x,
                    None => {
                        return None;
                    },
                };
                let vt = match PlyType::parse(word(line, spans, 3)) {
                    Some(x) => x,
                    None => {
                        return None;
                    },
                };
                let name = vstd::slice::slice_to_vec(word(line, spans, 4));
                PlyProperty { name, ptype: vt, is_list: true, length_type: lt }
            } else {
                let vt = match PlyType::parse(t1) {
                    Some(x) => x,
                    None => {
                        return None;
                    },
                };
                if spans.len() < 3 {
                    return None;
                }
                let name = vstd::slice::slice_to_vec(word(line, spans, 2));
                PlyProperty { name, ptype: vt, is_list: false, length_type: PlyType::Uint8 }
            };
            let ghost before = self.elements@;
            let mut el = self.elements.pop().unwrap();
            let ghost el0 = el;
            el.properties.push(prop);
            self.elements.push(el);
            proof {
                let last = before.len() - 1;
                assert(el0 == before[last]);
                assert(el.properties@.map_values(|p: PlyProperty| p@) =~= el0.properties@.map_values(
                    |p: PlyProperty| p@,
                ).push(prop@));
                assert(elements_view(self.elements@) =~= elements_view(before).update(
                    last,
                    (el0.name@, el0.count, el0@.2.push(prop@)),
                ));
            }
            return Some(false);
        }
        if is_end_header(w0) {
            return Some(true);
        }
        Some(false)
    }
}

/// Word `k` of a line.
fn word<'a>(line: &'a [u8], spans: &Vec<(usize, usize)>, k: usize) -> (w: &'a [u8])
    requires
        k < spans@.len(),
        forall|j: int| 0 <= j < spans@.len() ==> #[trigger] spans@[j].0 <= spans@[j].1 <= line@.len(),
    ensures
        w@ == span_words(line@, spans@)[k as int],
{
    let (a, b) = spans[k];
    vstd::slice::slice_subrange(line, a, b)
}

/// Position of the first newline at or after `i`.
fn find_newline(data: &[u8], i: usize) -> (r: Option<usize>)
    ensures
        r matches Some(e) ==> newline_from(data@, i as int) == Some(e as int) && i <= e < data@.len(),
        r is None ==> newline_from(data@, i as int) is None,
{
    proof {
        lemma_newline_from(data@, i as int);
    }
    let mut j = i;
    while j < data.len()
        invariant
            i <= j,
            newline_from(data@, i as int) == newline_from(data@, j as int),
        decreases data@.len() - j,
    {
        if data[j] == 10 {
            return Some(j);
        }
        j += 1;
    }
    None
}

/// Reads the header of a PLY file (`ply`, `format`, `element`, `property`,
/// `comment`/`obj_info` lines up to `end_header`).
pub fn parse_header(data: &[u8]) -> (r: Option<PlyHeader>)
    ensures
        match r {
            None => header_spec(data@) is None,
            Some(h) => header_spec(data@) == Some(h@),
        },
{
    let n = data.len();
    let end = match find_newline(data, 0) {
        Some(e) => e,
        None => {
            return None;
        },
    };
    let first = vstd::slice::slice_subrange(data, 0, end);
    if !check_ply_line(first) {
        return None;
    }
    let mut pos = end + 1;
    let mut b = HeaderBuilder { ascii: true, little_endian: true, elements: Vec::new(), seen_format: false };
    proof {
        assert(elements_view(b.elements@) =~= Seq::<ElemView>::empty());
        assert(b.acc() == initial_acc());
    }
    loop
        invariant
            pos <= data@.len(),
            n == data@.len(),
            header_spec(data@) == header_from(data@, pos as int, b.acc()),
        decreases data@.len() - pos,
    {
        let e = match find_newline(data, pos) {
            Some(e) => e,
            None => {
                return None;
            },
        };
        let line = vstd::slice::slice_subrange(data, pos, e);
        if utf8_str(line).is_none() {
            return None;
        }
        let spans = word_spans(line);
        let ghost acc0 = b.acc();
        match b.step(line, &spans) {
            None => {
                return None;
            },
            Some(true) => {
                if !b.seen_format {
                    return None;
                }
                let h = PlyHeader {
                    ascii: b.ascii,
                    little_endian: b.little_endian,
                    elements: b.elements,
                    data_offset: e + 1,
                };
                return Some(h);
            },
            Some(false) => {},
        }
        pos = e + 1;
    }
}

// ------------------------------------------------------------------ lookups

/// Position of the first property of `el` named `name`.
pub fn find_prop(el: &PlyElement, name: &[u8]) -> (r: Option<usize>)
    ensures
        r matches Some(i) ==> i < el@.2.len() && el@.2[i as int].0 == name@ && forall|j: int|
            0 <= j < i ==> #[trigger] el@.2[j].0 != name@,
        r is None ==> forall|j: int| 0 <= j < el@.2.len() ==> #[trigger] el@.2[j].0 != name@,
{
    let mut i: usize = 0;
    while i < el.properties.len()
        invariant
            i <= el.properties@.len(),
            el@.2.len() == el.properties@.len(),
            forall|j: int| 0 <= j < i ==> #[trigger] el@.2[j].0 != name@,
        decreases el.properties@.len() - i,
    {
        proof {
            assert(el@.2[i as int] == el.properties@[i as int]@);
        }
        if bytes_eq(el.properties[i].name.as_slice(), name) {
            return Some(i);
        }
        i += 1;
    }
    None
}

/// Position of the first element named `name`.
pub open spec fn first_element_named(es: Seq<ElemView>, name: Seq<u8>) -> Option<int> {
    if exists|i: int| 0 <= i < es.len() && #[trigger] es[i].0 == name {
        Some(
            choose|i: int|
                0 <= i < es.len() && #[trigger] es[i].0 == name && forall|j: int|
                    0 <= j < i ==> #[trigger] es[j].0 != name,
        )
    } else {
        None
    }
}

proof fn lemma_first_element_named(es: Seq<ElemView>, name: Seq<u8>, i: int)
    requires
        0 <= i < es.len(),
        es[i].0 == name,
        forall|j: int| 0 <= j < i ==> #[trigger] es[j].0 != name,
    ensures
        first_element_named(es, name) == Some(i),
{
    let k = choose|k: int|
        0 <= k < es.len() && #[trigger] es[k].0 == name && forall|j: int| 0 <= j < k ==> #[trigger] es[j].0 != name;
    assert(0 <= k < es.len() && es[k].0 == name && forall|j: int| 0 <= j < k ==> #[trigger] es[j].0 != name);
    if k < i {
        assert(es[k].0 != name);
    }
    if i < k {
        assert(es[i].0 != name);
    }
}

/// Position of the first element of the header named `name`.
fn find_element(h: &PlyHeader, name: &[u8]) -> (r: Option<usize>)
    ensures
        r matches Some(i) ==> first_element_named(h@.2, name@) == Some(i as int) && i < h@.2.len(),
        r is None ==> first_element_named(h@.2, name@) is None,
{
    let mut i: usize = 0;
    while i < h.elements.len()
        invariant
            i <= h.elements@.len(),
            h@.2.len() == h.elements@.len(),
            forall|j: int| 0 <= j < i ==> #[trigger] h@.2[j].0 != name@,
        decreases h.elements@.len() - i,
    {
        proof {
            assert(h@.2[i as int] == h.elements@[i as int]@);
        }
        if bytes_eq(h.elements[i].name.as_slice(), name) {
            proof {
                lemma_first_element_named(h@.2, name@, i as int);
            }
            return Some(i);
        }
        i += 1;
    }
    proof {
        assert(!exists|i: int| 0 <= i < h@.2.len() && #[trigger] h@.2[i].0 == name@);
    }
    None
}

/// The element has a `vertex_indices` or `vertex_index` property.
pub open spec fn has_face_indices(e: ElemView) -> bool {
    exists|j: int| 0 <= j < e.2.len() && (#[trigger] e.2[j].0 == kw_vertex_indices() || e.2[j].0 == kw_vertex_index())
}

/// What a header says the file holds: triangles when its first `face`
/// element has vertex indices and instances, else points when its first
/// `vertex` element has instances.
pub open spec fn geometry_of_elements(es: Seq<ElemView>) -> FileGeometry {
    let n_vertices: nat = match first_element_named(es, kw_vertex()) {
        Some(i) => es[i].1 as nat,
        None => 0,
    };
    let n_faces: nat = match first_element_named(es, kw_face()) {
        Some(i) => if has_face_indices(es[i]) {
            es[i].1 as nat
        } else {
            0
        },
        None => 0,
    };
    if n_faces > 0 {
        FileGeometry::ContainsTriangles
    } else if n_vertices > 0 {
        FileGeometry::ContainsPoints
    } else {
        FileGeometry::ContentsUnknown
    }
}

/// The kind of geometry a parsed header describes.
pub fn file_geometry_of_header(h: &PlyHeader) -> (g: FileGeometry)
    ensures
        g == geometry_of_elements(h@.2),
{
    let vertex_name: [u8; 6] = [118, 101, 114, 116, 101, 120];
    let face_name: [u8; 4] = [102, 97, 99, 101];
    let indices_name: [u8; 14] = [118, 101, 114, 116, 101, 120, 95, 105, 110, 100, 105, 99, 101, 115];
    let index_name: [u8; 12] = [118, 101, 114, 116, 101, 120, 95, 105, 110, 100, 101, 120];
    proof {
        assert(vertex_name@ =~= kw_vertex());
        assert(face_name@ =~= kw_face());
        assert(indices_name@ =~= kw_vertex_indices());
        assert(index_name@ =~= kw_vertex_index());
    }
    let n_vertices: usize = match find_element(h, vertex_name.as_slice()) {
        Some(i) => h.elements[i].count,
        None => 0,
    };
    let n_faces: usize = match find_element(h, face_name.as_slice()) {
        Some(i) => {
            let e = &h.elements[i];
            let a = find_prop(e, indices_name.as_slice());
            let b = find_prop(e, index_name.as_slice());
            if a.is_some() || b.is_some() {
                proof {
                    assert(h@.2[i as int] == e@);
                    match a {
                        Some(j) => {
                            assert(e@.2[j as int].0 == kw_vertex_indices());
                        },
                        None => {
                            assert(e@.2[b.unwrap() as int].0 == kw_vertex_index());
                        },
                    }
                }
                e.count
            } else {
                proof {
                    assert(h@.2[i as int] == e@);
                    assert(!has_face_indices(e@));
                }
                0
            }
        },
        None => 0,
    };
    proof {
        match first_element_named(h@.2, kw_vertex()) {
            Some(i) => {
                assert(h@.2[i] == h.elements@[i]@);
            },
            None => {},
        }
    }
    if n_faces > 0 {
        FileGeometry::ContainsTriangles
    } else if n_vertices > 0 {
        FileGeometry::ContainsPoints
    } else {
        FileGeometry::ContentsUnknown
    }
}

/// `ReadFileGeometryTypePLY` on the bytes of a file: what its header says it
/// holds, or nothing known for a malformed header.
pub fn read_file_geometry_type_ply(data: &[u8]) -> (g: FileGeometry)
    ensures
        g == (match header_spec(data@) {
            None => FileGeometry::ContentsUnknown,
            Some(h) => geometry_of_elements(h.2),
        }),
{
    match parse_header(data) {
        None => FileGeometry::ContentsUnknown,
        Some(h) => file_geometry_of_header(&h),
    }
}

// ------------------------------------------------------------------ writing

/// The decimal digits of `n` as ASCII bytes, without leading zeros.
pub open spec fn decimal_bytes(n: nat) -> Seq<u8>
    decreases n,
{
    if n < 10 {
        seq![(48 + n) as u8]
    } else {
        decimal_bytes(n / 10).push((48 + n % 10) as u8)
    }
}

/// `s` in reverse order.
pub open spec fn reversed(s: Seq<u8>) -> Seq<u8> {
    Seq::new(s.len(), |i: int| s[s.len() - 1 - i])
}

/// Appends the decimal digits of `v`.
pub(crate) fn push_decimal(buf: &mut Vec<u8>, v: u64)
    ensures
        final(buf)@ == old(buf)@ + decimal_bytes(v as nat),
{
    let mut digits: Vec<u8> = Vec::new();
    let mut x: u64 = v;
    loop
        invariant_except_break
            decimal_bytes(v as nat) == decimal_bytes(x as nat) + reversed(digits@),
        ensures
            decimal_bytes(v as nat) == reversed(digits@),
        decreases x,
    {
        let d = (x % 10) as u8;
        let ghost before = digits@;
        digits.push(48 + d);
        proof {
            assert(reversed(digits@) =~= seq![(48 + d) as u8] + reversed(before));
        }
        if x < 10 {
            proof {
                assert(decimal_bytes(x as nat) == seq![(48 + x) as u8]);
                assert(decimal_bytes(x as nat) + reversed(before) =~= reversed(digits@));
            }
            break;
        }
        proof {
            assert(decimal_bytes(x as nat) == decimal_bytes((x / 10) as nat).push((48 + x % 10) as u8));
            assert(decimal_bytes(x as nat) + reversed(before) =~= decimal_bytes((x / 10) as nat) + reversed(
                digits@,
            ));
        }
        x = x / 10;
    }
    let n = digits.len();
    let mut i: usize = 0;
    let ghost start = buf@;
    while i < n
        invariant
            n == digits@.len(),
            i <= n,
            buf@ == start + reversed(digits@).take(i as int),
            start == old(buf)@,
            decimal_bytes(v as nat) == reversed(digits@),
        decreases n - i,
    {
        buf.push(digits[n - 1 - i]);
        proof {
            assert(reversed(digits@).take(i + 1) =~= reversed(digits@).take(i as int).push(
                digits@[n - 1 - i],
            ));
        }
        i += 1;
    }
    proof {
        assert(reversed(digits@).take(n as int) =~= reversed(digits@));
    }
}

/// Appends the bytes of `s`.
fn push_bytes(buf: &mut Vec<u8>, s: &[u8])
    ensures
        final(buf)@ == old(buf)@ + s@,
{
    let mut i: usize = 0;
    while i < s.len()
        invariant
            i <= s@.len(),
            buf@ == old(buf)@ + s@.take(i as int),
        decreases s@.len() - i,
    {
        buf.push(s[i]);
        proof {
            assert(s@.take(i + 1) =~= s@.take(i as int).push(s@[i as int]));
        }
        i += 1;
    }
    proof {
        assert(s@.take(s@.len() as int) =~= s@);
    }
}

/// Appends the UTF-8 bytes of `s`.
fn push_text(buf: &mut Vec<u8>, s: &str)
    ensures
        final(buf)@ == old(buf)@ + s.spec_bytes(),
{
    push_bytes(buf, s.as_bytes());
}

/// The separator after a value: a newline after the last value of a line,
/// else a space.
pub open spec fn separator(last_in_line: bool) -> Seq<u8> {
    if last_in_line {
        seq![10u8]
    } else {
        seq![32u8]
    }
}

/// The four little-endian bytes of `v` (`u32::to_le_bytes`).
pub open spec fn le_bytes_u32(v: u32) -> Seq<u8> {
    seq![
        (v % 256) as u8,
        ((v / 256) % 256) as u8,
        ((v / 65536) % 256) as u8,
        (v / 16777216) as u8,
    ]
}

/// The body of a PLY file under construction, ASCII or binary little endian.
pub struct PlyWriter {
    pub ascii: bool,
    pub buf: Vec<u8>,
}

impl PlyWriter {
    /// A writer whose output starts with `header`.
    pub fn new(ascii: bool, header: Vec<u8>) -> (w: Self)
        ensures
            w.ascii == ascii,
            w.buf@ == header@,
    {
        PlyWriter { ascii, buf: header }
    }

    /// Writes an unsigned byte: decimal and a separator in ASCII, the byte
    /// itself in binary.
    pub fn write_uchar(&mut self, v: u8, last_in_line: bool)
        ensures
            final(self).ascii == old(self).ascii,
            final(self).buf@ == old(self).buf@ + (if old(self).ascii {
                decimal_bytes(v as nat) + separator(last_in_line)
            } else {
                seq![v]
            }),
    {
        if self.ascii {
            push_decimal(&mut self.buf, v as u64);
            self.push_sep(last_in_line);
        } else {
            self.buf.push(v);
        }
    }

    /// Writes an unsigned 32-bit value: decimal and a separator in ASCII, four
    /// little-endian bytes in binary.
    pub fn write_uint(&mut self, v: u32, last_in_line: bool)
        ensures
            final(self).ascii == old(self).ascii,
            final(self).buf@ == old(self).buf@ + (if old(self).ascii {
                decimal_bytes(v as nat) + separator(last_in_line)
            } else {
                le_bytes_u32(v)
            }),
    {
        if self.ascii {
            push_decimal(&mut self.buf, v as u64);
            self.push_sep(last_in_line);
        } else {
            let bytes: [u8; 4] = [
                (v % 256) as u8,
                ((v / 256) % 256) as u8,
                ((v / 65536) % 256) as u8,
                (v / 16777216) as u8,
            ];
            proof {
                assert(bytes@ =~= le_bytes_u32(v));
            }
            push_bytes(&mut self.buf, bytes.as_slice());
        }
    }

    /// Ends a value: a newline after the last value of a line, else a space.
    pub fn push_sep(&mut self, last_in_line: bool)
        ensures
            final(self).ascii == old(self).ascii,
            final(self).buf@ == old(self).buf@ + separator(last_in_line),
    {
        if last_in_line {
            self.buf.push(10);
        } else {
            self.buf.push(32);
        }
        proof {
            assert(self.buf@ =~= old(self).buf@ + separator(last_in_line));
        }
    }
}

/// The bytes of a triangle record: the count `3` and the three indices,
/// each reinterpreted as unsigned.
pub open spec fn triangle_bytes(ascii: bool, t: [i32; 3]) -> Seq<u8> {
    let u = |x: i32| x as u32;
    if ascii {
        decimal_bytes(3) + separator(false) + decimal_bytes(u(t[0]) as nat) + separator(false)
            + decimal_bytes(u(t[1]) as nat) + separator(false) + decimal_bytes(u(t[2]) as nat)
            + separator(true)
    } else {
        seq![3u8] + le_bytes_u32(u(t[0])) + le_bytes_u32(u(t[1])) + le_bytes_u32(u(t[2]))
    }
}

/// The records of the triangles `ts`, in order.
pub open spec fn triangles_bytes(ascii: bool, ts: Seq<[i32; 3]>) -> Seq<u8>
    decreases ts.len(),
{
    if ts.len() == 0 {
        seq![]
    } else {
        triangles_bytes(ascii, ts.drop_last()) + triangle_bytes(ascii, ts.last())
    }
}

impl PlyWriter {
    /// Writes the face list of a mesh: for each triangle a list of three
    /// unsigned indices with an unsigned-byte count.
    pub fn write_triangles(&mut self, triangles: &[[i32; 3]])
        ensures
            final(self).ascii == old(self).ascii,
            final(self).buf@ == old(self).buf@ + triangles_bytes(old(self).ascii, triangles@),
    {
        let mut i: usize = 0;
        while i < triangles.len()
            invariant
                i <= triangles@.len(),
                self.ascii == old(self).ascii,
                self.buf@ == old(self).buf@ + triangles_bytes(self.ascii, triangles@.take(i as int)),
            decreases triangles@.len() - i,
        {
            let t = triangles[i];
            let ghost b0 = self.buf@;
            self.write_uchar(3, false);
            self.write_uint(t[0] as u32, false);
            self.write_uint(t[1] as u32, false);
            self.write_uint(t[2] as u32, true);
            proof {
                assert(triangles@.take(i + 1).drop_last() =~= triangles@.take(i as int));
                assert(triangles@.take(i + 1).last() == t);
                assert(self.buf@ =~= b0 + triangle_bytes(self.ascii, t));
            }
            i += 1;
        }
        proof {
            assert(triangles@.take(triangles@.len() as int) =~= triangles@);
        }
    }
}

/// The `format` line of a header.
pub open spec fn format_line(ascii: bool) -> Seq<u8> {
    if ascii {
        "format ascii 1.0\n".spec_bytes()
    } else {
        "format binary_little_endian 1.0\n".spec_bytes()
    }
}

/// The property lines of the vertex element: coordinates as doubles, then
/// normals as doubles and colors as unsigned bytes when written.
pub open spec fn vertex_property_lines(normals: bool, colors: bool) -> Seq<u8> {
    "property double x\nproperty double y\nproperty double z\n".spec_bytes() + (if normals {
        "property double nx\nproperty double ny\nproperty double nz\n".spec_bytes()
    } else {
        Seq::<u8>::empty()
    }) + (if colors {
        "property uchar red\nproperty uchar green\nproperty uchar blue\n".spec_bytes()
    } else {
        Seq::<u8>::empty()
    })
}

/// The start of every header written here: `ply`, the format and the comment.
pub open spec fn header_preamble(ascii: bool) -> Seq<u8> {
    "ply\n".spec_bytes() + format_line(ascii) + "comment Created by tiny3d\n".spec_bytes()
}

/// The header of a point cloud of `n` points.
pub open spec fn point_cloud_header(n: nat, ascii: bool, normals: bool, colors: bool) -> Seq<u8> {
    header_preamble(ascii) + "element vertex ".spec_bytes() + decimal_bytes(n) + "\n".spec_bytes()
        + vertex_property_lines(normals, colors) + "end_header\n".spec_bytes()
}

/// The header of a triangle mesh of `nv` vertices and `nt` triangles.
pub open spec fn triangle_mesh_header(nv: nat, nt: nat, ascii: bool, normals: bool, colors: bool) -> Seq<
    u8,
> {
    header_preamble(ascii) + "element vertex ".spec_bytes() + decimal_bytes(nv) + "\n".spec_bytes()
        + vertex_property_lines(normals, colors) + "element face ".spec_bytes() + decimal_bytes(nt)
        + "\n".spec_bytes() + "property list uchar uint vertex_indices\n".spec_bytes()
        + "end_header\n".spec_bytes()
}

fn push_preamble(buf: &mut Vec<u8>, ascii: bool)
    ensures
        final(buf)@ == old(buf)@ + header_preamble(ascii),
{
    push_text(buf, "ply\n");
    if ascii {
        push_text(buf, "format ascii 1.0\n");
    } else {
        push_text(buf, "format binary_little_endian 1.0\n");
    }
    push_text(buf, "comment Created by tiny3d\n");
    proof {
        assert(buf@ =~= old(buf)@ + header_preamble(ascii));
    }
}

fn push_vertex_element(buf: &mut Vec<u8>, n: usize, normals: bool, colors: bool)
    ensures
        final(buf)@ == old(buf)@ + "element vertex ".spec_bytes() + decimal_bytes(n as nat)
            + "\n".spec_bytes() + vertex_property_lines(normals, colors),
{
    push_text(buf, "element vertex ");
    push_decimal(buf, n as u64);
    push_text(buf, "\n");
    let ghost b1 = buf@;
    push_text(buf, "property double x\nproperty double y\nproperty double z\n");
    if normals {
        push_text(buf, "property double nx\nproperty double ny\nproperty double nz\n");
    }
    if colors {
        push_text(buf, "property uchar red\nproperty uchar green\nproperty uchar blue\n");
    }
    proof {
        assert(buf@ =~= b1 + vertex_property_lines(normals, colors));
    }
}

/// The header `write_point_cloud_to_ply_file` writes for `n_points` points.
pub fn point_cloud_header_bytes(n_points: usize, ascii: bool, normals: bool, colors: bool) -> (h: Vec<
    u8,
>)
    ensures
        h@ == point_cloud_header(n_points as nat, ascii, normals, colors),
{
    let mut buf: Vec<u8> = Vec::new();
    push_preamble(&mut buf, ascii);
    push_vertex_element(&mut buf, n_points, normals, colors);
    push_text(&mut buf, "end_header\n");
    proof {
        assert(buf@ =~= point_cloud_header(n_points as nat, ascii, normals, colors));
    }
    buf
}

/// The header `write_triangle_mesh_to_ply_file` writes for a mesh of
/// `n_vertices` vertices and `n_triangles` triangles.
pub fn triangle_mesh_header_bytes(
    n_vertices: usize,
    n_triangles: usize,
    ascii: bool,
    normals: bool,
    colors: bool,
) -> (h: Vec<u8>)
    ensures
        h@ == triangle_mesh_header(n_vertices as nat, n_triangles as nat, ascii, normals, colors),
{
    let mut buf: Vec<u8> = Vec::new();
    push_preamble(&mut buf, ascii);
    push_vertex_element(&mut buf, n_vertices, normals, colors);
    push_text(&mut buf, "element face ");
    push_decimal(&mut buf, n_triangles as u64);
    push_text(&mut buf, "\n");
    push_text(&mut buf, "property list uchar uint vertex_indices\n");
    push_text(&mut buf, "end_header\n");
    proof {
        assert(buf@ =~= triangle_mesh_header(
            n_vertices as nat,
            n_triangles as nat,
            ascii,
            normals,
            colors,
        ));
    }
    buf
}

// ------------------------------------------------------------------ reading plans

/// The bytes of `x`.
pub open spec fn kw_x() -> Seq<u8> {
    seq![120]
}

/// The bytes of `y`.
pub open spec fn kw_y() -> Seq<u8> {
    seq![121]
}

/// The bytes of `z`.
pub open spec fn kw_z() -> Seq<u8> {
    seq![122]
}

/// The bytes of `nx`.
pub open spec fn kw_nx() -> Seq<u8> {
    seq![110, 120]
}

/// The bytes of `ny`.
pub open spec fn kw_ny() -> Seq<u8> {
    seq![110, 121]
}

/// The bytes of `nz`.
pub open spec fn kw_nz() -> Seq<u8> {
    seq![110, 122]
}

/// The bytes of `red`.
pub open spec fn kw_red() -> Seq<u8> {
    seq![114, 101, 100]
}

/// The bytes of `green`.
pub open spec fn kw_green() -> Seq<u8> {
    seq![103, 114, 101, 101, 110]
}

/// The bytes of `blue`.
pub open spec fn kw_blue() -> Seq<u8> {
    seq![98, 108, 117, 101]
}

/// Where the values of a vertex property go.
#[derive(Clone, Copy, PartialEq, Eq, Structural, Debug)]
pub enum PropTarget {
    Point(usize),
    Normal(usize),
    Color(usize),
    Ignored,
}

/// The target of a vertex property by its name.
pub open spec fn target_of(name: Seq<u8>) -> PropTarget {
    if name == kw_x() {
        PropTarget::Point(0)
    } else if name == kw_y() {
        PropTarget::Point(1)
    } else if name == kw_z() {
        PropTarget::Point(2)
    } else if name == kw_nx() {
        PropTarget::Normal(0)
    } else if name == kw_ny() {
        PropTarget::Normal(1)
    } else if name == kw_nz() {
        PropTarget::Normal(2)
    } else if name == kw_red() {
        PropTarget::Color(0)
    } else if name == kw_green() {
        PropTarget::Color(1)
    } else if name == kw_blue() {
        PropTarget::Color(2)
    } else {
        PropTarget::Ignored
    }
}

fn target_by_name(name: &[u8]) -> (t: PropTarget)
    ensures
        t == target_of(name@),
{
    let k_x: [u8; 1] = [120];
    let k_y: [u8; 1] = [121];
    let k_z: [u8; 1] = [122];
    let k_nx: [u8; 2] = [110, 120];
    let k_ny: [u8; 2] = [110, 121];
    let k_nz: [u8; 2] = [110, 122];
    let k_red: [u8; 3] = [114, 101, 100];
    let k_green: [u8; 5] = [103, 114, 101, 101, 110];
    let k_blue: [u8; 4] = [98, 108, 117, 101];
    proof {
        assert(k_x@ =~= kw_x());
        assert(k_y@ =~= kw_y());
        assert(k_z@ =~= kw_z());
        assert(k_nx@ =~= kw_nx());
        assert(k_ny@ =~= kw_ny());
        assert(k_nz@ =~= kw_nz());
        assert(k_red@ =~= kw_red());
        assert(k_green@ =~= kw_green());
        assert(k_blue@ =~= kw_blue());
    }
    if bytes_eq(name, k_x.as_slice()) {
        PropTarget::Point(0)
    } else if bytes_eq(name, k_y.as_slice()) {
        PropTarget::Point(1)
    } else if bytes_eq(name, k_z.as_slice()) {
        PropTarget::Point(2)
    } else if bytes_eq(name, k_nx.as_slice()) {
        PropTarget::Normal(0)
    } else if bytes_eq(name, k_ny.as_slice()) {
        PropTarget::Normal(1)
    } else if bytes_eq(name, k_nz.as_slice()) {
        PropTarget::Normal(2)
    } else if bytes_eq(name, k_red.as_slice()) {
        PropTarget::Color(0)
    } else if bytes_eq(name, k_green.as_slice()) {
        PropTarget::Color(1)
    } else if bytes_eq(name, k_blue.as_slice()) {
        PropTarget::Color(2)
    } else {
        PropTarget::Ignored
    }
}

/// The element has a property named `name`.
pub open spec fn has_prop(e: ElemView, name: Seq<u8>) -> bool {
    exists|j: int| 0 <= j < e.2.len() && #[trigger] e.2[j].0 == name
}

/// How the vertex element of a file is read: its position, its instance
/// count, whether normals and colors are present, and where each property goes.
pub struct VertexLayout {
    pub element: usize,
    pub count: usize,
    pub normals: bool,
    pub colors: bool,
    pub targets: Vec<PropTarget>,
}

/// The plan of the readers for the vertex element: the first element named
/// `vertex`, which needs an `x` property and at least one instance.
pub open spec fn vertex_layout_spec(es: Seq<ElemView>) -> Option<(int, nat, bool, bool, Seq<PropTarget>)> {
    match first_element_named(es, kw_vertex()) {
        None => None,
        Some(i) => if !has_prop(es[i], kw_x()) || es[i].1 == 0 {
            None
        } else {
            Some(
                (
                    i,
                    es[i].1 as nat,
                    has_prop(es[i], kw_nx()),
                    has_prop(es[i], kw_red()),
                    es[i].2.map_values(|p: PropView| target_of(p.0)),
                ),
            )
        },
    }
}

/// The reading plan for the vertex element of a header, or `None` when the
/// file has no readable vertices.
pub fn vertex_layout(h: &PlyHeader) -> (r: Option<VertexLayout>)
    ensures
        match r {
            None => vertex_layout_spec(h@.2) is None,
            Some(l) => vertex_layout_spec(h@.2) == Some(
                (l.element as int, l.count as nat, l.normals, l.colors, l.targets@),
            ),
        },
{
    let vertex_name: [u8; 6] = [118, 101, 114, 116, 101, 120];
    let k_x: [u8; 1] = [120];
    let k_nx: [u8; 2] = [110, 120];
    let k_red: [u8; 3] = [114, 101, 100];
    proof {
        assert(vertex_name@ =~= kw_vertex());
        assert(k_x@ =~= kw_x());
        assert(k_nx@ =~= kw_nx());
        assert(k_red@ =~= kw_red());
    }
    let vei = match find_element(h, vertex_name.as_slice()) {
        Some(i) => i,
        None => {
            return None;
        },
    };
    let el = &h.elements[vei];
    proof {
        assert(h@.2[vei as int] == el@);
    }
    let has_x = find_prop(el, k_x.as_slice());
    if has_x.is_none() || el.count == 0 {
        return None;
    }
    proof {
        assert(el@.2[has_x.unwrap() as int].0 == kw_x());
    }
    let normals = find_prop(el, k_nx.as_slice()).is_some();
    let colors = find_prop(el, k_red.as_slice()).is_some();
    let mut targets: Vec<PropTarget> = Vec::new();
    let mut j: usize = 0;
    while j < el.properties.len()
        invariant
            j <= el.properties@.len(),
            el@.2.len() == el.properties@.len(),
            targets@ == el@.2.take(j as int).map_values(|p: PropView| target_of(p.0)),
        decreases el.properties@.len() - j,
    {
        proof {
            assert(el@.2[j as int] == el.properties@[j as int]@);
        }
        let t = target_by_name(el.properties[j].name.as_slice());
        targets.push(t);
        proof {
            assert(el@.2.take(j + 1).map_values(|p: PropView| target_of(p.0)) =~= el@.2.take(
                j as int,
            ).map_values(|p: PropView| target_of(p.0)).push(t));
        }
        j += 1;
    }
    proof {
        assert(el@.2.take(el@.2.len() as int) =~= el@.2);
    }
    Some(VertexLayout { element: vei, count: el.count, normals, colors, targets })
}

/// The property that holds the vertex indices of faces: in the first element
/// named `face`, `vertex_indices`, else `vertex_index`.
pub open spec fn face_property_spec(es: Seq<ElemView>) -> Option<(int, int)> {
    match first_element_named(es, kw_face()) {
        None => None,
        Some(i) => match first_prop_named(es[i].2, kw_vertex_indices()) {
            Some(j) => Some((i, j)),
            None => match first_prop_named(es[i].2, kw_vertex_index()) {
                Some(j) => Some((i, j)),
                None => None,
            },
        },
    }
}

/// Position of the first property named `name`.
pub open spec fn first_prop_named(ps: Seq<PropView>, name: Seq<u8>) -> Option<int> {
    if exists|j: int| 0 <= j < ps.len() && #[trigger] ps[j].0 == name {
        Some(
            choose|j: int|
                0 <= j < ps.len() && #[trigger] ps[j].0 == name && forall|k: int|
                    0 <= k < j ==> #[trigger] ps[k].0 != name,
        )
    } else {
        None
    }
}

proof fn lemma_first_prop_named(ps: Seq<PropView>, name: Seq<u8>, j: int)
    requires
        0 <= j < ps.len(),
        ps[j].0 == name,
        forall|k: int| 0 <= k < j ==> #[trigger] ps[k].0 != name,
    ensures
        first_prop_named(ps, name) == Some(j),
{
    let m = choose|m: int|
        0 <= m < ps.len() && #[trigger] ps[m].0 == name && forall|k: int| 0 <= k < m ==> #[trigger] ps[k].0 != name;
    assert(0 <= m < ps.len() && ps[m].0 == name && forall|k: int| 0 <= k < m ==> #[trigger] ps[k].0 != name);
    if m < j {
        assert(ps[m].0 != name);
    }
    if j < m {
        assert(ps[j].0 != name);
    }
}

fn find_prop_first(el: &PlyElement, name: &[u8]) -> (r: Option<usize>)
    ensures
        r matches Some(j) ==> first_prop_named(el@.2, name@) == Some(j as int),
        r is None ==> first_prop_named(el@.2, name@) is None,
{
    let r = find_prop(el, name);
    proof {
        match r {
            Some(j) => {
                lemma_first_prop_named(el@.2, name@, j as int);
            },
            None => {
                assert(!exists|j: int| 0 <= j < el@.2.len() && #[trigger] el@.2[j].0 == name@);
            },
        }
    }
    r
}

/// The element and property that hold the vertex indices of faces, if any.
pub fn face_property(h: &PlyHeader) -> (r: Option<(usize, usize)>)
    ensures
        match r {
            None => face_property_spec(h@.2) is None,
            Some((i, j)) => face_property_spec(h@.2) == Some((i as int, j as int)),
        },
{
    let face_name: [u8; 4] = [102, 97, 99, 101];
    let indices_name: [u8; 14] = [118, 101, 114, 116, 101, 120, 95, 105, 110, 100, 105, 99, 101, 115];
    let index_name: [u8; 12] = [118, 101, 114, 116, 101, 120, 95, 105, 110, 100, 101, 120];
    proof {
        assert(face_name@ =~= kw_face());
        assert(indices_name@ =~= kw_vertex_indices());
        assert(index_name@ =~= kw_vertex_index());
    }
    match find_element(h, face_name.as_slice()) {
        None => None,
        Some(fi) => {
            let fe = &h.elements[fi];
            proof {
                assert(h@.2[fi as int] == fe@);
            }
            match find_prop_first(fe, indices_name.as_slice()) {
                Some(j) => Some((fi, j)),
                None => match find_prop_first(fe, index_name.as_slice()) {
                    Some(j) => Some((fi, j)),
                    None => None,
                },
            }
        },
    }
}

// ------------------------------------------------------------------ laws of the reading plans

/// The names the readers know, spelled out letter by letter.
pub open spec fn name_x() -> Seq<u8> {
    seq!['x' as u8]
}

pub open spec fn name_y() -> Seq<u8> {
    seq!['y' as u8]
}

pub open spec fn name_z() -> Seq<u8> {
    seq!['z' as u8]
}

pub open spec fn name_nx() -> Seq<u8> {
    seq!['n' as u8, 'x' as u8]
}

pub open spec fn name_ny() -> Seq<u8> {
    seq!['n' as u8, 'y' as u8]
}

pub open spec fn name_nz() -> Seq<u8> {
    seq!['n' as u8, 'z' as u8]
}

pub open spec fn name_red() -> Seq<u8> {
    seq!['r' as u8, 'e' as u8, 'd' as u8]
}

pub open spec fn name_green() -> Seq<u8> {
    seq!['g' as u8, 'r' as u8, 'e' as u8, 'e' as u8, 'n' as u8]
}

pub open spec fn name_blue() -> Seq<u8> {
    seq!['b' as u8, 'l' as u8, 'u' as u8, 'e' as u8]
}

pub open spec fn name_face() -> Seq<u8> {
    seq!['f' as u8, 'a' as u8, 'c' as u8, 'e' as u8]
}

pub open spec fn name_vertex_indices() -> Seq<u8> {
    seq![
        'v' as u8, 'e' as u8, 'r' as u8, 't' as u8, 'e' as u8, 'x' as u8, '_' as u8, 'i' as u8,
        'n' as u8, 'd' as u8, 'i' as u8, 'c' as u8, 'e' as u8, 's' as u8,
    ]
}

pub open spec fn name_vertex_index() -> Seq<u8> {
    seq![
        'v' as u8, 'e' as u8, 'r' as u8, 't' as u8, 'e' as u8, 'x' as u8, '_' as u8, 'i' as u8,
        'n' as u8, 'd' as u8, 'e' as u8, 'x' as u8,
    ]
}

proof fn lemma_names_are_keywords()
    ensures
        name_x() == kw_x(),
        name_y() == kw_y(),
        name_z() == kw_z(),
        name_nx() == kw_nx(),
        name_ny() == kw_ny(),
        name_nz() == kw_nz(),
        name_red() == kw_red(),
        name_green() == kw_green(),
        name_blue() == kw_blue(),
        name_face() == kw_face(),
        name_vertex_indices() == kw_vertex_indices(),
        name_vertex_index() == kw_vertex_index(),
{
    assert(name_x() =~= kw_x());
    assert(name_y() =~= kw_y());
    assert(name_z() =~= kw_z());
    assert(name_nx() =~= kw_nx());
    assert(name_ny() =~= kw_ny());
    assert(name_nz() =~= kw_nz());
    assert(name_red() =~= kw_red());
    assert(name_green() =~= kw_green());
    assert(name_blue() =~= kw_blue());
    assert(name_face() =~= kw_face());
    assert(name_vertex_indices() =~= kw_vertex_indices());
    assert(name_vertex_index() =~= kw_vertex_index());
}

/// In the vertex reading plan each of the nine known properties fills a slot
/// of its own, and only that property fills it: `x`, `y`, `z` the point's
/// coordinates 0, 1, 2; `nx`, `ny`, `nz` the normal's; `red`, `green`, `blue`
/// the color's channels 0, 1, 2. Every other property is skipped.
pub proof fn lemma_vertex_layout_slots(es: Seq<ElemView>, j: int)
    requires
        vertex_layout_spec(es) is Some,
        0 <= j < es[vertex_layout_spec(es).unwrap().0].2.len(),
    ensures
        ({
            let plan = vertex_layout_spec(es).unwrap();
            let name = es[plan.0].2[j].0;
            let t = plan.4[j];
            &&& plan.4.len() == es[plan.0].2.len()
            &&& (t == PropTarget::Point(0) <==> name == name_x())
            &&& (t == PropTarget::Point(1) <==> name == name_y())
            &&& (t == PropTarget::Point(2) <==> name == name_z())
            &&& (t == PropTarget::Normal(0) <==> name == name_nx())
            &&& (t == PropTarget::Normal(1) <==> name == name_ny())
            &&& (t == PropTarget::Normal(2) <==> name == name_nz())
            &&& (t == PropTarget::Color(0) <==> name == name_red())
            &&& (t == PropTarget::Color(1) <==> name == name_green())
            &&& (t == PropTarget::Color(2) <==> name == name_blue())
            &&& (t == PropTarget::Ignored <==> !(name == name_x() || name == name_y() || name
                == name_z() || name == name_nx() || name == name_ny() || name == name_nz() || name
                == name_red() || name == name_green() || name == name_blue()))
        }),
{
    lemma_names_are_keywords();
    let plan = vertex_layout_spec(es).unwrap();
    let name = es[plan.0].2[j].0;
    assert(plan.4[j] == target_of(name));
    // the nine names differ from one another
    assert(name_x() != name_y() && name_x() != name_z() && name_y() != name_z()) by {
        assert(name_x()[0] != name_y()[0] && name_x()[0] != name_z()[0] && name_y()[0] != name_z()[0]);
    }
    assert(name_nx() != name_ny() && name_nx() != name_nz() && name_ny() != name_nz()) by {
        assert(name_nx()[1] != name_ny()[1] && name_nx()[1] != name_nz()[1] && name_ny()[1] != name_nz()[1]);
    }
    assert(name_red() != name_green() && name_red() != name_blue() && name_green() != name_blue()) by {
        assert(name_red().len() != name_green().len() && name_red().len() != name_blue().len()
            && name_green().len() != name_blue().len());
    }
    assert(name_x().len() == 1 && name_nx().len() == 2 && name_ny().len() == 2 && name_nz().len()
        == 2 && name_red().len() == 3 && name_green().len() == 5 && name_blue().len() == 4);
    assert(name_red() != name_nx() && name_red() != name_ny() && name_red() != name_nz()) by {
        assert(name_red().len() != name_nx().len());
    }
}

/// What `first_prop_named` finds: the first property with the name, or none has it.
proof fn lemma_first_prop_named_facts(ps: Seq<PropView>, name: Seq<u8>)
    ensures
        first_prop_named(ps, name) matches Some(j) ==> 0 <= j < ps.len() && ps[j].0 == name
            && forall|k: int| 0 <= k < j ==> #[trigger] ps[k].0 != name,
        first_prop_named(ps, name) is None ==> forall|k: int| 0 <= k < ps.len() ==> #[trigger] ps[k].0 != name,
{
    if exists|j: int| 0 <= j < ps.len() && #[trigger] ps[j].0 == name {
        let j = choose|j: int| 0 <= j < ps.len() && #[trigger] ps[j].0 == name;
        lemma_least_prop(ps, name, j);
    }
}

/// A property with the name has a first one.
proof fn lemma_least_prop(ps: Seq<PropView>, name: Seq<u8>, j: int)
    requires
        0 <= j < ps.len(),
        ps[j].0 == name,
    ensures
        exists|m: int|
            0 <= m < ps.len() && #[trigger] ps[m].0 == name && forall|k: int|
                0 <= k < m ==> #[trigger] ps[k].0 != name,
    decreases j,
{
    if exists|k: int| 0 <= k < j && #[trigger] ps[k].0 == name {
        let k = choose|k: int| 0 <= k < j && #[trigger] ps[k].0 == name;
        lemma_least_prop(ps, name, k);
    } else {
        assert(forall|k: int| 0 <= k < j ==> #[trigger] ps[k].0 != name);
    }
}

/// An element with the name has a first one.
proof fn lemma_least_element(es: Seq<ElemView>, name: Seq<u8>, i: int)
    requires
        0 <= i < es.len(),
        es[i].0 == name,
    ensures
        exists|m: int|
            0 <= m < es.len() && #[trigger] es[m].0 == name && forall|k: int|
                0 <= k < m ==> #[trigger] es[k].0 != name,
    decreases i,
{
    if exists|k: int| 0 <= k < i && #[trigger] es[k].0 == name {
        let k = choose|k: int| 0 <= k < i && #[trigger] es[k].0 == name;
        lemma_least_element(es, name, k);
    } else {
        assert(forall|k: int| 0 <= k < i ==> #[trigger] es[k].0 != name);
    }
}

/// What `first_element_named` finds: an element with the name.
proof fn lemma_first_element_named_facts(es: Seq<ElemView>, name: Seq<u8>)
    ensures
        first_element_named(es, name) matches Some(i) ==> 0 <= i < es.len() && es[i].0 == name,
{
    if exists|i: int| 0 <= i < es.len() && #[trigger] es[i].0 == name {
        let i = choose|i: int| 0 <= i < es.len() && #[trigger] es[i].0 == name;
        lemma_least_element(es, name, i);
    }
}

/// The face reading plan takes the first element named `face`, and in it the
/// first property named `vertex_indices`, or when there is none the first
/// named `vertex_index`. It exists exactly when that element has one of the
/// two, so whenever the header announces triangles there is a plan to read them.
pub proof fn lemma_face_property_law(es: Seq<ElemView>)
    ensures
        face_property_spec(es) is Some <==> (first_element_named(es, name_face()) matches Some(i)
            && exists|j: int|
            0 <= j < es[i].2.len() && (#[trigger] es[i].2[j].0 == name_vertex_indices()
                || es[i].2[j].0 == name_vertex_index())),
        face_property_spec(es) matches Some((i, j)) ==> ({
            &&& first_element_named(es, name_face()) == Some(i)
            &&& 0 <= j < es[i].2.len()
            &&& (es[i].2[j].0 == name_vertex_indices() || es[i].2[j].0 == name_vertex_index())
            &&& (es[i].2[j].0 == name_vertex_index() ==> forall|k: int|
                0 <= k < es[i].2.len() ==> #[trigger] es[i].2[k].0 != name_vertex_indices())
            &&& forall|k: int| 0 <= k < j ==> #[trigger] es[i].2[k].0 != es[i].2[j].0
        }),
        geometry_of_elements(es) == FileGeometry::ContainsTriangles ==> face_property_spec(es) is Some,
{
    lemma_names_are_keywords();
    lemma_first_element_named_facts(es, kw_face());
    let fe = first_element_named(es, kw_face());
    if fe is Some {
        let i = fe.unwrap();
        let ps = es[i].2;
        lemma_first_prop_named_facts(ps, kw_vertex_indices());
        lemma_first_prop_named_facts(ps, kw_vertex_index());
        assert(name_vertex_indices() != name_vertex_index()) by {
            assert(name_vertex_indices().len() != name_vertex_index().len());
        }
        if has_face_indices(es[i]) {
            let w = choose|j: int|
                0 <= j < es[i].2.len() && (#[trigger] es[i].2[j].0 == kw_vertex_indices()
                    || es[i].2[j].0 == kw_vertex_index());
            assert(ps[w].0 == kw_vertex_indices() || ps[w].0 == kw_vertex_index());
            assert(face_property_spec(es) is Some);
        } else {
            assert(face_property_spec(es) is None);
        }
    } else {
        assert(face_property_spec(es) is None);
    }
}

// ------------------------------------------------------------------ reading back what is written

/// No byte of `s[i..j]` is whitespace.
pub open spec fn no_ws(s: Seq<u8>, i: int, j: int) -> bool {
    forall|k: int| i <= k < j ==> !is_ascii_ws(#[trigger] s[k])
}

proof fn lemma_scan_word(s: Seq<u8>, a: int, k: int, j: int)
    requires
        0 <= a < k <= j <= s.len(),
        no_ws(s, a, j),
        j == s.len() || is_ascii_ws(s[j]),
    ensures
        words_from(s, k, Some(a)) == seq![s.subrange(a, j)] + (if j == s.len() {
            Seq::<Seq<u8>>::empty()
        } else {
            words_from(s, j + 1, None)
        }),
    decreases j - k,
{
    if k < j {
        assert(!is_ascii_ws(s[k]));
        lemma_scan_word(s, a, k + 1, j);
    } else if j == s.len() {
        assert(seq![s.subrange(a, j)] + Seq::<Seq<u8>>::empty() =~= seq![s.subrange(a, j)]);
    }
}

/// The word of `s` from `i` to the next whitespace `j` (or the end) comes
/// first among the words from `i` on.
proof fn lemma_word_at(s: Seq<u8>, i: int, j: int)
    requires
        0 <= i < j <= s.len(),
        no_ws(s, i, j),
        j == s.len() || is_ascii_ws(s[j]),
    ensures
        words_from(s, i, None) == seq![s.subrange(i, j)] + (if j == s.len() {
            Seq::<Seq<u8>>::empty()
        } else {
            words_from(s, j + 1, None)
        }),
{
    assert(!is_ascii_ws(s[i]));
    lemma_scan_word(s, i, i + 1, j);
}

/// Words joined by single spaces.
pub open spec fn spaced(ws: Seq<Seq<u8>>) -> Seq<u8>
    decreases ws.len(),
{
    if ws.len() <= 1 {
        if ws.len() == 1 {
            ws[0]
        } else {
            seq![]
        }
    } else {
        ws[0] + seq![32u8] + spaced(ws.drop_first())
    }
}

/// Every word is non-empty and free of whitespace.
pub open spec fn plain_words(ws: Seq<Seq<u8>>) -> bool {
    forall|k: int| 0 <= k < ws.len() ==> #[trigger] ws[k].len() > 0 && no_ws(ws[k], 0, ws[k].len() as int)
}

proof fn lemma_words_spaced(s: Seq<u8>, off: int, ws: Seq<Seq<u8>>)
    requires
        0 <= off <= s.len(),
        ws.len() >= 1,
        plain_words(ws),
        s.skip(off) == spaced(ws),
    ensures
        words_from(s, off, None) == ws,
    decreases ws.len(),
{
    let w = ws[0];
    let end = off + w.len();
    assert(ws[0].len() > 0 && no_ws(ws[0], 0, ws[0].len() as int));
    if ws.len() == 1 {
        assert(s.skip(off) == w);
        assert forall|k: int| off <= k < end implies !is_ascii_ws(#[trigger] s[k]) by {
            assert(s.skip(off)[k - off] == s[k]);
            assert(!is_ascii_ws(w[k - off]));
        }
        assert(end == s.len());
        lemma_word_at(s, off, end);
        assert(s.subrange(off, end) =~= w);
        assert(ws =~= seq![w]);
        assert(seq![s.subrange(off, end)] + Seq::<Seq<u8>>::empty() =~= ws);
    } else {
        let rest = ws.drop_first();
        assert(s.skip(off) == w + seq![32u8] + spaced(rest));
        assert forall|k: int| off <= k < end implies !is_ascii_ws(#[trigger] s[k]) by {
            assert(s.skip(off)[k - off] == s[k]);
            assert((w + seq![32u8] + spaced(rest))[k - off] == w[k - off]);
            assert(!is_ascii_ws(w[k - off]));
        }
        assert(s.skip(off)[w.len() as int] == s[end]);
        assert((w + seq![32u8] + spaced(rest))[w.len() as int] == 32u8);
        lemma_word_at(s, off, end);
        assert(s.subrange(off, end) =~= w);
        assert(s.skip(end + 1) =~= spaced(rest)) by {
            assert forall|t: int| 0 <= t < s.skip(end + 1).len() implies s.skip(end + 1)[t] == spaced(rest)[t] by {
                assert(s.skip(off)[w.len() + 1 + t] == s[end + 1 + t]);
                assert((w + seq![32u8] + spaced(rest))[w.len() + 1 + t] == spaced(rest)[t]);
            }
        }
        assert forall|k: int| 0 <= k < rest.len() implies #[trigger] rest[k].len() > 0 && no_ws(rest[k], 0, rest[k].len() as int) by {
            assert(rest[k] == ws[k + 1]);
        }
        lemma_words_spaced(s, end + 1, rest);
        assert(ws =~= seq![w] + rest);
    }
}

/// The words of a line of plain words joined by spaces are those words.
proof fn lemma_words_of_spaced(ws: Seq<Seq<u8>>)
    requires
        ws.len() >= 1,
        plain_words(ws),
    ensures
        words(spaced(ws)) == ws,
{
    let s = spaced(ws);
    assert(s.skip(0) =~= s);
    lemma_words_spaced(s, 0, ws);
}

/// Every byte is ASCII.
pub open spec fn all_ascii(s: Seq<u8>) -> bool {
    forall|k: int| 0 <= k < s.len() ==> #[trigger] s[k] < 128
}

proof fn lemma_ascii_utf8(s: Seq<u8>)
    requires
        all_ascii(s),
    ensures
        valid_utf8(s),
        decode_utf8(s) == s.map_values(|b: u8| b as char),
    decreases s.len(),
{
    if s.len() > 0 {
        let t = s.subrange(1, s.len() as int);
        assert(s[0] < 128);
        assert(vstd::utf8::pop_first_scalar(s) =~= t);
        assert(all_ascii(t)) by {
            assert forall|k: int| 0 <= k < t.len() implies #[trigger] t[k] < 128 by {
                assert(t[k] == s[k + 1]);
            }
        }
        lemma_ascii_utf8(t);
        assert(s.map_values(|b: u8| b as char) =~= seq![s[0] as char] + t.map_values(|b: u8| b as char));
        let b = s[0];
        assert(b & 0x7F == b) by (bit_vector)
            requires
                b < 128,
        ;
        assert(vstd::utf8::decode_first_scalar(s) == s[0] as u32);
    }
}

proof fn lemma_newline_after(data: Seq<u8>, pos: int, line: Seq<u8>, i: int)
    requires
        0 <= pos <= i <= pos + line.len(),
        pos + line.len() < data.len(),
        data.subrange(pos, pos + line.len()) == line,
        data[pos + line.len()] == 10,
        forall|k: int| 0 <= k < line.len() ==> #[trigger] line[k] != 10,
    ensures
        newline_from(data, i) == Some(pos + line.len()),
    decreases pos + line.len() - i,
{
    if i < pos + line.len() {
        assert(data[i] == line[i - pos]);
        lemma_newline_after(data, pos, line, i + 1);
    }
}

/// A header line of ASCII text followed by a newline, read at `pos`.
proof fn lemma_line_step(data: Seq<u8>, pos: int, line: Seq<u8>, acc: HeaderAcc)
    requires
        0 <= pos,
        pos + line.len() < data.len(),
        data.subrange(pos, pos + line.len()) == line,
        data[pos + line.len()] == 10,
        all_ascii(line),
        forall|k: int| 0 <= k < line.len() ==> #[trigger] line[k] != 10,
    ensures
        lines_from(data, pos, acc) == (match step_line(acc, words(line)) {
            LineStep::Fail => None,
            LineStep::Done => Some((acc, pos + line.len() + 1)),
            LineStep::Next(a) => lines_from(data, pos + line.len() + 1, a),
        }),
{
    lemma_newline_after(data, pos, line, pos);
    lemma_ascii_utf8(line);
}

/// Lines, each followed by a newline.
pub open spec fn text(ls: Seq<Seq<u8>>) -> Seq<u8>
    decreases ls.len(),
{
    if ls.len() == 0 {
        seq![]
    } else {
        ls[0].push(10u8) + text(ls.drop_first())
    }
}

/// The header lines `ls` read from a state `acc`: the state at `end_header`
/// and the number of bytes read, or `None` when a line fails or none ends
/// the header.
pub open spec fn walk(ls: Seq<Seq<u8>>, acc: HeaderAcc) -> Option<(HeaderAcc, nat)>
    decreases ls.len(),
{
    if ls.len() == 0 {
        None
    } else {
        match step_line(acc, words(ls[0])) {
            LineStep::Fail => None,
            LineStep::Done => Some((acc, ls[0].len() + 1)),
            LineStep::Next(a) => match walk(ls.drop_first(), a) {
                Some((b, c)) => Some((b, c + ls[0].len() + 1)),
                None => None,
            },
        }
    }
}

/// Every line is ASCII without a newline.
pub open spec fn plain_lines(ls: Seq<Seq<u8>>) -> bool {
    forall|k: int|
        0 <= k < ls.len() ==> all_ascii(#[trigger] ls[k]) && forall|j: int| 0 <= j < ls[k].len() ==> ls[k][j] != 10
}

proof fn lemma_walk(data: Seq<u8>, pos: int, ls: Seq<Seq<u8>>, rest: Seq<u8>, acc: HeaderAcc)
    requires
        0 <= pos <= data.len(),
        data.skip(pos) == text(ls) + rest,
        plain_lines(ls),
        walk(ls, acc) is Some,
    ensures
        lines_from(data, pos, acc) == Some((walk(ls, acc).unwrap().0, pos + walk(ls, acc).unwrap().1)),
    decreases ls.len(),
{
    let line = ls[0];
    let more = text(ls.drop_first()) + rest;
    assert(all_ascii(ls[0]));
    assert(data.skip(pos) =~= line + seq![10u8] + more);
    assert(data.subrange(pos, pos + line.len()) =~= line) by {
        assert forall|t: int| 0 <= t < line.len() implies data.subrange(pos, pos + line.len())[t] == line[t] by {
            assert(data.skip(pos)[t] == data[pos + t]);
        }
    }
    assert(data[pos + line.len()] == 10) by {
        assert(data.skip(pos)[line.len() as int] == data[pos + line.len()]);
    }
    assert forall|k: int| 0 <= k < line.len() implies #[trigger] line[k] != 10 by {
        assert(ls[0][k] != 10);
    }
    lemma_line_step(data, pos, line, acc);
    match step_line(acc, words(line)) {
        LineStep::Next(a) => {
            let next = pos + line.len() + 1;
            assert(data.skip(next) =~= more) by {
                assert forall|t: int| 0 <= t < data.skip(next).len() implies data.skip(next)[t] == more[t] by {
                    assert(data.skip(pos)[line.len() + 1 + t] == data[next + t]);
                }
            }
            assert forall|k: int| 0 <= k < ls.drop_first().len() implies all_ascii(#[trigger] ls.drop_first()[k])
                && forall|j: int| 0 <= j < ls.drop_first()[k].len() ==> ls.drop_first()[k][j] != 10 by {
                assert(ls.drop_first()[k] == ls[k + 1]);
            }
            lemma_walk(data, next, ls.drop_first(), rest, a);
        },
        _ => {},
    }
}

/// `1.0`, the format version.
pub open spec fn kw_version() -> Seq<u8> {
    seq![49u8, 46, 48]
}

/// The line `ply`.
pub open spec fn line_ply() -> Seq<u8> {
    seq![112u8, 108, 121]
}

/// The `format` line.
pub open spec fn line_format(ascii: bool) -> Seq<u8> {
    spaced(seq![kw_format(), if ascii { kw_ascii() } else { kw_binary_little_endian() }, kw_version()])
}

/// The comment line of the writer.
pub open spec fn line_comment() -> Seq<u8> {
    spaced(seq![kw_comment(), seq![67u8, 114, 101, 97, 116, 101, 100], seq![98u8, 121], seq![116u8, 105, 110, 121, 51, 100]])
}

/// An `element` line.
pub open spec fn line_element(name: Seq<u8>, n: nat) -> Seq<u8> {
    spaced(seq![kw_element(), name, decimal_bytes(n)])
}

/// A scalar `property` line.
pub open spec fn line_property(ty: Seq<u8>, name: Seq<u8>) -> Seq<u8> {
    spaced(seq![kw_property(), ty, name])
}

/// The vertex properties the writer declares, as lines.
pub open spec fn vertex_property_line_seq(normals: bool, colors: bool) -> Seq<Seq<u8>> {
    seq![line_property(kw_double(), kw_x()), line_property(kw_double(), kw_y()), line_property(kw_double(), kw_z())]
        + (if normals {
        seq![
            line_property(kw_double(), kw_nx()),
            line_property(kw_double(), kw_ny()),
            line_property(kw_double(), kw_nz()),
        ]
    } else {
        Seq::<Seq<u8>>::empty()
    }) + (if colors {
        seq![
            line_property(kw_uchar(), kw_red()),
            line_property(kw_uchar(), kw_green()),
            line_property(kw_uchar(), kw_blue()),
        ]
    } else {
        Seq::<Seq<u8>>::empty()
    })
}

/// The lines of the point cloud header.
pub open spec fn point_cloud_header_lines(n: nat, ascii: bool, normals: bool, colors: bool) -> Seq<Seq<u8>> {
    seq![line_ply(), line_format(ascii), line_comment(), line_element(kw_vertex(), n)]
        + vertex_property_line_seq(normals, colors) + seq![kw_end_header()]
}

proof fn lemma_literal_0()
    ensures
        "ply\n".spec_bytes() == line_ply().push(10u8),
{
    reveal_strlit("ply\n");
    vstd::string::is_ascii_spec_bytes("ply\n");
    reveal_with_fuel(spaced, 6);
    reveal_with_fuel(text, 4);
    assert("ply\n".spec_bytes() =~= line_ply().push(10u8));
}

proof fn lemma_literal_1()
    ensures
        "format ascii 1.0\n".spec_bytes() == line_format(true).push(10u8),
{
    reveal_strlit("format ascii 1.0\n");
    vstd::string::is_ascii_spec_bytes("format ascii 1.0\n");
    reveal_with_fuel(spaced, 6);
    reveal_with_fuel(text, 4);
    assert("format ascii 1.0\n".spec_bytes() =~= line_format(true).push(10u8));
}

proof fn lemma_literal_2()
    ensures
        "format binary_little_endian 1.0\n".spec_bytes() == line_format(false).push(10u8),
{
    reveal_strlit("format binary_little_endian 1.0\n");
    vstd::string::is_ascii_spec_bytes("format binary_little_endian 1.0\n");
    reveal_with_fuel(spaced, 6);
    reveal_with_fuel(text, 4);
    assert("format binary_little_endian 1.0\n".spec_bytes() =~= line_format(false).push(10u8));
}

proof fn lemma_literal_3()
    ensures
        "comment Created by tiny3d\n".spec_bytes() == line_comment().push(10u8),
{
    reveal_strlit("comment Created by tiny3d\n");
    vstd::string::is_ascii_spec_bytes("comment Created by tiny3d\n");
    reveal_with_fuel(spaced, 6);
    reveal_with_fuel(text, 4);
    assert("comment Created by tiny3d\n".spec_bytes() =~= line_comment().push(10u8));
}

proof fn lemma_literal_4()
    ensures
        "element vertex ".spec_bytes() == kw_element() + seq![32u8] + kw_vertex() + seq![32u8],
{
    reveal_strlit("element vertex ");
    vstd::string::is_ascii_spec_bytes("element vertex ");
    reveal_with_fuel(spaced, 6);
    reveal_with_fuel(text, 4);
    assert("element vertex ".spec_bytes() =~= kw_element() + seq![32u8] + kw_vertex() + seq![32u8]);
}

proof fn lemma_literal_5()
    ensures
        "element face ".spec_bytes() == kw_element() + seq![32u8] + kw_face() + seq![32u8],
{
    reveal_strlit("element face ");
    vstd::string::is_ascii_spec_bytes("element face ");
    reveal_with_fuel(spaced, 6);
    reveal_with_fuel(text, 4);
    assert("element face ".spec_bytes() =~= kw_element() + seq![32u8] + kw_face() + seq![32u8]);
}

proof fn lemma_literal_6()
    ensures
        "\n".spec_bytes() == seq![10u8],
{
    reveal_strlit("\n");
    vstd::string::is_ascii_spec_bytes("\n");
    reveal_with_fuel(spaced, 6);
    reveal_with_fuel(text, 4);
    assert("\n".spec_bytes() =~= seq![10u8]);
}

proof fn lemma_literal_7()
    ensures
        "property double x\nproperty double y\nproperty double z\n".spec_bytes() == text(vertex_property_line_seq(false, false)),
{
    reveal_strlit("property double x\nproperty double y\nproperty double z\n");
    vstd::string::is_ascii_spec_bytes("property double x\nproperty double y\nproperty double z\n");
    reveal_with_fuel(spaced, 6);
    reveal_with_fuel(text, 4);
    assert("property double x\nproperty double y\nproperty double z\n".spec_bytes() =~= text(vertex_property_line_seq(false, false)));
}

proof fn lemma_literal_8()
    ensures
        "property double nx\nproperty double ny\nproperty double nz\n".spec_bytes() == text(seq![line_property(kw_double(), kw_nx()), line_property(kw_double(), kw_ny()), line_property(kw_double(), kw_nz())]),
{
    reveal_strlit("property double nx\nproperty double ny\nproperty double nz\n");
    vstd::string::is_ascii_spec_bytes("property double nx\nproperty double ny\nproperty double nz\n");
    reveal_with_fuel(spaced, 6);
    reveal_with_fuel(text, 4);
    assert("property double nx\nproperty double ny\nproperty double nz\n".spec_bytes() =~= text(seq![line_property(kw_double(), kw_nx()), line_property(kw_double(), kw_ny()), line_property(kw_double(), kw_nz())]));
}

proof fn lemma_literal_9()
    ensures
        "property uchar red\nproperty uchar green\nproperty uchar blue\n".spec_bytes() == text(seq![line_property(kw_uchar(), kw_red()), line_property(kw_uchar(), kw_green()), line_property(kw_uchar(), kw_blue())]),
{
    reveal_strlit("property uchar red\nproperty uchar green\nproperty uchar blue\n");
    vstd::string::is_ascii_spec_bytes("property uchar red\nproperty uchar green\nproperty uchar blue\n");
    reveal_with_fuel(spaced, 6);
    reveal_with_fuel(text, 4);
    assert("property uchar red\nproperty uchar green\nproperty uchar blue\n".spec_bytes() =~= text(seq![line_property(kw_uchar(), kw_red()), line_property(kw_uchar(), kw_green()), line_property(kw_uchar(), kw_blue())]));
}

proof fn lemma_literal_10()
    ensures
        "property list uchar uint vertex_indices\n".spec_bytes() == spaced(seq![kw_property(), kw_list(), kw_uchar(), kw_uint(), kw_vertex_indices()]).push(10u8),
{
    reveal_strlit("property list uchar uint vertex_indices\n");
    vstd::string::is_ascii_spec_bytes("property list uchar uint vertex_indices\n");
    reveal_with_fuel(spaced, 6);
    reveal_with_fuel(text, 4);
    assert("property list uchar uint vertex_indices\n".spec_bytes() =~= spaced(seq![kw_property(), kw_list(), kw_uchar(), kw_uint(), kw_vertex_indices()]).push(10u8));
}

proof fn lemma_literal_11()
    ensures
        "end_header\n".spec_bytes() == kw_end_header().push(10u8),
{
    reveal_strlit("end_header\n");
    vstd::string::is_ascii_spec_bytes("end_header\n");
    reveal_with_fuel(spaced, 6);
    reveal_with_fuel(text, 4);
    assert("end_header\n".spec_bytes() =~= kw_end_header().push(10u8));
}

proof fn lemma_text_concat(a: Seq<Seq<u8>>, b: Seq<Seq<u8>>)
    ensures
        text(a + b) == text(a) + text(b),
    decreases a.len(),
{
    if a.len() > 0 {
        lemma_text_concat(a.drop_first(), b);
        assert((a + b).drop_first() =~= a.drop_first() + b);
        assert((a + b)[0] == a[0]);
        assert(text(a + b) =~= a[0].push(10u8) + text(a.drop_first() + b));
        assert(text(a) + text(b) =~= a[0].push(10u8) + (text(a.drop_first()) + text(b)));
    } else {
        assert(a + b =~= b);
        assert(text(a) + text(b) =~= text(b));
    }
}

/// The first four lines of a written header.
pub open spec fn head_lines(name: Seq<u8>, n: nat, ascii: bool) -> Seq<Seq<u8>> {
    seq![line_ply(), line_format(ascii), line_comment(), line_element(name, n)]
}

proof fn lemma_text_four(a: Seq<u8>, b: Seq<u8>, c: Seq<u8>, d: Seq<u8>)
    ensures
        text(seq![a, b, c, d]) == a.push(10u8) + b.push(10u8) + c.push(10u8) + d.push(10u8),
{
    reveal_with_fuel(text, 5);
    assert(seq![a, b, c, d].drop_first() =~= seq![b, c, d]);
    assert(seq![b, c, d].drop_first() =~= seq![c, d]);
    assert(seq![c, d].drop_first() =~= seq![d]);
    assert(seq![d].drop_first() =~= Seq::<Seq<u8>>::empty());
    assert(text(seq![a, b, c, d]) =~= a.push(10u8) + b.push(10u8) + c.push(10u8) + d.push(10u8));
}

proof fn lemma_preamble_lines(ascii: bool)
    ensures
        header_preamble(ascii) == line_ply().push(10u8) + line_format(ascii).push(10u8) + line_comment().push(10u8),
{
    lemma_literal_0();
    lemma_literal_1();
    lemma_literal_2();
    lemma_literal_3();
    assert(format_line(ascii) == line_format(ascii).push(10u8));
}

proof fn lemma_element_line(name: Seq<u8>, n: nat)
    ensures
        line_element(name, n) == kw_element() + seq![32u8] + name + seq![32u8] + decimal_bytes(n),
{
    reveal_with_fuel(spaced, 4);
    let ws = seq![kw_element(), name, decimal_bytes(n)];
    assert(ws.drop_first() =~= seq![name, decimal_bytes(n)]);
    assert(ws.drop_first().drop_first() =~= seq![decimal_bytes(n)]);
    assert(line_element(name, n) =~= kw_element() + seq![32u8] + name + seq![32u8] + decimal_bytes(n));
}

proof fn lemma_text_head(n: nat, ascii: bool)
    ensures
        text(head_lines(kw_vertex(), n, ascii)) == header_preamble(ascii) + "element vertex ".spec_bytes()
            + decimal_bytes(n) + "\n".spec_bytes(),
{
    lemma_literal_4();
    lemma_literal_6();
    lemma_preamble_lines(ascii);
    lemma_element_line(kw_vertex(), n);
    lemma_text_four(line_ply(), line_format(ascii), line_comment(), line_element(kw_vertex(), n));
    assert(text(head_lines(kw_vertex(), n, ascii)) =~= header_preamble(ascii) + "element vertex ".spec_bytes()
        + decimal_bytes(n) + "\n".spec_bytes());
}

proof fn lemma_text_three(a: Seq<u8>, b: Seq<u8>, c: Seq<u8>)
    ensures
        text(seq![a, b, c]) == a.push(10u8) + b.push(10u8) + c.push(10u8),
{
    reveal_with_fuel(text, 4);
    assert(seq![a, b, c].drop_first() =~= seq![b, c]);
    assert(seq![b, c].drop_first() =~= seq![c]);
    assert(seq![c].drop_first() =~= Seq::<Seq<u8>>::empty());
    assert(text(seq![a, b, c]) =~= a.push(10u8) + b.push(10u8) + c.push(10u8));
}

proof fn lemma_text_props(normals: bool, colors: bool)
    ensures
        text(vertex_property_line_seq(normals, colors)) == vertex_property_lines(normals, colors),
{
    lemma_literal_7();
    lemma_literal_8();
    lemma_literal_9();
    let xyz = seq![line_property(kw_double(), kw_x()), line_property(kw_double(), kw_y()), line_property(kw_double(), kw_z())];
    let nrm = seq![line_property(kw_double(), kw_nx()), line_property(kw_double(), kw_ny()), line_property(kw_double(), kw_nz())];
    let col = seq![line_property(kw_uchar(), kw_red()), line_property(kw_uchar(), kw_green()), line_property(kw_uchar(), kw_blue())];
    let opt_n = if normals { nrm } else { Seq::<Seq<u8>>::empty() };
    let opt_c = if colors { col } else { Seq::<Seq<u8>>::empty() };
    assert(vertex_property_line_seq(false, false) =~= xyz);
    assert(vertex_property_line_seq(normals, colors) == xyz + opt_n + opt_c);
    lemma_text_concat(xyz, opt_n);
    lemma_text_concat(xyz + opt_n, opt_c);
    lemma_text_three(line_property(kw_double(), kw_x()), line_property(kw_double(), kw_y()), line_property(kw_double(), kw_z()));
    assert(text(Seq::<Seq<u8>>::empty()) == Seq::<u8>::empty());
    assert(text(opt_n) == (if normals { text(nrm) } else { Seq::<u8>::empty() }));
    assert(text(opt_c) == (if colors { text(col) } else { Seq::<u8>::empty() }));
    assert(text(xyz + opt_n + opt_c) =~= vertex_property_lines(normals, colors));
}

/// The header the writer produces for a point cloud is those lines.
proof fn lemma_point_cloud_header_text(n: nat, ascii: bool, normals: bool, colors: bool)
    ensures
        point_cloud_header(n, ascii, normals, colors) == text(point_cloud_header_lines(n, ascii, normals, colors)),
{
    lemma_literal_11();
    lemma_text_head(n, ascii);
    lemma_text_props(normals, colors);
    let head = head_lines(kw_vertex(), n, ascii);
    let props = vertex_property_line_seq(normals, colors);
    let tail = seq![kw_end_header()];
    assert(text(tail) =~= kw_end_header().push(10u8)) by {
        reveal_with_fuel(text, 2);
        assert(tail.drop_first() =~= Seq::<Seq<u8>>::empty());
    }
    lemma_text_concat(head, props);
    lemma_text_concat(head + props, tail);
    assert(point_cloud_header_lines(n, ascii, normals, colors) =~= head + props + tail);
    assert(point_cloud_header(n, ascii, normals, colors) =~= text(head) + text(props) + text(tail));
}

proof fn lemma_walk_cons(l: Seq<u8>, ls: Seq<Seq<u8>>, acc: HeaderAcc, a: HeaderAcc, b: HeaderAcc)
    requires
        step_line(acc, words(l)) == LineStep::Next(a),
        walk(ls, a) == Some((b, text(ls).len())),
    ensures
        walk(seq![l] + ls, acc) == Some((b, text(seq![l] + ls).len())),
{
    let all = seq![l] + ls;
    assert(all[0] == l);
    assert(all.drop_first() =~= ls);
    assert(text(all) =~= l.push(10u8) + text(ls));
}

proof fn lemma_walk_end(acc: HeaderAcc)
    ensures
        walk(seq![kw_end_header()], acc) == Some((acc, text(seq![kw_end_header()]).len())),
{
    let ws = seq![kw_end_header()];
    assert(plain_words(ws));
    reveal_with_fuel(spaced, 2);
    assert(spaced(ws) == kw_end_header());
    lemma_words_of_spaced(ws);
    assert(kw_end_header() != kw_format());
    assert(kw_end_header() != kw_comment());
    assert(kw_end_header() != kw_obj_info());
    assert(kw_end_header() != kw_element());
    assert(kw_end_header() != kw_property());
    assert(seq![kw_end_header()].drop_first() =~= Seq::<Seq<u8>>::empty());
    reveal_with_fuel(text, 2);
}

/// The state of a written header once its vertex element is declared.
pub open spec fn vertex_acc(ascii: bool, n: nat, props: Seq<PropView>) -> HeaderAcc {
    HeaderAcc {
        ascii,
        little_endian: true,
        elements: seq![(kw_vertex(), n as usize, props)],
        seen_format: true,
    }
}

/// A scalar property the writer declares: type word, name and type.
pub type PropDecl = (Seq<u8>, Seq<u8>, PlyType);

/// The line of a declared property.
pub open spec fn decl_line(d: PropDecl) -> Seq<u8> {
    line_property(d.0, d.1)
}

/// The property a declaration adds.
pub open spec fn decl_view(d: PropDecl) -> PropView {
    (d.1, d.2, false, PlyType::Uint8)
}

/// The declaration is a scalar property of a known type with a plain name.
pub open spec fn decl_ok(d: PropDecl) -> bool {
    &&& d.0 != kw_list()
    &&& ply_type_of(d.0) == Some(d.2)
    &&& plain_words(seq![kw_property(), d.0, d.1])
}

proof fn lemma_property_keyword()
    ensures
        kw_property() != kw_format(),
        kw_property() != kw_comment(),
        kw_property() != kw_obj_info(),
        kw_property() != kw_element(),
{
    assert(kw_property()[0] != kw_obj_info()[0]);
}

proof fn lemma_walk_props(
    ds: Seq<PropDecl>,
    ascii: bool,
    n: nat,
    props: Seq<PropView>,
    rest: Seq<Seq<u8>>,
    fin: HeaderAcc,
)
    requires
        forall|k: int| 0 <= k < ds.len() ==> decl_ok(#[trigger] ds[k]),
        walk(rest, vertex_acc(ascii, n, props + ds.map_values(|d: PropDecl| decl_view(d)))) == Some(
            (fin, text(rest).len()),
        ),
    ensures
        walk(ds.map_values(|d: PropDecl| decl_line(d)) + rest, vertex_acc(ascii, n, props)) == Some(
            (fin, text(ds.map_values(|d: PropDecl| decl_line(d)) + rest).len()),
        ),
    decreases ds.len(),
{
    let lines = ds.map_values(|d: PropDecl| decl_line(d));
    if ds.len() == 0 {
        assert(lines + rest =~= rest);
        assert(props + ds.map_values(|d: PropDecl| decl_view(d)) =~= props);
    } else {
        let d = ds[0];
        assert(decl_ok(d));
        let more = ds.drop_first();
        let p2 = props.push(decl_view(d));
        assert(p2 + more.map_values(|d: PropDecl| decl_view(d)) =~= props + ds.map_values(|d: PropDecl| decl_view(d)));
        assert forall|k: int| 0 <= k < more.len() implies decl_ok(#[trigger] more[k]) by {
            assert(more[k] == ds[k + 1]);
        }
        lemma_walk_props(more, ascii, n, p2, rest, fin);
        let ws = seq![kw_property(), d.0, d.1];
        lemma_words_of_spaced(ws);
        lemma_property_keyword();
        let acc = vertex_acc(ascii, n, props);
        assert(with_property(acc, decl_view(d)) == vertex_acc(ascii, n, p2)) by {
            assert(acc.elements.update(0, (kw_vertex(), n as usize, props.push(decl_view(d)))) =~= seq![
                (kw_vertex(), n as usize, p2),
            ]);
        }
        assert(step_line(acc, words(decl_line(d))) == LineStep::Next(vertex_acc(ascii, n, p2)));
        lemma_walk_cons(decl_line(d), more.map_values(|d: PropDecl| decl_line(d)) + rest, acc, vertex_acc(ascii, n, p2), fin);
        assert(lines + rest =~= seq![decl_line(d)] + (more.map_values(|d: PropDecl| decl_line(d)) + rest));
    }
}

/// The vertex properties the writer declares.
pub open spec fn vertex_decls(normals: bool, colors: bool) -> Seq<PropDecl> {
    seq![
        (kw_double(), kw_x(), PlyType::Float64),
        (kw_double(), kw_y(), PlyType::Float64),
        (kw_double(), kw_z(), PlyType::Float64),
    ] + (if normals {
        seq![
            (kw_double(), kw_nx(), PlyType::Float64),
            (kw_double(), kw_ny(), PlyType::Float64),
            (kw_double(), kw_nz(), PlyType::Float64),
        ]
    } else {
        Seq::<PropDecl>::empty()
    }) + (if colors {
        seq![
            (kw_uchar(), kw_red(), PlyType::Uint8),
            (kw_uchar(), kw_green(), PlyType::Uint8),
            (kw_uchar(), kw_blue(), PlyType::Uint8),
        ]
    } else {
        Seq::<PropDecl>::empty()
    })
}

/// The vertex properties a written header declares, as the reader sees them.
pub open spec fn vertex_props_written(normals: bool, colors: bool) -> Seq<PropView> {
    vertex_decls(normals, colors).map_values(|d: PropDecl| decl_view(d))
}

proof fn lemma_type_words()
    ensures
        ply_type_of(kw_double()) == Some(PlyType::Float64),
        ply_type_of(kw_uchar()) == Some(PlyType::Uint8),
        kw_double() != kw_list(),
        kw_uchar() != kw_list(),
{
    assert(kw_double()[0] != kw_uint16()[0]);
    assert(kw_double()[0] != kw_ushort()[0]);
    assert(kw_double()[0] != kw_uint32()[0]);
    assert(kw_uchar()[1] != kw_uint8()[1]);
}

proof fn lemma_vertex_decls(normals: bool, colors: bool)
    ensures
        forall|k: int| 0 <= k < vertex_decls(normals, colors).len() ==> decl_ok(#[trigger] vertex_decls(normals, colors)[k]),
        vertex_decls(normals, colors).map_values(|d: PropDecl| decl_line(d)) == vertex_property_line_seq(normals, colors),
{
    lemma_type_words();
    let ds = vertex_decls(normals, colors);
    assert forall|k: int| 0 <= k < ds.len() implies decl_ok(#[trigger] ds[k]) by {
        let d = ds[k];
        let ws = seq![kw_property(), d.0, d.1];
        assert(d.0 == kw_double() || d.0 == kw_uchar());
        assert(forall|j: int| 0 <= j < ws.len() ==> #[trigger] ws[j].len() > 0 && no_ws(ws[j], 0, ws[j].len() as int));
    }
    assert(ds.map_values(|d: PropDecl| decl_line(d)) =~= vertex_property_line_seq(normals, colors));
}

proof fn lemma_decimal_digits(n: nat)
    ensures
        decimal_bytes(n).len() > 0,
        all_digits(decimal_bytes(n)),
        digits_value(decimal_bytes(n)) == n,
        decimal_bytes(n)[0] != 43,
        no_ws(decimal_bytes(n), 0, decimal_bytes(n).len() as int),
    decreases n,
{
    if n >= 10 {
        lemma_decimal_digits(n / 10);
        let d = decimal_bytes(n / 10);
        let s = decimal_bytes(n);
        assert(s == d.push((48 + n % 10) as u8));
        assert(s.drop_last() =~= d);
        assert(s.last() == (48 + n % 10) as u8);
        assert(((48 + n % 10) as u8) as int == 48 + n % 10);
        assert(n == (n / 10) * 10 + n % 10);
        assert(digits_value(s) == digits_value(d) * 10 + (s.last() - 48) as nat);
        assert(s[0] == d[0]);
        assert(all_digits(s)) by {
            assert forall|i: int| 0 <= i < s.len() implies 48 <= #[trigger] s[i] <= 57 by {
                if i < d.len() {
                    assert(s[i] == d[i]);
                }
            }
        }
        assert(no_ws(s, 0, s.len() as int)) by {
            assert forall|i: int| 0 <= i < s.len() implies !is_ascii_ws(#[trigger] s[i]) by {
                if i < d.len() {
                    assert(s[i] == d[i]);
                }
            }
        }
    } else {
        assert(decimal_bytes(n) == seq![(48 + n) as u8]);
        assert(decimal_bytes(n).drop_last() =~= Seq::<u8>::empty());
        assert(((48 + n) as u8) as int == 48 + n);
        assert(digits_value(decimal_bytes(n)) == digits_value(Seq::<u8>::empty()) * 10 + (decimal_bytes(n).last() - 48) as nat);
    }
}

proof fn lemma_spaced_plain(ws: Seq<Seq<u8>>)
    requires
        forall|k: int| 0 <= k < ws.len() ==> all_ascii(#[trigger] ws[k]) && no_ws(ws[k], 0, ws[k].len() as int),
    ensures
        all_ascii(spaced(ws)),
        forall|j: int| 0 <= j < spaced(ws).len() ==> #[trigger] spaced(ws)[j] != 10,
    decreases ws.len(),
{
    if ws.len() == 1 {
        assert(all_ascii(ws[0]) && no_ws(ws[0], 0, ws[0].len() as int));
    } else if ws.len() > 1 {
        let rest = ws.drop_first();
        assert forall|k: int| 0 <= k < rest.len() implies all_ascii(#[trigger] rest[k]) && no_ws(rest[k], 0, rest[k].len() as int) by {
            assert(rest[k] == ws[k + 1]);
        }
        lemma_spaced_plain(rest);
        assert(all_ascii(ws[0]) && no_ws(ws[0], 0, ws[0].len() as int));
        let s = spaced(ws);
        assert(s == ws[0] + seq![32u8] + spaced(rest));
        assert forall|j: int| 0 <= j < s.len() implies #[trigger] s[j] < 128 && s[j] != 10 by {
            if j < ws[0].len() {
                assert(s[j] == ws[0][j]);
                assert(!is_ascii_ws(ws[0][j]));
            } else if j == ws[0].len() {
            } else {
                assert(s[j] == spaced(rest)[j - ws[0].len() - 1]);
            }
        }
    }
}

/// The lines of a written point cloud header after `ply`.
pub open spec fn point_cloud_body_lines(n: nat, ascii: bool, normals: bool, colors: bool) -> Seq<Seq<u8>> {
    seq![line_format(ascii), line_comment(), line_element(kw_vertex(), n)] + vertex_property_line_seq(normals, colors)
        + seq![kw_end_header()]
}


proof fn lemma_plain_concat(a: Seq<Seq<u8>>, b: Seq<Seq<u8>>)
    requires
        plain_lines(a),
        plain_lines(b),
    ensures
        plain_lines(a + b),
{
    assert forall|k: int| 0 <= k < (a + b).len() implies all_ascii(#[trigger] (a + b)[k]) && forall|j: int|
        0 <= j < (a + b)[k].len() ==> (a + b)[k][j] != 10 by {
        if k < a.len() {
            assert((a + b)[k] == a[k]);
        } else {
            assert((a + b)[k] == b[k - a.len()]);
        }
    }
}

proof fn lemma_plain_one(ws: Seq<Seq<u8>>)
    requires
        forall|k: int| 0 <= k < ws.len() ==> all_ascii(#[trigger] ws[k]) && no_ws(ws[k], 0, ws[k].len() as int),
    ensures
        plain_lines(seq![spaced(ws)]),
{
    lemma_spaced_plain(ws);
}

proof fn lemma_body_plain(n: usize, ascii: bool, normals: bool, colors: bool)
    ensures
        plain_lines(point_cloud_body_lines(n as nat, ascii, normals, colors)),
{
    lemma_decimal_digits(n as nat);
    let d = decimal_bytes(n as nat);
    assert(all_ascii(d)) by {
        assert forall|k: int| 0 <= k < d.len() implies #[trigger] d[k] < 128 by {
            assert(48 <= d[k] <= 57);
        }
    }
    lemma_plain_one(seq![kw_format(), if ascii { kw_ascii() } else { kw_binary_little_endian() }, kw_version()]);
    lemma_plain_one(seq![kw_comment(), seq![67u8, 114, 101, 97, 116, 101, 100], seq![98u8, 121], seq![116u8, 105, 110, 121, 51, 100]]);
    lemma_plain_one(seq![kw_element(), kw_vertex(), d]);
    lemma_plain_one(seq![kw_end_header()]);
    assert(spaced(seq![kw_end_header()]) == kw_end_header());
    lemma_vertex_decls(normals, colors);
    let ds = vertex_decls(normals, colors);
    let props = vertex_property_line_seq(normals, colors);
    assert(plain_lines(props)) by {
        assert forall|k: int| 0 <= k < props.len() implies all_ascii(#[trigger] props[k]) && forall|j: int|
            0 <= j < props[k].len() ==> props[k][j] != 10 by {
            let dk = ds[k];
            assert(props[k] == decl_line(dk));
            assert(dk.0 == kw_double() || dk.0 == kw_uchar());
            lemma_spaced_plain(seq![kw_property(), dk.0, dk.1]);
        }
    }
    let a = seq![line_format(ascii)];
    let b = seq![line_comment()];
    let c = seq![line_element(kw_vertex(), n as nat)];
    let e = seq![kw_end_header()];
    lemma_plain_concat(a, b);
    lemma_plain_concat(a + b, c);
    lemma_plain_concat(a + b + c, props);
    lemma_plain_concat(a + b + c + props, e);
    assert(point_cloud_body_lines(n as nat, ascii, normals, colors) =~= a + b + c + props + e);
}

/// A point cloud header written by `point_cloud_header_bytes` reads back,
/// whatever follows it: the format it names, one `vertex` element with the
/// point count and the declared properties, and the data right after it.
pub proof fn lemma_point_cloud_header_reads_back(n: usize, ascii: bool, normals: bool, colors: bool, rest: Seq<u8>)
    ensures
        header_spec(point_cloud_header(n as nat, ascii, normals, colors) + rest) == Some(
            (
                ascii,
                true,
                seq![(kw_vertex(), n, vertex_props_written(normals, colors))],
                point_cloud_header(n as nat, ascii, normals, colors).len() as usize,
            ),
        ),
{
    let h = point_cloud_header(n as nat, ascii, normals, colors);
    let body = point_cloud_body_lines(n as nat, ascii, normals, colors);
    let fin = vertex_acc(ascii, n as nat, vertex_props_written(normals, colors));
    lemma_walk_end(fin);
    lemma_walk_preamble(n, ascii, normals, colors, seq![kw_end_header()], fin);
    lemma_point_cloud_header_text(n as nat, ascii, normals, colors);
    assert(point_cloud_header_lines(n as nat, ascii, normals, colors) =~= seq![line_ply()] + body);
    assert(h == line_ply().push(10u8) + text(body)) by {
        let ls = seq![line_ply()] + body;
        assert(ls[0] == line_ply());
        assert(ls.drop_first() =~= body);
    }
    lemma_body_plain(n, ascii, normals, colors);
    lemma_reads_back_from(h, body, rest, fin);
}

/// The face list property line of a written mesh header.
pub open spec fn line_face_list() -> Seq<u8> {
    spaced(seq![kw_property(), kw_list(), kw_uchar(), kw_uint(), kw_vertex_indices()])
}

/// The lines of a written triangle mesh header after `ply`.
pub open spec fn triangle_mesh_body_lines(nv: nat, nt: nat, ascii: bool, normals: bool, colors: bool) -> Seq<Seq<u8>> {
    seq![line_format(ascii), line_comment(), line_element(kw_vertex(), nv)] + vertex_property_line_seq(normals, colors)
        + seq![line_element(kw_face(), nt), line_face_list(), kw_end_header()]
}

/// The elements a written triangle mesh header declares.
pub open spec fn triangle_mesh_elements(nv: usize, nt: usize, normals: bool, colors: bool) -> Seq<ElemView> {
    seq![
        (kw_vertex(), nv, vertex_props_written(normals, colors)),
        (kw_face(), nt, seq![(kw_vertex_indices(), PlyType::Uint32, true, PlyType::Uint8)]),
    ]
}

proof fn lemma_triangle_mesh_header_text(nv: nat, nt: nat, ascii: bool, normals: bool, colors: bool)
    ensures
        triangle_mesh_header(nv, nt, ascii, normals, colors) == line_ply().push(10u8) + text(
            triangle_mesh_body_lines(nv, nt, ascii, normals, colors),
        ),
{
    lemma_literal_5();
    lemma_literal_6();
    lemma_literal_10();
    lemma_literal_11();
    lemma_text_head(nv, ascii);
    lemma_text_props(normals, colors);
    lemma_element_line(kw_face(), nt);
    let head = head_lines(kw_vertex(), nv, ascii);
    let props = vertex_property_line_seq(normals, colors);
    let tail = seq![line_element(kw_face(), nt), line_face_list(), kw_end_header()];
    lemma_text_three(line_element(kw_face(), nt), line_face_list(), kw_end_header());
    lemma_text_concat(head, props);
    lemma_text_concat(head + props, tail);
    let all = head + props + tail;
    assert(all[0] == line_ply());
    assert(all.drop_first() =~= triangle_mesh_body_lines(nv, nt, ascii, normals, colors));
    assert(text(all) == all[0].push(10u8) + text(all.drop_first()));
    assert(triangle_mesh_header(nv, nt, ascii, normals, colors) =~= text(head) + text(props) + text(tail));
}

proof fn lemma_mesh_tail_walk(ascii: bool, nv: usize, nt: usize, normals: bool, colors: bool)
    ensures
        ({
            let fin = HeaderAcc {
                ascii,
                little_endian: true,
                elements: triangle_mesh_elements(nv, nt, normals, colors),
                seen_format: true,
            };
            let tail = seq![line_element(kw_face(), nt as nat), line_face_list(), kw_end_header()];
            walk(tail, vertex_acc(ascii, nv as nat, vertex_props_written(normals, colors))) == Some(
                (fin, text(tail).len()),
            )
        }),
{
    let props = vertex_props_written(normals, colors);
    let acc0 = vertex_acc(ascii, nv as nat, props);
    let acc1 = HeaderAcc {
        ascii,
        little_endian: true,
        elements: seq![(kw_vertex(), nv, props), (kw_face(), nt, Seq::<PropView>::empty())],
        seen_format: true,
    };
    let fin = HeaderAcc {
        ascii,
        little_endian: true,
        elements: triangle_mesh_elements(nv, nt, normals, colors),
        seen_format: true,
    };
    // end_header
    lemma_walk_end(fin);
    // the face list property
    let lw = seq![kw_property(), kw_list(), kw_uchar(), kw_uint(), kw_vertex_indices()];
    assert(plain_words(lw));
    lemma_words_of_spaced(lw);
    lemma_property_keyword();
    lemma_type_words();
    assert(kw_uint()[0] != kw_int8()[0]);
    assert(kw_uint()[0] != kw_char()[0]);
    assert(kw_uint() != kw_int8());
    assert(kw_uint() != kw_char());
    assert(kw_uint().len() != kw_uint8().len());
    assert(kw_uint().len() != kw_uchar().len());
    assert(kw_uint().len() != kw_int16().len());
    assert(kw_uint().len() != kw_short().len());
    assert(kw_uint().len() != kw_uint16().len());
    assert(kw_uint().len() != kw_ushort().len());
    assert(kw_uint().len() != kw_int32().len());
    assert(kw_uint().len() != kw_int().len());
    assert(kw_uint().len() != kw_uint32().len());
    assert(ply_type_of(kw_uint()) == Some(PlyType::Uint32));
    assert(with_property(acc1, (kw_vertex_indices(), PlyType::Uint32, true, PlyType::Uint8)) == fin) by {
        assert(acc1.elements.update(1, (kw_face(), nt, seq![(kw_vertex_indices(), PlyType::Uint32, true, PlyType::Uint8)]))
            =~= triangle_mesh_elements(nv, nt, normals, colors));
    }
    assert(step_line(acc1, words(line_face_list())) == LineStep::Next(fin));
    lemma_walk_cons(line_face_list(), seq![kw_end_header()], acc1, fin, fin);
    // the face element
    lemma_decimal_digits(nt as nat);
    let ew = seq![kw_element(), kw_face(), decimal_bytes(nt as nat)];
    assert(plain_words(ew));
    lemma_words_of_spaced(ew);
    assert(kw_element()[0] != kw_comment()[0]);
    assert(parse_usize_spec(decimal_bytes(nt as nat)) == Some(nt));
    assert(acc0.elements.push((kw_face(), nt, seq![])) =~= acc1.elements);
    assert(step_line(acc0, words(line_element(kw_face(), nt as nat))) == LineStep::Next(acc1));
    lemma_walk_cons(line_element(kw_face(), nt as nat), seq![line_face_list()] + seq![kw_end_header()], acc0, acc1, fin);
    assert(seq![line_element(kw_face(), nt as nat)] + (seq![line_face_list()] + seq![kw_end_header()]) =~= seq![
        line_element(kw_face(), nt as nat),
        line_face_list(),
        kw_end_header(),
    ]);
}

/// The header lines before the vertex properties, read from the start:
/// with the rest read to `fin`, the whole is read to `fin`.
proof fn lemma_walk_preamble(
    n: usize,
    ascii: bool,
    normals: bool,
    colors: bool,
    rest: Seq<Seq<u8>>,
    fin: HeaderAcc,
)
    requires
        walk(rest, vertex_acc(ascii, n as nat, vertex_props_written(normals, colors))) == Some((fin, text(rest).len())),
    ensures
        ({
            let ls = seq![line_format(ascii), line_comment(), line_element(kw_vertex(), n as nat)]
                + vertex_property_line_seq(normals, colors) + rest;
            walk(ls, initial_acc()) == Some((fin, text(ls).len()))
        }),
{
    lemma_vertex_decls(normals, colors);
    assert(Seq::<PropView>::empty() + vertex_props_written(normals, colors) =~= vertex_props_written(normals, colors));
    lemma_walk_props(vertex_decls(normals, colors), ascii, n as nat, Seq::<PropView>::empty(), rest, fin);
    let props = vertex_property_line_seq(normals, colors) + rest;
    let acc1 = HeaderAcc { ascii, little_endian: true, elements: seq![], seen_format: true };
    lemma_decimal_digits(n as nat);
    let ew = seq![kw_element(), kw_vertex(), decimal_bytes(n as nat)];
    assert(plain_words(ew));
    lemma_words_of_spaced(ew);
    assert(kw_element()[0] != kw_comment()[0]);
    assert(parse_usize_spec(decimal_bytes(n as nat)) == Some(n));
    assert(acc1.elements.push((kw_vertex(), n, seq![])) =~= seq![(kw_vertex(), n, Seq::<PropView>::empty())]);
    assert(step_line(acc1, words(line_element(kw_vertex(), n as nat))) == LineStep::Next(
        vertex_acc(ascii, n as nat, Seq::<PropView>::empty()),
    ));
    lemma_walk_cons(line_element(kw_vertex(), n as nat), props, acc1, vertex_acc(ascii, n as nat, Seq::<PropView>::empty()), fin);
    let cw = seq![kw_comment(), seq![67u8, 114, 101, 97, 116, 101, 100], seq![98u8, 121], seq![116u8, 105, 110, 121, 51, 100]];
    assert(plain_words(cw));
    lemma_words_of_spaced(cw);
    assert(step_line(acc1, words(line_comment())) == LineStep::Next(acc1));
    let after_comment = seq![line_element(kw_vertex(), n as nat)] + props;
    lemma_walk_cons(line_comment(), after_comment, acc1, acc1, fin);
    let fw = seq![kw_format(), if ascii { kw_ascii() } else { kw_binary_little_endian() }, kw_version()];
    assert(plain_words(fw));
    lemma_words_of_spaced(fw);
    assert(step_line(initial_acc(), words(line_format(ascii))) == LineStep::Next(acc1));
    let after_format = seq![line_comment()] + after_comment;
    lemma_walk_cons(line_format(ascii), after_format, initial_acc(), acc1, fin);
    assert(seq![line_format(ascii), line_comment(), line_element(kw_vertex(), n as nat)]
        + vertex_property_line_seq(normals, colors) + rest =~= seq![line_format(ascii)] + after_format);
}

proof fn lemma_mesh_body_plain(nv: usize, nt: usize, ascii: bool, normals: bool, colors: bool)
    ensures
        plain_lines(triangle_mesh_body_lines(nv as nat, nt as nat, ascii, normals, colors)),
{
    lemma_body_plain(nv, ascii, normals, colors);
    let pc = point_cloud_body_lines(nv as nat, ascii, normals, colors);
    let front = pc.drop_last();
    assert(plain_lines(front)) by {
        assert forall|k: int| 0 <= k < front.len() implies all_ascii(#[trigger] front[k]) && forall|j: int|
            0 <= j < front[k].len() ==> front[k][j] != 10 by {
            assert(front[k] == pc[k]);
        }
    }
    lemma_decimal_digits(nt as nat);
    let d = decimal_bytes(nt as nat);
    assert(all_ascii(d)) by {
        assert forall|k: int| 0 <= k < d.len() implies #[trigger] d[k] < 128 by {
            assert(48 <= d[k] <= 57);
        }
    }
    lemma_plain_one(seq![kw_element(), kw_face(), d]);
    lemma_plain_one(seq![kw_property(), kw_list(), kw_uchar(), kw_uint(), kw_vertex_indices()]);
    lemma_plain_one(seq![kw_end_header()]);
    assert(spaced(seq![kw_end_header()]) == kw_end_header());
    let a = seq![line_element(kw_face(), nt as nat)];
    let b = seq![line_face_list()];
    let c = seq![kw_end_header()];
    lemma_plain_concat(front, a);
    lemma_plain_concat(front + a, b);
    lemma_plain_concat(front + a + b, c);
    assert(triangle_mesh_body_lines(nv as nat, nt as nat, ascii, normals, colors) =~= front + a + b + c);
}

/// The header of a written point cloud, without the `ply` line, walks to
/// its final state.
proof fn lemma_reads_back_from(h: Seq<u8>, body: Seq<Seq<u8>>, rest: Seq<u8>, fin: HeaderAcc)
    requires
        h == line_ply().push(10u8) + text(body),
        plain_lines(body),
        walk(body, initial_acc()) == Some((fin, text(body).len())),
        fin.seen_format,
    ensures
        header_spec(h + rest) == Some((fin.ascii, fin.little_endian, fin.elements, h.len() as usize)),
{
    let data = h + rest;
    assert(data =~= seq![112u8, 108, 121, 10] + text(body) + rest);
    assert(data.subrange(0, 3) =~= line_ply());
    lemma_newline_after(data, 0, line_ply(), 0);
    lemma_ascii_utf8(line_ply());
    let chars = seq!['p', 'l', 'y'];
    assert(line_ply().map_values(|b: u8| b as char) =~= chars);
    assert(trim_start_ws(chars) == chars);
    assert(trim_end_ws(chars) == chars);
    assert(is_ply_line(data.subrange(0, 3)));
    assert(data.skip(4) =~= text(body) + rest);
    lemma_walk(data, 4, body, rest, initial_acc());
}

/// A triangle mesh header written by `triangle_mesh_header_bytes` reads
/// back, whatever follows it: the format, the `vertex` element with its
/// count and properties, the `face` element with its count and vertex index
/// list, and the data right after it.
pub proof fn lemma_triangle_mesh_header_reads_back(
    nv: usize,
    nt: usize,
    ascii: bool,
    normals: bool,
    colors: bool,
    rest: Seq<u8>,
)
    ensures
        header_spec(triangle_mesh_header(nv as nat, nt as nat, ascii, normals, colors) + rest) == Some(
            (
                ascii,
                true,
                triangle_mesh_elements(nv, nt, normals, colors),
                triangle_mesh_header(nv as nat, nt as nat, ascii, normals, colors).len() as usize,
            ),
        ),
{
    let fin = HeaderAcc {
        ascii,
        little_endian: true,
        elements: triangle_mesh_elements(nv, nt, normals, colors),
        seen_format: true,
    };
    let tail = seq![line_element(kw_face(), nt as nat), line_face_list(), kw_end_header()];
    lemma_mesh_tail_walk(ascii, nv, nt, normals, colors);
    lemma_walk_preamble(nv, ascii, normals, colors, tail, fin);
    lemma_triangle_mesh_header_text(nv as nat, nt as nat, ascii, normals, colors);
    lemma_mesh_body_plain(nv, nt, ascii, normals, colors);
    lemma_reads_back_from(
        triangle_mesh_header(nv as nat, nt as nat, ascii, normals, colors),
        triangle_mesh_body_lines(nv as nat, nt as nat, ascii, normals, colors),
        rest,
        fin,
    );
}

} // verus!
