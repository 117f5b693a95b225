//! File-format dispatch shared by the readers and writers.

use vstd::prelude::*;

verus! {

/// What a geometry file holds, as `io::FileGeometry` reports it.
#[derive(Clone, Copy, PartialEq, Eq, Structural, Debug)]
pub enum FileGeometry {
    ContentsUnknown,
    ContainsPoints,
    ContainsLines,
    ContainsTriangles,
}

/// The numeric code of each kind (`0`, `1`, `2`, `4`).
pub open spec fn file_geometry_code(g: FileGeometry) -> i32 {
    match g {
        FileGeometry::ContentsUnknown => 0,
        FileGeometry::ContainsPoints => 1,
        FileGeometry::ContainsLines => 2,
        FileGeometry::ContainsTriangles => 4,
    }
}

impl FileGeometry {
    /// The numeric code of the kind.
    pub fn value(&self) -> (v: i32)
        ensures
            v == file_geometry_code(*self),
    {
        match self {
            FileGeometry::ContentsUnknown => 0,
            FileGeometry::ContainsPoints => 1,
            FileGeometry::ContainsLines => 2,
            FileGeometry::ContainsTriangles => 4,
        }
    }
}

/// Options of `io::ReadPointCloud`.
pub struct ReadPointCloudOptions {
    pub remove_nan_points: bool,
    pub remove_infinite_points: bool,
}

/// `<str as PartialEq>::eq`: whether the two texts hold the same characters.
#[verifier::external_body]
pub(crate) fn str_eq(a: &str, b: &str) -> (r: bool)
    ensures
        r == (a@ == b@),
{
    a == b
}

/// Unicode lower-case mapping of a text, as `str::to_lowercase` computes it.
pub uninterp spec fn lowercase(s: Seq<char>) -> Seq<char>;

/// `str::to_lowercase`: the text under the Unicode lower-case mapping,
/// named `lowercase` and not spelled out.
#[verifier::external_body]
fn str_to_lowercase(s: &str) -> (r: String)
    ensures
        r@ == lowercase(s@),
{
    s.to_lowercase()
}

/// `s` holds a `.` at `i` and none after it.
pub open spec fn is_last_dot(s: Seq<char>, i: int) -> bool {
    &&& 0 <= i < s.len()
    &&& s[i] == '.'
    &&& forall|j: int| i < j < s.len() ==> s[j] != '.'
}

/// `str::rsplit_once('.')`, second half: the text after the last `.`, or
/// nothing when there is none.
#[verifier::external_body]
fn text_after_last_dot(s: &str) -> (r: Option<&str>)
    ensures
        r is None <==> forall|j: int| 0 <= j < s@.len() ==> s@[j] != '.',
        r matches Some(e) ==> exists|i: int| is_last_dot(s@, i) && e@ == s@.skip(i + 1),
{
    match s.rsplit_once('.') {
        Some((_, ext)) => Some(ext),
        None => None,
    }
}

/// The format a file is read or written in: `format` itself, or, when it is
/// `auto`, the lower-cased extension of `filename` (empty without one).
pub fn format_from_filename(filename: &str, format: &str) -> (r: String)
    ensures
        format@ != seq!['a', 'u', 't', 'o'] ==> r@ == format@,
        format@ == seq!['a', 'u', 't', 'o'] ==> (forall|j: int|
            0 <= j < filename@.len() ==> filename@[j] != '.') ==> r@ == Seq::<char>::empty(),
        format@ == seq!['a', 'u', 't', 'o'] ==> forall|i: int|
            #[trigger] is_last_dot(filename@, i) ==> r@ == lowercase(filename@.skip(i + 1)),
{
    proof {
        reveal_strlit("auto");
        assert("auto"@ =~= seq!['a', 'u', 't', 'o']);
    }
    if str_eq(format, "auto") {
        match text_after_last_dot(filename) {
            Some(ext) => {
                proof {
                    assert forall|i: int| #[trigger] is_last_dot(filename@, i) implies ext@ == filename@.skip(i + 1) by {
                        let k = choose|k: int| is_last_dot(filename@, k) && ext@ == filename@.skip(k + 1);
                        if k < i {
                            assert(filename@[i] == '.');
                        } else if i < k {
                            assert(filename@[k] == '.');
                        }
                    }
                }
                str_to_lowercase(ext)
            },
            None => String::new(),
        }
    } else {
        format.to_owned()
    }
}

/// The items of `s` whose mark in `keep` is set, in order.
pub open spec fn kept_items<T>(s: Seq<T>, keep: Seq<bool>) -> Seq<T>
    decreases s.len(),
{
    if s.len() == 0 {
        seq![]
    } else if keep[s.len() - 1] {
        kept_items(s.drop_last(), keep).push(s.last())
    } else {
        kept_items(s.drop_last(), keep)
    }
}

proof fn lemma_kept_items_len<T>(s: Seq<T>, keep: Seq<bool>)
    ensures
        kept_items(s, keep).len() <= s.len(),
    decreases s.len(),
{
    if s.len() > 0 {
        lemma_kept_items_len(s.drop_last(), keep);
    }
}

/// Keeps, in place and in order, the items whose mark is set (the
/// compaction of `RemoveNonFinitePoints`).
pub fn compact_kept<T: Copy>(v: &mut Vec<T>, keep: &[bool])
    requires
        keep@.len() == old(v)@.len(),
    ensures
        final(v)@ == kept_items(old(v)@, keep@),
{
    let ghost orig = v@;
    let n = v.len();
    let mut k: usize = 0;
    let mut i: usize = 0;
    while i < n
        invariant
            n == orig.len(),
            keep@.len() == n,
            v@.len() == n,
            k <= i <= n,
            v@.take(k as int) == kept_items(orig.take(i as int), keep@),
            forall|j: int| i <= j < n ==> #[trigger] v@[j] == orig[j],
        decreases n - i,
    {
        proof {
            assert(orig.take(i + 1).drop_last() =~= orig.take(i as int));
        }
        if keep[i] {
            let x = v[i];
            let ghost before = v@;
            v.set(k, x);
            proof {
                assert(v@.take(k + 1) =~= before.take(k as int).push(x));
            }
            k += 1;
        }
        i += 1;
    }
    v.truncate(k);
    proof {
        assert(orig.take(n as int) =~= orig);
    }
}

} // verus!
