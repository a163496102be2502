//! Recognising Legacy Survey brick images by file name.
use vstd::prelude::*;
use vstd::string::StringSliceAdditionalSpecFns;

verus! {

/// `b` starts with `prefix`.
pub open spec fn has_prefix(b: Seq<u8>, prefix: Seq<u8>) -> bool {
    prefix.len() <= b.len() && b.subrange(0, prefix.len() as int) == prefix
}

/// `b` ends with `suffix`.
pub open spec fn has_suffix(b: Seq<u8>, suffix: Seq<u8>) -> bool {
    suffix.len() <= b.len() && b.subrange(b.len() - suffix.len(), b.len() as int) == suffix
}

/// The file-name ending of the science image of a band: `-image-<band>.fits.fz`.
pub open spec fn image_suffix(band: Seq<u8>) -> Seq<u8> {
    "-image-".spec_bytes() + band + ".fits.fz".spec_bytes()
}

fn bytes_have_prefix(b: &[u8], prefix: &[u8]) -> (res: bool)
    ensures
        res == has_prefix(b@, prefix@),
{
    if prefix.len() > b.len() {
        return false;
    }
    let mut i: usize = 0;
    while i < prefix.len()
        invariant
            prefix@.len() <= b@.len(),
            i <= prefix@.len(),
            forall|k: int| 0 <= k < i ==> b@[k] == prefix@[k],
        decreases prefix@.len() - i,
    {
        if b[i] != prefix[i] {
            proof {
                assert(b@.subrange(0, prefix@.len() as int)[i as int] != prefix@[i as int]);
            }
            return false;
        }
        i += 1;
    }
    proof {
        assert(b@.subrange(0, prefix@.len() as int) =~= prefix@);
    }
    true
}

fn bytes_have_suffix(b: &[u8], suffix: &[u8]) -> (res: bool)
    ensures
        res == has_suffix(b@, suffix@),
{
    if suffix.len() > b.len() {
        return false;
    }
    let off = b.len() - suffix.len();
    let mut i: usize = 0;
    while i < suffix.len()
        invariant
            suffix@.len() <= b@.len(),
            off == b@.len() - suffix@.len(),
            b@.len() == b.len(),
            i <= suffix@.len(),
            forall|k: int| 0 <= k < i ==> b@[off + k] == suffix@[k],
        decreases suffix@.len() - i,
    {
        if b[off + i] != suffix[i] {
            proof {
                assert(b@.subrange(off as int, b@.len() as int)[i as int] != suffix@[i as int]);
            }
            return false;
        }
        i += 1;
    }
    proof {
        assert(b@.subrange(off as int, b@.len() as int) =~= suffix@);
    }
    true
}

/// A file name of a science image of the band:
/// `legacysurvey-<brick>-image-<band>.fits.fz` (starts with `legacysurvey-`
/// and ends with `-image-<band>.fits.fz`).
pub fn is_brick_image(name: &str, band: &str) -> (res: bool)
    ensures
        res == (has_prefix(name.spec_bytes(), "legacysurvey-".spec_bytes()) && has_suffix(
            name.spec_bytes(),
            image_suffix(band.spec_bytes()),
        )),
{
    let mut suffix: Vec<u8> = Vec::new();
    crate::fits_header::append_bytes(&mut suffix, "-image-".as_bytes());
    crate::fits_header::append_bytes(&mut suffix, band.as_bytes());
    crate::fits_header::append_bytes(&mut suffix, ".fits.fz".as_bytes());
    let n = name.as_bytes();
    bytes_have_prefix(n, "legacysurvey-".as_bytes()) && bytes_have_suffix(n, suffix.as_slice())
}

/// The science image of brick `brick` in band `band`, named
/// `legacysurvey-<brick>-image-<band>.fits.fz`, is recognised as such.
pub proof fn lemma_brick_file_name(brick: Seq<u8>, band: Seq<u8>)
    ensures
        ({
            let name = "legacysurvey-".spec_bytes() + brick + "-image-".spec_bytes() + band + ".fits.fz".spec_bytes();
            has_prefix(name, "legacysurvey-".spec_bytes()) && has_suffix(name, image_suffix(band))
        }),
{
    let p = "legacysurvey-".spec_bytes();
    let name = p + brick + "-image-".spec_bytes() + band + ".fits.fz".spec_bytes();
    assert(name.subrange(0, p.len() as int) =~= p);
    let suf = image_suffix(band);
    assert(name.subrange(name.len() - suf.len(), name.len() as int) =~= suf);
}

/// The position of the first `-` (byte 45) at or after `from`.
pub open spec fn next_dash(b: Seq<u8>, from: int) -> int
    decreases b.len() - from,
{
    if from >= b.len() {
        b.len() as int
    } else if b[from] == 45u8 {
        from
    } else {
        next_dash(b, from + 1)
    }
}

/// The byte range of the second `-`-separated field of `b` (as
/// `split('-').nth(1)`), or `None` when `b` holds no `-`.
pub open spec fn second_field(b: Seq<u8>) -> Option<(int, int)> {
    let first = next_dash(b, 0);
    if first >= b.len() {
        None
    } else {
        Some((first + 1, next_dash(b, first + 1)))
    }
}

/// `next_dash` finds the first `-` at or after `from`, or the end.
proof fn lemma_next_dash(b: Seq<u8>, from: int)
    requires
        0 <= from <= b.len(),
    ensures
        from <= next_dash(b, from) <= b.len(),
        forall|i: int| from <= i < next_dash(b, from) ==> b[i] != 45u8,
        next_dash(b, from) == b.len() || b[next_dash(b, from)] == 45u8,
    decreases b.len() - from,
{
    if from < b.len() && b[from] != 45u8 {
        lemma_next_dash(b, from + 1);
    }
}

fn find_dash(b: &[u8], from: usize) -> (k: usize)
    requires
        from <= b@.len(),
    ensures
        k as int == next_dash(b@, from as int),
        from <= k <= b@.len(),
{
    let mut k = from;
    while k < b.len() && b[k] != 45u8
        invariant
            from <= k <= b@.len(),
            next_dash(b@, k as int) == next_dash(b@, from as int),
        decreases b@.len() - k,
    {
        k += 1;
    }
    k
}

/// The byte range of the brick name in a file stem such as
/// `legacysurvey-1877p122-image-r.fits` (the field after the first `-`).
pub fn brick_name_range(stem: &str) -> (range: Option<(usize, usize)>)
    ensures
        match range {
            Some((a, b)) => second_field(stem.spec_bytes()) == Some((a as int, b as int)),
            None => second_field(stem.spec_bytes()) is None,
        },
        range matches Some((a, b)) ==> 1 <= a <= b <= stem.spec_bytes().len(),
        // The field runs from just after the first `-` up to the next `-` or
        // the end, and holds no `-`.
        range matches Some((a, b)) ==> {
            let s = stem.spec_bytes();
            &&& s[a - 1] == 45u8
            &&& forall|i: int| 0 <= i < a - 1 ==> s[i] != 45u8
            &&& forall|i: int| a <= i < b ==> s[i] != 45u8
            &&& b == s.len() || s[b as int] == 45u8
        },
        range is None ==> forall|i: int| 0 <= i < stem.spec_bytes().len() ==> stem.spec_bytes()[i] != 45u8,
{
    proof {
        lemma_next_dash(stem.spec_bytes(), 0);
        let first = next_dash(stem.spec_bytes(), 0);
        if first < stem.spec_bytes().len() {
            lemma_next_dash(stem.spec_bytes(), first + 1);
        }
    }
    let bytes = stem.as_bytes();
    let first = find_dash(bytes, 0);
    if first >= bytes.len() {
        return None;
    }
    let end = find_dash(bytes, first + 1);
    Some((first + 1, end))
}

} // verus!
