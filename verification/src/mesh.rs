use vstd::prelude::*;

verus! {

/// One corner of a mesh face: a vertex index and optional texture and
/// normal indexes. Indexes are 1-based; a negative index counts from the
/// end of its array, -1 meaning the last element.
#[derive(Clone, Copy, Debug)]
pub struct FaceElement {
    pub vertex: isize,
    pub texture: Option<isize>,
    pub normal: Option<isize>,
}

/// The 0-based array position that a 1-based index selects in an array of
/// length `len`: positive indexes count from the front, negative ones from
/// the back.
pub open spec fn spec_resolve(index: int, len: int) -> int {
    if index >= 0 {
        index - 1
    } else {
        len + index
    }
}

/// Convert a 1-based, possibly negative index into the 0-based position it
/// selects in an array of length `max`. Every index lookup shares this one
/// conversion.
pub fn convert_index(index: isize, max: usize) -> (r: usize)
    requires
        index != 0,
        index > 0 || max + index >= 0,
        max <= isize::MAX,
    ensures
        r == spec_resolve(index as int, max as int),
{
    if index >= 0 {
        (index - 1) as usize
    } else {
        ((max as isize) + index) as usize
    }
}

/// Law: in an array of positive length, index 1 selects the first position
/// and index -1 the last.
pub proof fn lemma_resolve_ends(len: int)
    requires
        len > 0,
    ensures
        spec_resolve(1, len) == 0,
        spec_resolve(-1, len) == len - 1,
{
}

} // verus!
