//! The mark, and the region between it and point.
use vstd::prelude::*;

verus! {

/// Where the mark is, and whether it is currently defining a region.
///
/// Two pieces of state rather than one `Option<usize>` because a mark that has
/// been deactivated is not a mark that has been forgotten:
/// `exchange-point-and-mark` goes back to it, and re-activates it, long after
/// the region it defined stopped being highlighted.
#[derive(Clone, Copy, Debug, PartialEq, Eq, Structural)]
pub struct Mark {
    /// Character offset the mark sits at.
    pub at: usize,
    /// Whether the region is in force: highlighted, and used by the commands
    /// that operate on a region.
    pub active: bool,
}

impl Mark {
    pub fn new(at: usize) -> (r: Self)
        ensures
            r.at == at,
            r.active,
    {
        Self { at, active: true }
    }
}

/// The region a mark and point delimit in a text of `len` characters: their
/// two offsets in order, each clamped to the text.
pub open spec fn spec_region(mark: Option<Mark>, point: int, len: int) -> Option<(int, int)> {
    match mark {
        Some(m) if m.active => {
            let lo = if m.at < point { m.at as int } else { point };
            let hi = if m.at < point { point } else { m.at as int };
            Some((if lo < len { lo } else { len }, if hi < len { hi } else { len }))
        },
        _ => None,
    }
}

/// The region is the text between mark and point: with an active mark,
/// its ends are the mark and point in order, each clamped to the text --
/// exactly the two of them when both lie within it -- and with no active mark
/// there is none.
pub proof fn lemma_region_between_mark_and_point(mark: Option<Mark>, point: int, len: int)
    requires
        0 <= point,
        0 <= len,
    ensures
        mark matches Some(m) ==> (m.active ==> spec_region(mark, point, len) == Some((
            vstd::math::min(vstd::math::min(m.at as int, point), len),
            vstd::math::min(vstd::math::max(m.at as int, point), len),
        ))),
        mark matches Some(m) ==> (m.active && m.at <= len && point <= len ==> ({
            let (a, b) = spec_region(mark, point, len)->0;
            &&& a <= b
            &&& (a == m.at && b == point) || (a == point && b == m.at)
        })),
        !(mark matches Some(m) && m.active) ==> spec_region(mark, point, len) is None,
{
}

/// The ordered pair of offsets a region covers, clamped to a buffer of LEN
/// characters.
///
/// Returns `None` unless there is an *active* mark: an inactive mark is a
/// place to go back to, not a region to act on. Point and mark are returned in
/// order, so a caller never has to care which way round the user made the
/// selection.
pub fn region_bounds(mark: Option<Mark>, point: usize, len: usize) -> (r: Option<(usize, usize)>)
    ensures
        r matches Some(b) ==> spec_region(mark, point as int, len as int) == Some(
            (b.0 as int, b.1 as int),
        ),
        r is None ==> spec_region(mark, point as int, len as int) is None,
        r matches Some(b) ==> b.0 <= b.1 <= len,
{
    match mark {
        Some(m) => {
            if !m.active {
                return None;
            }
            let lo = if m.at < point {
                m.at
            } else {
                point
            };
            let hi = if m.at < point {
                point
            } else {
                m.at
            };
            let start = if lo < len {
                lo
            } else {
                len
            };
            let end = if hi < len {
                hi
            } else {
                len
            };
            Some((start, end))
        },
        None => None,
    }
}

} // verus!
