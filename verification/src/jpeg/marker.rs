//! Markers and two-byte lengths of the JPEG container.

use super::Error;
use vstd::prelude::*;

verus! {

/// The big-endian 16-bit number at offset `i`.
pub open spec fn be16_at(d: Seq<u8>, i: int) -> int {
    d[i] * 256 + d[i + 1]
}

/// Reads the big-endian 16-bit number at offset `i`.
pub fn be16(d: &[u8], i: usize) -> (r: Result<usize, Error>)
    ensures
        i + 2 <= d@.len() ==> r == Ok::<usize, Error>(be16_at(d@, i as int) as usize),
        i + 2 > d@.len() ==> r == Err::<usize, Error>(Error::Format),
{
    if d.len() < 2 || i > d.len() - 2 {
        return Err(Error::Format);
    }
    let hi: usize = d[i] as usize;
    let lo: usize = d[i + 1] as usize;
    assert((hi << 8 | lo) == hi * 256 + lo) by (bit_vector)
        requires
            hi < 256,
            lo < 256,
    ;
    Ok(hi << 8 | lo)
}

/// A marker starts at `p`: an FF whose next byte is neither a fill byte nor the
/// zero that marks a stuffed FF.
pub open spec fn is_marker(d: Seq<u8>, p: int) -> bool {
    &&& 0 <= p
    &&& p + 1 < d.len()
    &&& d[p] == 0xFF
    &&& d[p + 1] != 0xFF
    &&& d[p + 1] != 0
}

/// The first marker at or after `i`: its code, and the offset just past it.
pub open spec fn marker_from(d: Seq<u8>, i: int) -> Option<(u8, int)>
    decreases d.len() - i,
{
    if i + 1 >= d.len() {
        None
    } else if is_marker(d, i) {
        Some((d[i + 1], i + 2))
    } else {
        marker_from(d, i + 1)
    }
}

/// A marker without a segment that may stand anywhere: TEM or RSTn.
pub open spec fn is_standalone(code: u8) -> bool {
    code == 0x01 || 0xD0 <= code <= 0xD7
}

/// The first marker at or after `i` that is not standalone.
pub open spec fn header_from(d: Seq<u8>, i: int) -> Option<(u8, int)>
    decreases d.len() - i,
{
    if i + 1 >= d.len() {
        None
    } else if is_marker(d, i) && !is_standalone(d[i + 1]) {
        Some((d[i + 1], i + 2))
    } else {
        header_from(d, i + 1)
    }
}

/// The markers that start in `a..b` are restart markers, RST0 to RST7; and there are none of
/// those either, unless `any`.
pub open spec fn only_restarts(d: Seq<u8>, a: int, b: int, any: bool) -> bool {
    forall|p: int| a <= p < b && #[trigger] is_marker(d, p) ==> any && 0xD0 <= d[p + 1] <= 0xD7
}

/// `marker_from` finds the least marker position.
pub proof fn lemma_marker_from(d: Seq<u8>, i: int)
    requires
        0 <= i,
    ensures
        marker_from(d, i) matches Some((code, end)) ==> {
            &&& i + 2 <= end <= d.len()
            &&& is_marker(d, end - 2)
            &&& code == d[end - 1]
            &&& forall|p: int| i <= p < end - 2 ==> !is_marker(d, p)
        },
        marker_from(d, i) is None ==> forall|p: int| i <= p ==> !is_marker(d, p),
    decreases d.len() - i,
{
    if i + 1 < d.len() && !is_marker(d, i) {
        lemma_marker_from(d, i + 1);
    }
}

/// Positions that hold no marker can be skipped.
pub proof fn lemma_marker_skip(d: Seq<u8>, i: int, j: int)
    requires
        0 <= i <= j,
        forall|p: int| i <= p < j ==> !is_marker(d, p),
    ensures
        marker_from(d, i) == marker_from(d, j),
        header_from(d, i) == header_from(d, j),
    decreases j - i,
{
    if i < j {
        lemma_marker_skip(d, i + 1, j);
    }
}

/// A header is found by walking over standalone markers.
pub proof fn lemma_header_step(d: Seq<u8>, i: int)
    requires
        0 <= i,
    ensures
        match marker_from(d, i) {
            None => header_from(d, i) is None,
            Some((code, end)) => header_from(d, i) == if is_standalone(code) {
                header_from(d, end)
            } else {
                Some((code, end))
            },
        },
{
    lemma_marker_from(d, i);
    match marker_from(d, i) {
        None => {
            if i < d.len() {
                lemma_marker_skip(d, i, d.len() as int);
            }
        },
        Some((code, end)) => {
            lemma_marker_skip(d, i, end - 2);
            if is_standalone(code) {
                // The code byte itself is not FF.
                lemma_marker_skip(d, end - 1, end);
            }
        },
    }
}

/// `header_from` only moves forward.
pub proof fn lemma_header_bounds(d: Seq<u8>, i: int)
    requires
        0 <= i,
    ensures
        header_from(d, i) matches Some((code, end)) ==> {
            &&& i + 2 <= end <= d.len()
            &&& code == d[end - 1]
            &&& is_marker(d, end - 2)
            &&& !is_standalone(code)
        },
    decreases d.len() - i,
{
    if i + 1 < d.len() && !(is_marker(d, i) && !is_standalone(d[i + 1])) {
        lemma_header_bounds(d, i + 1);
    }
}

/// Position just past the next marker code at or after `i`, and the code.
pub fn next_marker(d: &[u8], i: usize) -> (r: Result<(u8, usize), Error>)
    ensures
        match marker_from(d@, i as int) {
            None => r == Err::<(u8, usize), Error>(Error::Format),
            Some((code, end)) => r matches Ok((c, e)) && c == code && e == end && end
                <= d@.len(),
        },
{
    let n: usize = d.len();
    let mut k: usize = i;
    loop
        invariant
            n == d@.len(),
            i <= k,
            marker_from(d@, i as int) == marker_from(d@, k as int),
        decreases n - k,
    {
        let ghost k0 = k;
        while k < n && d[k] != 0xFF
            invariant
                n == d@.len(),
                k0 <= k,
                k <= n || k == k0,
                forall|p: int| k0 <= p < k ==> !is_marker(d@, p),
            decreases n - k,
        {
            k += 1;
        }
        let ghost k1 = k;
        while k < n && d[k] == 0xFF
            invariant
                n == d@.len(),
                k0 <= k1 <= k,
                k <= n || k == k0,
                k1 < n ==> d@[k1 as int] == 0xFF,
                forall|p: int| k1 <= p < k ==> d@[p] == 0xFF,
                forall|p: int| k0 <= p < k1 ==> !is_marker(d@, p),
            decreases n - k,
        {
            k += 1;
        }
        proof {
            assert forall|p: int| k0 <= p < k - 1 implies !is_marker(d@, p) by {
                if k1 <= p {
                    assert(d@[p + 1] == 0xFF);
                }
            }
        }
        if k >= n {
            proof {
                lemma_marker_from(d@, k0 as int);
            }
            return Err(Error::Format);
        }
        let m: u8 = d[k];
        proof {
            lemma_marker_skip(d@, k0 as int, k - 1);
        }
        k += 1;
        if m != 0 {
            return Ok((m, k));
        }
        proof {
            lemma_marker_skip(d@, k - 2, k as int);
        }
    }
}

} // verus!
