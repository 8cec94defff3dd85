//! What holds of decoding as a whole.

use super::bits::{bits_at, entropy_bytes, lemma_past_ff, past_ff};
use super::color::{enlarged, gray_of};
use super::frame::{huff_table, no_header, quant_table, with_huff, with_quant, Header};
use super::huffman::Table;
use super::image::{after_segment, after_segments, blank, decoded, samples};
use super::marker::{
    be16_at, header_from, is_marker, lemma_header_bounds, lemma_marker_from, marker_from,
};
use super::scan::{at_start, lemma_select, same_frame, scan_header, select, Progress, Scan};
use super::Error;
use vstd::arithmetic::power2::pow2;
use vstd::prelude::*;

verus! {

/// `t` starts with an end marker.
pub open spec fn ends_image(t: Seq<u8>) -> bool {
    t.len() >= 2 && t[0] == 0xFF && t[1] == 0xD9
}

proof fn lemma_past_ff_appended(d: Seq<u8>, t: Seq<u8>, i: int)
    requires
        0 <= i <= d.len(),
        ends_image(t),
    ensures
        past_ff(d, i) < d.len() ==> past_ff(d + t, i) == past_ff(d, i),
        past_ff(d, i) == d.len() ==> past_ff(d + t, i) == d.len() + 1,
    decreases d.len() - i,
{
    lemma_past_ff(d, i);
    if i < d.len() {
        assert((d + t)[i] == d[i]);
        if d[i] == 0xFF {
            lemma_past_ff_appended(d, t, i + 1);
        }
    } else {
        assert((d + t)[i] == 0xFF);
        assert((d + t)[i + 1] == 0xD9);
        assert(past_ff(d + t, i + 1) == i + 1);
    }
}

/// An end marker adds nothing to an entropy-coded segment that ran to the end of the data.
pub proof fn lemma_entropy_appended(d: Seq<u8>, t: Seq<u8>, i: int)
    requires
        0 <= i <= d.len(),
        ends_image(t),
    ensures
        entropy_bytes(d + t, i) == entropy_bytes(d, i),
    decreases d.len() - i,
{
    let e = d + t;
    lemma_past_ff(d, i);
    lemma_past_ff_appended(d, t, i);
    if i < d.len() {
        assert(e[i] == d[i]);
        if d[i] != 0xFF {
            lemma_entropy_appended(d, t, i + 1);
        } else if past_ff(d, i) < d.len() {
            assert(e[past_ff(d, i)] == d[past_ff(d, i)]);
            if d[past_ff(d, i)] == 0 {
                lemma_entropy_appended(d, t, past_ff(d, i) + 1);
            }
        } else {
            assert(e[d.len() as int + 1] == 0xD9);
        }
    } else {
        assert(e[i] == 0xFF);
        assert(e[i + 1] == 0xD9);
    }
}

proof fn lemma_markers_appended(d: Seq<u8>, t: Seq<u8>, i: int)
    requires
        0 <= i <= d.len(),
        ends_image(t),
    ensures
        marker_from(d, i) is Some ==> marker_from(d + t, i) == marker_from(d, i),
        marker_from(d, i) is None ==> marker_from(d + t, i) == Some((0xD9u8, d.len() as int + 2)),
        header_from(d, i) is Some ==> header_from(d + t, i) == header_from(d, i),
        header_from(d, i) is None ==> header_from(d + t, i) == Some((0xD9u8, d.len() as int + 2)),
    decreases d.len() - i,
{
    let e = d + t;
    if i < d.len() {
        assert(e[i] == d[i]);
        assert(e[d.len() as int] == 0xFF);
        if i + 1 < d.len() {
            assert(e[i + 1] == d[i + 1]);
        }
        lemma_markers_appended(d, t, i + 1);
    } else {
        assert(e[i] == 0xFF);
        assert(e[i + 1] == 0xD9);
    }
}

/// `p`, with its segment starting at `s` instead.
pub open spec fn moved(p: Progress, s: int) -> Progress {
    Progress { start: s, ..p }
}

/// Blocks depend on the bytes of their segment, not on where they are.
proof fn lemma_blocks_from_bytes(
    sc: Scan,
    d: Seq<u8>,
    e: Seq<u8>,
    p: Progress,
    s: int,
    ci: int,
    mx: int,
    my: int,
    n: int,
)
    requires
        entropy_bytes(d, p.start) == entropy_bytes(e, s),
    ensures
        sc.after_blocks(e, moved(p, s), ci, mx, my, n) == match sc.after_blocks(
            d,
            p,
            ci,
            mx,
            my,
            n,
        ) {
            Some(r) => Some(moved(r, s)),
            None => None,
        },
        sc.after_blocks(d, p, ci, mx, my, n) matches Some(r) ==> r.start == p.start,
    decreases n,
{
    if n > 0 {
        lemma_blocks_from_bytes(sc, d, e, p, s, ci, mx, my, n - 1);
    }
}

proof fn lemma_components_from_bytes(
    sc: Scan,
    d: Seq<u8>,
    e: Seq<u8>,
    p: Progress,
    s: int,
    mx: int,
    my: int,
    n: int,
)
    requires
        entropy_bytes(d, p.start) == entropy_bytes(e, s),
    ensures
        sc.after_components(e, moved(p, s), mx, my, n) == match sc.after_components(
            d,
            p,
            mx,
            my,
            n,
        ) {
            Some(r) => Some(moved(r, s)),
            None => None,
        },
        sc.after_components(d, p, mx, my, n) matches Some(r) ==> r.start == p.start,
    decreases n,
{
    if n > 0 {
        lemma_components_from_bytes(sc, d, e, p, s, mx, my, n - 1);
        if let Some(r) = sc.after_components(d, p, mx, my, n - 1) {
            let ci = sc.list[n - 1];
            lemma_blocks_from_bytes(sc, d, e, r, s, ci, mx, my, sc.across(ci) * sc.down(ci));
        }
    }
}

/// A scan does not read on into an end marker.
proof fn lemma_mcus_appended(sc: Scan, d: Seq<u8>, t: Seq<u8>, p: Progress, m: int)
    requires
        0 <= p.start <= d.len(),
        ends_image(t),
    ensures
        sc.after_mcus(d + t, p, m) == sc.after_mcus(d, p, m),
        sc.after_mcus(d, p, m) matches Some(r) ==> 0 <= r.start <= d.len(),
    decreases m,
{
    if m > 0 {
        lemma_mcus_appended(sc, d, t, p, m - 1);
        if let Some(r) = sc.after_mcus(d, p, m - 1) {
            lemma_markers_appended(d, t, r.start);
            lemma_marker_from(d, r.start);
            assert(sc.before_mcu(d + t, r, m - 1) == sc.before_mcu(d, r, m - 1));
            if let Some(r2) = sc.before_mcu(d, r, m - 1) {
                lemma_entropy_appended(d, t, r2.start);
                lemma_components_from_bytes(
                    sc,
                    d,
                    d + t,
                    r2,
                    r2.start,
                    (m - 1) % sc.mcux(),
                    (m - 1) / sc.mcux(),
                    sc.list.len() as int,
                );
                assert(moved(r2, r2.start) == r2);
                if let Some(r3) = sc.after_mcu(d, r, m - 1) {
                    assert(moved(r3, r2.start) == r3);
                }
            }
        }
    }
}

/// So neither does any segment that ends before it.
proof fn lemma_segment_appended(
    h: Header,
    canvas: Seq<Option<u8>>,
    code: u8,
    seg: Seq<u8>,
    d: Seq<u8>,
    t: Seq<u8>,
    pos: int,
)
    requires
        0 <= pos <= d.len(),
        ends_image(t),
    ensures
        after_segment(h, canvas, code, seg, d + t, pos) == after_segment(
            h,
            canvas,
            code,
            seg,
            d,
            pos,
        ),
{
    if code == 0xDA {
        if let Some((g, list)) = scan_header(h, seg) {
            let sc = Scan { header: g, list };
            lemma_mcus_appended(sc, d, t, at_start(pos, canvas), sc.mcux() * sc.mcuy());
        }
    }
}

proof fn lemma_segments_appended(
    h: Header,
    canvas: Seq<Option<u8>>,
    d: Seq<u8>,
    t: Seq<u8>,
    pos: int,
)
    requires
        0 <= pos <= d.len(),
        ends_image(t),
    ensures
        after_segments(h, canvas, d, pos) is Ok ==> after_segments(h, canvas, d + t, pos)
            == after_segments(h, canvas, d, pos),
    decreases d.len() - pos,
{
    let e = d + t;
    lemma_header_bounds(d, pos);
    lemma_markers_appended(d, t, pos);
    if after_segments(h, canvas, d, pos) is Ok {
        if let Some((code, p)) = header_from(d, pos) {
            if code != 0xD9 {
                assert(e[p] == d[p] && e[p + 1] == d[p + 1]);
                let q = p + be16_at(d, p);
                let seg = d.subrange(p + 2, q);
                assert(e.subrange(p + 2, q) =~= seg);
                lemma_segment_appended(h, canvas, code, seg, d, t, q);
                let (g, c) = after_segment(h, canvas, code, seg, d, q).unwrap();
                lemma_segments_appended(g, c, d, t, q);
            }
        }
    }
}

/// A missing end marker changes nothing, and neither does anything after the end marker: a
/// file that decodes still decodes to the same image when an end marker, and whatever may
/// come behind it, is appended.
pub proof fn lemma_end_marker_optional(d: Seq<u8>, t: Seq<u8>)
    requires
        ends_image(t),
        decoded(d) is Ok,
    ensures
        decoded(d + t) == decoded(d),
{
    assert((d + t)[0] == d[0] && (d + t)[1] == d[1]);
    lemma_segments_appended(no_header(), blank(), d, t, 2);
}

/// The offset just past the end marker that reading from `pos` on stops at; none if it stops
/// at a fault, or runs out of data.
pub open spec fn end_from(h: Header, canvas: Seq<Option<u8>>, data: Seq<u8>, pos: int) -> Option<
    int,
>
    decreases data.len() - pos,
    when 0 <= pos
{
    match header_from(data, pos) {
        None => None,
        Some((code, p)) => if code == 0xD9 {
            Some(p)
        } else if code == 0xD8 || p + 2 > data.len() || be16_at(data, p) < 2 || p + be16_at(data, p)
            > data.len() {
            None
        } else {
            proof {
                lemma_header_bounds(data, pos);
            }
            let q = p + be16_at(data, p);
            match after_segment(h, canvas, code, data.subrange(p + 2, q), data, q) {
                Err(_) => None,
                Ok((g, c)) => end_from(g, c, data, q),
            }
        },
    }
}

/// The offset just past the end marker that decoding stops at.
pub open spec fn end_of(data: Seq<u8>) -> Option<int> {
    end_from(no_header(), blank(), data, 2)
}

/// An end marker lies behind where reading starts.
proof fn lemma_end_bounds(h: Header, canvas: Seq<Option<u8>>, data: Seq<u8>, pos: int)
    requires
        0 <= pos,
    ensures
        end_from(h, canvas, data, pos) matches Some(end) ==> pos + 2 <= end <= data.len(),
    decreases data.len() - pos,
{
    lemma_header_bounds(data, pos);
    if let Some((code, p)) = header_from(data, pos) {
        if code != 0xD9 && !(code == 0xD8 || p + 2 > data.len() || be16_at(data, p) < 2 || p
            + be16_at(data, p) > data.len()) {
            let q = p + be16_at(data, p);
            if let Ok((g, c)) = after_segment(
                h,
                canvas,
                code,
                data.subrange(p + 2, q),
                data,
                q,
            ) {
                lemma_end_bounds(g, c, data, q);
            }
        }
    }
}

proof fn lemma_segments_cut(
    h: Header,
    canvas: Seq<Option<u8>>,
    d: Seq<u8>,
    t: Seq<u8>,
    u: Seq<u8>,
    pos: int,
)
    requires
        0 <= pos <= d.len(),
        ends_image(t),
        ends_image(u),
        end_from(h, canvas, d + t, pos) == Some(d.len() as int + 2),
    ensures
        after_segments(h, canvas, d, pos) == after_segments(h, canvas, d + t, pos),
        after_segments(h, canvas, d + u, pos) == after_segments(h, canvas, d + t, pos),
    decreases d.len() - pos,
{
    let (e, g) = (d + t, d + u);
    lemma_header_bounds(d, pos);
    lemma_markers_appended(d, t, pos);
    lemma_markers_appended(d, u, pos);
    if let Some((code, p)) = header_from(d, pos) {
        if code != 0xD9 {
            let q = p + be16_at(e, p);
            let seg = e.subrange(p + 2, q);
            let (h2, c2) = after_segment(h, canvas, code, seg, e, q).unwrap();
            lemma_end_bounds(h2, c2, e, q);
            assert(q <= d.len());
            assert(e[p] == d[p] && e[p + 1] == d[p + 1] && g[p] == d[p] && g[p + 1] == d[p + 1]);
            assert(d.subrange(p + 2, q) =~= seg);
            assert(g.subrange(p + 2, q) =~= seg);
            lemma_segment_appended(h, canvas, code, seg, d, t, q);
            lemma_segment_appended(h, canvas, code, seg, d, u, q);
            lemma_segments_cut(h2, c2, d, t, u, q);
        }
    }
}

/// The end marker that decoding stops at, and whatever comes behind it, makes no difference:
/// without it, or with other bytes behind it, a file decodes to the same.
pub proof fn lemma_end_marker_removed(d: Seq<u8>, t: Seq<u8>, u: Seq<u8>)
    requires
        ends_image(t),
        ends_image(u),
        end_of(d + t) == Some(d.len() as int + 2),
    ensures
        decoded(d) == decoded(d + t),
        decoded(d + u) == decoded(d + t),
{
    lemma_end_bounds(no_header(), blank(), d + t, 2);
    assert((d + t)[0] == d[0] && (d + t)[1] == d[1]);
    assert((d + u)[0] == d[0] && (d + u)[1] == d[1]);
    lemma_segments_cut(no_header(), blank(), d, t, u, 2);
    if d.len() < 4 {
        assert(header_from(d, 2) is None);
    }
}

/// From offset `from` on, `e` holds the same bytes as `d`, `k` later.
pub open spec fn shifted(d: Seq<u8>, e: Seq<u8>, from: int, k: int) -> bool {
    &&& 0 <= from <= d.len()
    &&& 0 <= k
    &&& e.len() == d.len() + k
    &&& forall|i: int| from <= i < d.len() ==> #[trigger] d[i] == e[i + k]
}

proof fn lemma_past_ff_shifted(d: Seq<u8>, e: Seq<u8>, from: int, k: int, i: int)
    requires
        shifted(d, e, from, k),
        from <= i <= d.len(),
    ensures
        past_ff(e, i + k) == past_ff(d, i) + k,
    decreases d.len() - i,
{
    if i < d.len() && d[i] == 0xFF {
        lemma_past_ff_shifted(d, e, from, k, i + 1);
    }
}

proof fn lemma_entropy_shifted(d: Seq<u8>, e: Seq<u8>, from: int, k: int, i: int)
    requires
        shifted(d, e, from, k),
        from <= i <= d.len(),
    ensures
        entropy_bytes(e, i + k) == entropy_bytes(d, i),
    decreases d.len() - i,
{
    if i < d.len() {
        lemma_past_ff(d, i);
        lemma_past_ff_shifted(d, e, from, k, i);
        let q = past_ff(d, i);
        assert(d[i] == e[i + k]);
        if d[i] != 0xFF {
            lemma_entropy_shifted(d, e, from, k, i + 1);
        } else if q < d.len() {
            assert(d[q] == e[q + k]);
            if d[q] == 0 {
                lemma_entropy_shifted(d, e, from, k, q + 1);
            }
        }
    }
}

/// A marker that was found, `k` later.
pub open spec fn later(m: Option<(u8, int)>, k: int) -> Option<(u8, int)> {
    match m {
        Some((code, end)) => Some((code, end + k)),
        None => None,
    }
}

proof fn lemma_markers_shifted(d: Seq<u8>, e: Seq<u8>, from: int, k: int, i: int)
    requires
        shifted(d, e, from, k),
        from <= i <= d.len(),
    ensures
        marker_from(e, i + k) == later(marker_from(d, i), k),
        header_from(e, i + k) == later(header_from(d, i), k),
    decreases d.len() - i,
{
    if i + 1 < d.len() {
        assert(d[i] == e[i + k] && d[i + 1] == e[i + 1 + k]);
        lemma_markers_shifted(d, e, from, k, i + 1);
    }
}

proof fn lemma_mcus_shifted(
    sc: Scan,
    d: Seq<u8>,
    e: Seq<u8>,
    from: int,
    k: int,
    p: Progress,
    m: int,
)
    requires
        shifted(d, e, from, k),
        from <= p.start <= d.len(),
    ensures
        sc.after_mcus(e, moved(p, p.start + k), m) == match sc.after_mcus(d, p, m) {
            Some(r) => Some(moved(r, r.start + k)),
            None => None,
        },
        sc.after_mcus(d, p, m) matches Some(r) ==> from <= r.start <= d.len(),
    decreases m,
{
    if m > 0 {
        lemma_mcus_shifted(sc, d, e, from, k, p, m - 1);
        if let Some(r) = sc.after_mcus(d, p, m - 1) {
            lemma_markers_shifted(d, e, from, k, r.start);
            lemma_marker_from(d, r.start);
            let r1 = moved(r, r.start + k);
            assert(sc.before_mcu(e, r1, m - 1) == match sc.before_mcu(d, r, m - 1) {
                Some(r2) => Some(moved(r2, r2.start + k)),
                None => None,
            });
            if let Some(r2) = sc.before_mcu(d, r, m - 1) {
                lemma_entropy_shifted(d, e, from, k, r2.start);
                lemma_components_from_bytes(
                    sc,
                    d,
                    e,
                    r2,
                    r2.start + k,
                    (m - 1) % sc.mcux(),
                    (m - 1) / sc.mcux(),
                    sc.list.len() as int,
                );
            }
        }
    }
}

proof fn lemma_segments_shifted(
    h: Header,
    canvas: Seq<Option<u8>>,
    d: Seq<u8>,
    e: Seq<u8>,
    from: int,
    k: int,
    pos: int,
)
    requires
        shifted(d, e, from, k),
        from <= pos <= d.len(),
    ensures
        after_segments(h, canvas, e, pos + k) == after_segments(h, canvas, d, pos),
    decreases d.len() - pos,
{
    lemma_header_bounds(d, pos);
    lemma_markers_shifted(d, e, from, k, pos);
    if let Some((code, p)) = header_from(d, pos) {
        if code != 0xD9 && code != 0xD8 && p + 2 <= d.len() {
            assert(d[p] == e[p + k] && d[p + 1] == e[p + 1 + k]);
            let q = p + be16_at(d, p);
            if be16_at(d, p) >= 2 && q <= d.len() {
                let seg = d.subrange(p + 2, q);
                assert(e.subrange(p + k + 2, q + k) =~= seg) by {
                    assert forall|i: int| 0 <= i < seg.len() implies seg[i] == e.subrange(
                        p + k + 2,
                        q + k,
                    )[i] by {
                        assert(d[p + 2 + i] == e[p + 2 + i + k]);
                    }
                }
                if code == 0xDA {
                    if let Some((g, list)) = scan_header(h, seg) {
                        let sc = Scan { header: g, list };
                        let p0 = at_start(q, canvas);
                        assert(moved(p0, q + k) == at_start(q + k, canvas));
                        lemma_mcus_shifted(sc, d, e, from, k, p0, sc.mcux() * sc.mcuy());
                    }
                }
                assert(after_segment(h, canvas, code, seg, e, q + k) == after_segment(
                    h,
                    canvas,
                    code,
                    seg,
                    d,
                    q,
                ));
                if let Ok((g, c)) = after_segment(h, canvas, code, seg, d, q) {
                    lemma_segments_shifted(g, c, d, e, from, k, q);
                }
            }
        }
    }
}

/// A segment that decoding takes nothing from: a comment, or one of an application other
/// than JFIF and Adobe.
pub open spec fn is_skipped(code: u8) -> bool {
    code == 0xFE || 0xE0 < code < 0xEE || code == 0xEF
}

/// A comment behind the start marker changes nothing, and neither does a segment of another
/// application, whatever the file holds.
pub proof fn lemma_comment_skipped(code: u8, hi: u8, lo: u8, payload: Seq<u8>, rest: Seq<u8>)
    requires
        is_skipped(code),
        hi * 256 + lo == payload.len() + 2,
    ensures
        decoded(seq![0xFFu8, 0xD8u8, 0xFFu8, code, hi, lo] + payload + rest) == decoded(
            seq![0xFFu8, 0xD8u8] + rest,
        ),
{
    let a = seq![0xFFu8, 0xD8u8] + rest;
    let b = seq![0xFFu8, 0xD8u8, 0xFFu8, code, hi, lo] + payload + rest;
    let k = payload.len() as int + 4;
    assert(b[0] == 0xFF && b[1] == 0xD8 && b[2] == 0xFF && b[3] == code && b[4] == hi && b[5] == lo);
    assert forall|i: int| 2 <= i < a.len() implies #[trigger] a[i] == b[i + k] by {}
    assert(is_marker(b, 2));
    assert(header_from(b, 2) == Some((code, 4int)));
    assert(after_segments(no_header(), blank(), b, 2) == after_segments(
        no_header(),
        blank(),
        b,
        2 + k,
    ));
    lemma_segments_shifted(no_header(), blank(), a, b, 2, k, 2);
    if a.len() < 4 {
        assert(header_from(a, 2) is None);
    }
}

/// `s` with a zero stuffed behind every FF.
pub open spec fn stuffed(s: Seq<u8>) -> Seq<u8>
    decreases s.len(),
{
    if s.len() == 0 {
        Seq::empty()
    } else if s[0] == 0xFF {
        seq![0xFFu8, 0u8] + stuffed(s.skip(1))
    } else {
        seq![s[0]] + stuffed(s.skip(1))
    }
}

/// Reading undoes stuffing, wherever it starts.
pub proof fn lemma_unstuffed_at(d: Seq<u8>, i: int, s: Seq<u8>, t: Seq<u8>)
    requires
        0 <= i <= d.len(),
        d.skip(i) == stuffed(s) + t,
        t.len() == 0 || is_marker(t, 0),
    ensures
        entropy_bytes(d, i) == s,
    decreases s.len(),
{
    let rest = d.skip(i);
    lemma_past_ff(d, i);
    if s.len() == 0 {
        assert(rest =~= t);
        if t.len() > 0 {
            assert(d[i] == rest[0] && d[i + 1] == rest[1]);
            assert(past_ff(d, i + 1) == i + 1);
            assert(past_ff(d, i) == i + 1);
        }
        assert(entropy_bytes(d, i) =~= s);
    } else if s[0] == 0xFF {
        assert(d[i] == rest[0] && d[i + 1] == rest[1]);
        assert(past_ff(d, i + 1) == i + 1);
        assert(past_ff(d, i) == i + 1);
        assert(d.skip(i + 2) =~= rest.skip(2));
        assert(rest.skip(2) =~= stuffed(s.skip(1)) + t);
        lemma_unstuffed_at(d, i + 2, s.skip(1), t);
        assert(s =~= seq![0xFFu8] + s.skip(1));
    } else {
        assert(d[i] == rest[0]);
        assert(d.skip(i + 1) =~= rest.skip(1));
        assert(rest.skip(1) =~= stuffed(s.skip(1)) + t);
        lemma_unstuffed_at(d, i + 1, s.skip(1), t);
        assert(s =~= seq![s[0]] + s.skip(1));
    }
}

/// Reading undoes stuffing: any bytes, stuffed, with a marker or the end of the data behind
/// them, are read back.
pub proof fn lemma_stuffing_round_trip(s: Seq<u8>, t: Seq<u8>)
    requires
        t.len() == 0 || is_marker(t, 0),
    ensures
        entropy_bytes(stuffed(s) + t, 0) == s,
{
    let d = stuffed(s) + t;
    assert(d.skip(0) =~= d);
    lemma_unstuffed_at(d, 0, s, t);
}

proof fn lemma_quant_scope(h: Header, s: Seq<u8>)
    ensures
        with_quant(h, s) matches Some(g) ==> g == (Header { qt: g.qt, ..h }),
    decreases s.len(),
{
    if s.len() > 0 {
        let (p, t) = (s[0] as int / 16, s[0] as int % 16);
        let n = if p == 0 {
            64int
        } else {
            128
        };
        if !(p > 1 || t > 3 || s.len() < 1 + n) {
            lemma_quant_scope(
                Header { qt: h.qt.update(t, Some(quant_table(s, p))), ..h },
                s.skip(1 + n),
            );
        }
    }
}

proof fn lemma_huff_scope(h: Header, s: Seq<u8>)
    ensures
        with_huff(h, s) matches Some(g) ==> g == (Header { dc: g.dc, ac: g.ac, ..h }),
    decreases s.len(),
{
    if s.len() > 0 {
        let (class, t) = (s[0] as int / 16, s[0] as int % 16);
        let n = (Table { counts: s.subrange(1, 17), vals: Seq::empty() }).first_index(17);
        if !(class > 1 || t > 3 || s.len() < 17 || !(0 <= n <= 256) || s.len() < 17 + n) {
            let table = huff_table(s);
            lemma_huff_scope(Header { dc: h.dc.update(t, Some(table)), ..h }, s.skip(17 + n));
            lemma_huff_scope(Header { ac: h.ac.update(t, Some(table)), ..h }, s.skip(17 + n));
        }
    }
}

/// A segment changes what it is about, and nothing else: a quantization segment (DB) the
/// quantization tables, a Huffman segment (C4) the Huffman tables, a restart segment (DD) the
/// interval, a frame header (C0, C1) the components, a scan (DA) its components and what is
/// painted, and application segments (E0, EE) what they say of colors. All others change
/// nothing. Frames of other kinds are refused as such.
pub proof fn lemma_segment_scope(
    h: Header,
    canvas: Seq<Option<u8>>,
    code: u8,
    seg: Seq<u8>,
    data: Seq<u8>,
    pos: int,
)
    requires
        h.wf(),
    ensures
        after_segment(h, canvas, code, seg, data, pos) matches Ok((g, c)) ==> {
            &&& code != 0xDB ==> g.qt == h.qt
            &&& code != 0xC4 ==> g.dc == h.dc && g.ac == h.ac
            &&& code != 0xDD ==> g.restart == h.restart
            &&& code != 0xC0 && code != 0xC1 && code != 0xDA ==> g.comps == h.comps
            &&& code == 0xDA ==> same_frame(g, h)
            &&& code != 0xDA ==> c == canvas
            &&& code != 0xE0 ==> g.jfif == h.jfif
            &&& code != 0xEE ==> g.adobe == h.adobe
        },
        code == 0xC2 || code == 0xC3 || code == 0xC5 || code == 0xC6 || code == 0xC7 || code == 0xC9
            || code == 0xCA || code == 0xCB || code == 0xCD || code == 0xCE || code == 0xCF
            ==> after_segment(h, canvas, code, seg, data, pos) == Err::<
            (Header, Seq<Option<u8>>),
            Error,
        >(Error::Unsupported),
{
    lemma_quant_scope(h, seg);
    lemma_huff_scope(h, seg);
    if code == 0xDA {
        if let Some((g, list)) = scan_header(h, seg) {
            lemma_select(h, seg, seg[0] as int);
            lemma_select_keeps(h, seg, seg[0] as int);
        }
    }
}

proof fn lemma_select_keeps(h: Header, s: Seq<u8>, n: int)
    ensures
        select(h, s, n) matches Some((g, list)) ==> g.jfif == h.jfif && g.adobe == h.adobe,
    decreases n,
{
    if n > 0 {
        lemma_select_keeps(h, s, n - 1);
    }
}

/// A JFIF segment makes three components Y, Cb and Cr. Without one, an Adobe segment decides:
/// transform 0 makes them red, green and blue. Without that, too, only the ids R, G and B do.
pub proof fn lemma_color_choice(h: Header)
    ensures
        h.jfif ==> !h.is_rgb(),
        !h.jfif && h.adobe == Some(0u8) ==> h.is_rgb(),
        !h.jfif && h.adobe is Some && h.adobe != Some(0u8) ==> !h.is_rgb(),
        !h.jfif && h.adobe is None ==> (h.is_rgb() <==> h.comps[0].id == 82 && h.comps[1].id == 71
            && h.comps[2].id == 66),
{
}

/// Pixel (`x`, `y`) of a decoded image is sample (`x`, `y`) of the only component, or the gray
/// value of the three components' samples there, each enlarged as its factors ask.
pub proof fn lemma_image_pixel(data: Seq<u8>, y: int, x: int)
    requires
        decoded(data) is Ok,
        0 <= y < 80,
        0 <= x < 250,
    ensures
        ({
            let img = decoded(data)->Ok_0;
            let (h, c) = after_segments(no_header(), blank(), data, 2)->Ok_0;
            let s = samples(c);
            &&& after_segments(no_header(), blank(), data, 2) is Ok
            &&& img.len() == 20000
            &&& h.comps.len() == 1 ==> img[250 * y + x] == s[256 * y + x]
            &&& h.comps.len() != 1 ==> img[250 * y + x] == gray_of(
                h.is_rgb(),
                enlarged(h.up(0), s.subrange(0, 20480), y, x),
                enlarged(h.up(1), s.subrange(20480, 40960), y, x),
                enlarged(h.up(2), s.subrange(40960, 61440), y, x),
            ) as u8
        }),
{
    let i = 250 * y + x;
    assert(i / 250 == y && i % 250 == x);
}

/// Fill bytes do not count: a second FF before an FF changes nothing.
pub proof fn lemma_fill_byte(b: Seq<u8>)
    requires
        b.len() > 0,
        b[0] == 0xFF,
    ensures
        entropy_bytes(seq![0xFFu8] + b, 0) == entropy_bytes(b, 0),
{
    let d = seq![0xFFu8] + b;
    assert(shifted(b, d, 0, 1)) by {
        assert forall|i: int| 0 <= i < b.len() implies #[trigger] b[i] == d[i + 1] by {}
    }
    lemma_past_ff_shifted(b, d, 0, 1, 0);
    lemma_past_ff(b, 0);
    let q = past_ff(b, 0);
    assert(d[0] == 0xFF);
    assert(past_ff(d, 0) == past_ff(d, 1));
    if q < b.len() {
        assert(d[q + 1] == b[q]);
        lemma_entropy_shifted(b, d, 0, 1, q + 1);
    }
}

/// Past the end of its data a segment reads as zeros: zero bytes behind it change nothing.
pub proof fn lemma_zeros_follow(s: Seq<u8>, zeros: Seq<u8>, k: int, n: int)
    requires
        forall|i: int| 0 <= i < zeros.len() ==> #[trigger] zeros[i] == 0,
    ensures
        bits_at(s + zeros, k, n) == bits_at(s, k, n),
    decreases n,
{
    if n > 0 {
        lemma_zeros_follow(s, zeros, k, n - 1);
        let i = k + n - 1;
        if 0 <= i && i / 8 >= s.len() && i / 8 < (s + zeros).len() {
            let p = pow2((7 - i % 8) as nat) as int;
            vstd::arithmetic::power2::lemma_pow2_pos((7 - i % 8) as nat);
            assert((s + zeros)[i / 8] == 0);
            assert(0int / p == 0) by (nonlinear_arith)
                requires
                    p > 0,
            ;
        }
    }
}

} // verus!
