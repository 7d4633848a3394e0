use vstd::prelude::*;

use crate::formatter::formatted;
use crate::segments::{descriptor_of, una_marker, LINE_BREAK};
use crate::splitter::{
    canonical_segment, lemma_segment_end, lemma_skip_breaks, lemma_strip_breaks, lines,
    segment_end, segments, skip_breaks, strip_breaks,
};

verus! {

/// A segment in canonical form: not empty, with neither a line break nor the
/// delimiter before its last byte, and a last byte that is the delimiter or
/// not a line break.
pub open spec fn is_canonical_segment(seg: Seq<u8>, delimiter: u8) -> bool {
    &&& seg.len() > 0
    &&& seg[0] != LINE_BREAK
    &&& forall|k: int| 0 <= k < seg.len() - 1 ==> seg[k] != LINE_BREAK && seg[k] != delimiter
    &&& (seg.last() == delimiter || seg.last() != LINE_BREAK)
}

/// Segments in canonical form, each but the last ending in the delimiter; the
/// last one too when the delimiter is itself a line break.
pub open spec fn canonical_segments(segs: Seq<Seq<u8>>, delimiter: u8) -> bool {
    &&& forall|i: int| 0 <= i < segs.len() ==> is_canonical_segment(#[trigger] segs[i], delimiter)
    &&& forall|i: int| 0 <= i < segs.len() - 1 ==> (#[trigger] segs[i]).last() == delimiter
    &&& (segs.len() > 0 && delimiter == LINE_BREAK ==> segs.last().last() == delimiter)
}

/// A document in canonical form: the marker `UNA` and six declared bytes, a
/// line break, then one canonical segment per line with nothing in between.
pub open spec fn is_canonical(s: Seq<u8>) -> bool {
    &&& s.len() >= 10
    &&& s.subrange(0, 3) == una_marker()
    &&& s[9] == LINE_BREAK
    &&& exists|segs: Seq<Seq<u8>>|
        canonical_segments(segs, s[8]) && s == s.subrange(0, 10) + lines(segs)
}

/// How many of `segs` end in the delimiter.
pub open spec fn terminated_count(segs: Seq<Seq<u8>>, delimiter: u8) -> nat
    decreases segs.len(),
{
    if segs.len() == 0 {
        0
    } else {
        (if segs[0].len() > 0 && segs[0].last() == delimiter {
            1nat
        } else {
            0nat
        }) + terminated_count(segs.drop_first(), delimiter)
    }
}

/// The number of delimiter-terminated segments in the body of a document.
pub open spec fn segment_count(s: Seq<u8>) -> nat
    recommends
        s.len() >= 9,
{
    terminated_count(segments(s, 9, s[8]), s[8])
}

/// Whether a document whose delimiter is a line break ends in a fragment
/// that no delimiter closes.
pub open spec fn ends_in_open_line(s: Seq<u8>) -> bool
    recommends
        s.len() >= 9,
{
    s[8] == LINE_BREAK && s.len() > 9 && s.last() != LINE_BREAK
}

/// A line break at `i` does not change which segments follow.
proof fn lemma_segments_after_break(s: Seq<u8>, i: int, delimiter: u8)
    requires
        0 <= i < s.len(),
        s[i] == LINE_BREAK,
    ensures
        segments(s, i, delimiter) == segments(s, i + 1, delimiter),
{
    assert(skip_breaks(s, i) == skip_breaks(s, i + 1));
}

/// Splitting the lines of canonical segments, after any prefix, gives the
/// same segments back.
proof fn lemma_resplit(x: Seq<u8>, segs: Seq<Seq<u8>>, delimiter: u8)
    requires
        canonical_segments(segs, delimiter),
    ensures
        segments(x + lines(segs), x.len() as int, delimiter) == segs,
    decreases segs.len(),
{
    let y = x + lines(segs);
    let n = x.len() as int;
    if segs.len() == 0 {
        assert(y =~= x);
        assert(skip_breaks(y, n) == n);
        assert(segments(y, n, delimiter) =~= segs);
    } else {
        let c = segs[0];
        let rest = segs.drop_first();
        let x2 = x + c + seq![LINE_BREAK];
        assert(y =~= x2 + lines(rest));
        assert forall|i: int| 0 <= i < rest.len() implies is_canonical_segment(
            #[trigger] rest[i],
            delimiter,
        ) by {
            assert(rest[i] == segs[i + 1]);
        }
        assert forall|i: int| 0 <= i < rest.len() - 1 implies (#[trigger] rest[i]).last()
            == delimiter by {
            assert(rest[i] == segs[i + 1]);
        }
        lemma_resplit(x2, rest, delimiter);
        assert(is_canonical_segment(c, delimiter));
        let m = c.len() as int;
        assert(y[n] == c[0]);
        assert(skip_breaks(y, n) == n);
        assert(forall|k: int| 0 <= k < m ==> y[n + k] == c[k]);
        assert(y[n + m] == LINE_BREAK);
        lemma_segment_end(y, n, delimiter);
        let e = segment_end(y, n, delimiter);
        if c.last() == delimiter {
            assert(y[n + m - 1] == delimiter);
            if e < n + m {
                assert(y[e - 1] != delimiter);
            }
            assert(e == n + m);
            assert(y.subrange(n, e) =~= c);
            lemma_strip_breaks(c.drop_last(), delimiter);
            assert(c.drop_last().push(delimiter) =~= c);
            assert(canonical_segment(c, delimiter) == c);
            lemma_segments_after_break(y, n + m, delimiter);
            assert(x2.len() == n + m + 1);
        } else {
            assert(delimiter != LINE_BREAK);
            assert(rest.len() == 0);
            assert(y.len() == n + m + 1);
            assert(forall|k: int| n <= k < y.len() ==> y[k] != delimiter);
            assert(e == y.len());
            let raw = y.subrange(n, e);
            assert(raw =~= c.push(LINE_BREAK));
            assert(raw.drop_last() =~= c);
            lemma_strip_breaks(c, delimiter);
            assert(canonical_segment(raw, delimiter) == c);
            assert(skip_breaks(y, e) == e);
            assert(segments(y, e, delimiter) =~= Seq::<Seq<u8>>::empty());
        }
        assert(segments(y, n, delimiter) =~= seq![c] + rest);
        assert(seq![c] + rest =~= segs);
    }
}

/// The segments that the splitter finds are canonical, unless the delimiter
/// is a line break and the document ends in an open line.
proof fn lemma_segments_canonical(s: Seq<u8>, i: int, delimiter: u8)
    requires
        0 <= i <= s.len(),
        delimiter != LINE_BREAK || i == s.len() || s.last() == LINE_BREAK,
    ensures
        canonical_segments(segments(s, i, delimiter), delimiter),
    decreases s.len() - i,
{
    lemma_skip_breaks(s, i);
    let j = skip_breaks(s, i);
    if j < s.len() {
        lemma_segment_end(s, j, delimiter);
        let e = segment_end(s, j, delimiter);
        let raw = s.subrange(j, e);
        let c = canonical_segment(raw, delimiter);
        let rest = segments(s, e, delimiter);
        lemma_segments_canonical(s, e, delimiter);
        if s[e - 1] == delimiter {
            let body = raw.drop_last();
            assert(raw.last() == delimiter);
            assert(forall|k: int| 0 <= k < body.len() ==> body[k] == s[j + k]);
            lemma_strip_breaks(body, delimiter);
            let sb = strip_breaks(body);
            assert(c == sb.push(delimiter));
            if body.len() == 0 {
                assert(c[0] == s[j]);
            } else {
                assert(c[0] == sb[0]);
            }
            assert(is_canonical_segment(c, delimiter));
        } else {
            assert(e == s.len());
            assert(s.last() != LINE_BREAK || delimiter != LINE_BREAK);
            assert(forall|k: int| 0 <= k < raw.len() ==> raw[k] == s[j + k]);
            assert(raw.last() != delimiter);
            lemma_strip_breaks(raw, delimiter);
            assert(skip_breaks(s, e) == e);
            assert(rest =~= Seq::<Seq<u8>>::empty());
            assert(is_canonical_segment(c, delimiter));
        }
        let segs = segments(s, i, delimiter);
        assert(segs =~= seq![c] + rest);
        assert forall|k: int| 0 <= k < segs.len() implies is_canonical_segment(
            #[trigger] segs[k],
            delimiter,
        ) by {
            if k > 0 {
                assert(segs[k] == rest[k - 1]);
            }
        }
        assert forall|k: int| 0 <= k < segs.len() - 1 implies (#[trigger] segs[k]).last()
            == delimiter by {
            if k > 0 {
                assert(segs[k] == rest[k - 1]);
            }
        }
    } else {
        assert(segments(s, i, delimiter) =~= Seq::<Seq<u8>>::empty());
    }
}

/// Formatting a document keeps its delimiter and, unless it ends in an open
/// line, the segments that the splitter finds.
proof fn lemma_resegment(d: Seq<u8>)
    requires
        d.len() >= 9,
        !ends_in_open_line(d),
    ensures
        formatted(d).len() >= 10,
        formatted(d).subrange(3, 9) == d.subrange(3, 9),
        segments(formatted(d), 9, d[8]) == segments(d, 9, d[8]),
{
    let segs = segments(d, 9, d[8]);
    lemma_segments_canonical(d, 9, d[8]);
    let x = descriptor_of(d).header_bytes() + seq![LINE_BREAK];
    lemma_resplit(x, segs, d[8]);
    let f = formatted(d);
    assert(f =~= x + lines(segs));
    assert(f.subrange(3, 9) =~= d.subrange(3, 9));
    lemma_segments_after_break(f, 9, d[8]);
}

/// Formatting is idempotent: formatting a formatted document gives it back
/// byte for byte. The one exception is a document whose delimiter is a line
/// break and which ends in a line that no delimiter closes.
pub proof fn lemma_format_idempotent(d: Seq<u8>)
    requires
        d.len() >= 9,
        !ends_in_open_line(d),
    ensures
        formatted(formatted(d)) == formatted(d),
{
    lemma_resegment(d);
    let f = formatted(d);
    assert(f[8] == d[8]);
    assert(descriptor_of(f) == descriptor_of(d));
}

/// The nine header bytes come through formatting unchanged when they open
/// with the marker `UNA`.
pub proof fn lemma_header_preserved(d: Seq<u8>)
    requires
        d.len() >= 9,
        d.subrange(0, 3) == una_marker(),
    ensures
        formatted(d).subrange(0, 9) == d.subrange(0, 9),
{
    assert(formatted(d).subrange(0, 9) =~= d.subrange(0, 9));
}

/// Formatting neither creates nor destroys delimiter-terminated segments.
/// The one exception is a document whose delimiter is a line break and which
/// ends in a line that no delimiter closes.
pub proof fn lemma_segment_count_preserved(d: Seq<u8>)
    requires
        d.len() >= 9,
        !ends_in_open_line(d),
    ensures
        segment_count(formatted(d)) == segment_count(d),
{
    lemma_resegment(d);
    assert(formatted(d)[8] == d[8]);
}

/// A document already in canonical form is its own formatted form, so
/// formatting it reports no change.
pub proof fn lemma_canonical_unchanged(d: Seq<u8>)
    requires
        is_canonical(d),
    ensures
        formatted(d) == d,
{
    let segs = choose|segs: Seq<Seq<u8>>|
        canonical_segments(segs, d[8]) && d == d.subrange(0, 10) + lines(segs);
    let x = d.subrange(0, 10);
    lemma_resplit(x, segs, d[8]);
    lemma_segments_after_break(d, 9, d[8]);
    assert(descriptor_of(d).header_bytes() + seq![LINE_BREAK] =~= x);
}

} // verus!
