use vstd::prelude::*;

use crate::segments::LINE_BREAK;

verus! {

/// Index of the first byte at or after `i` that is not a line break
/// (the length of `s` when only line breaks follow).
pub open spec fn skip_breaks(s: Seq<u8>, i: int) -> int
    decreases s.len() - i,
{
    if 0 <= i < s.len() && s[i] == LINE_BREAK {
        skip_breaks(s, i + 1)
    } else {
        i
    }
}

/// Index just past the first `delimiter` at or after `i`, or the length of
/// `s` when no delimiter follows.
pub open spec fn segment_end(s: Seq<u8>, i: int, delimiter: u8) -> int
    decreases s.len() - i,
{
    if i >= s.len() {
        s.len() as int
    } else if s[i] == delimiter {
        i + 1
    } else {
        segment_end(s, i + 1, delimiter)
    }
}

/// `s` with every line-break byte removed.
pub open spec fn strip_breaks(s: Seq<u8>) -> Seq<u8>
    decreases s.len(),
{
    if s.len() == 0 {
        seq![]
    } else if s.last() == LINE_BREAK {
        strip_breaks(s.drop_last())
    } else {
        strip_breaks(s.drop_last()).push(s.last())
    }
}

/// The canonical form of a segment as found in a document: its line breaks
/// removed, a terminating delimiter kept.
pub open spec fn canonical_segment(raw: Seq<u8>, delimiter: u8) -> Seq<u8> {
    if raw.len() > 0 && raw.last() == delimiter {
        strip_breaks(raw.drop_last()).push(delimiter)
    } else {
        strip_breaks(raw)
    }
}

/// The canonical segments of `s` from index `i` on: line breaks before a
/// segment are passed over, and each segment runs up to and including the
/// next delimiter, or to the end of `s`.
pub open spec fn segments(s: Seq<u8>, i: int, delimiter: u8) -> Seq<Seq<u8>>
    decreases s.len() - i,
    via segments_decreases
{
    let j = skip_breaks(s, i);
    if i < 0 || j >= s.len() {
        seq![]
    } else {
        let e = segment_end(s, j, delimiter);
        seq![canonical_segment(s.subrange(j, e), delimiter)] + segments(s, e, delimiter)
    }
}

#[via_fn]
proof fn segments_decreases(s: Seq<u8>, i: int, delimiter: u8) {
    if 0 <= i <= s.len() {
        lemma_skip_breaks(s, i);
        let j = skip_breaks(s, i);
        if j < s.len() {
            lemma_segment_end(s, j, delimiter);
        }
    } else if i > s.len() {
        assert(skip_breaks(s, i) == i);
    }
}

/// Each segment followed by one line break, in order.
pub open spec fn lines(segs: Seq<Seq<u8>>) -> Seq<u8>
    decreases segs.len(),
{
    if segs.len() == 0 {
        seq![]
    } else {
        segs[0] + seq![LINE_BREAK] + lines(segs.drop_first())
    }
}

/// `skip_breaks` passes over line breaks only, and stops at the first other byte.
pub proof fn lemma_skip_breaks(s: Seq<u8>, i: int)
    requires
        0 <= i <= s.len(),
    ensures
        i <= skip_breaks(s, i) <= s.len(),
        forall|k: int| i <= k < skip_breaks(s, i) ==> s[k] == LINE_BREAK,
        skip_breaks(s, i) < s.len() ==> s[skip_breaks(s, i)] != LINE_BREAK,
    decreases s.len() - i,
{
    if i < s.len() && s[i] == LINE_BREAK {
        lemma_skip_breaks(s, i + 1);
    }
}

/// A segment is not empty and ends at its first delimiter, or at the end of
/// `s` when no delimiter follows.
pub proof fn lemma_segment_end(s: Seq<u8>, i: int, delimiter: u8)
    requires
        0 <= i < s.len(),
    ensures
        i < segment_end(s, i, delimiter) <= s.len(),
        forall|k: int| i <= k < segment_end(s, i, delimiter) - 1 ==> s[k] != delimiter,
        s[segment_end(s, i, delimiter) - 1] == delimiter || forall|k: int|
            i <= k < s.len() ==> s[k] != delimiter,
        s[segment_end(s, i, delimiter) - 1] != delimiter ==> segment_end(s, i, delimiter) == s.len(),
    decreases s.len() - i,
{
    if s[i] != delimiter {
        if i + 1 < s.len() {
            lemma_segment_end(s, i + 1, delimiter);
        } else {
            assert(segment_end(s, i + 1, delimiter) == s.len());
        }
    }
}

/// `strip_breaks` leaves no line break, adds nothing, keeps a first byte that
/// is not a line break, and changes nothing where there is no line break.
pub proof fn lemma_strip_breaks(s: Seq<u8>, delimiter: u8)
    ensures
        strip_breaks(s).len() <= s.len(),
        forall|k: int| 0 <= k < strip_breaks(s).len() ==> strip_breaks(s)[k] != LINE_BREAK,
        (forall|k: int| 0 <= k < s.len() ==> s[k] != delimiter) ==> forall|k: int|
            0 <= k < strip_breaks(s).len() ==> strip_breaks(s)[k] != delimiter,
        s.len() > 0 && s[0] != LINE_BREAK ==> strip_breaks(s).len() > 0 && strip_breaks(s)[0]
            == s[0],
        (forall|k: int| 0 <= k < s.len() ==> s[k] != LINE_BREAK) ==> strip_breaks(s) == s,
    decreases s.len(),
{
    if s.len() > 0 {
        let p = s.drop_last();
        lemma_strip_breaks(p, delimiter);
        assert(forall|k: int| 0 <= k < p.len() ==> p[k] == s[k]);
        if s.len() > 1 {
            assert(p[0] == s[0]);
        }
        assert(p.push(s.last()) =~= s);
    }
}

/// Returns the index of the first byte at or after `pos` that is not a line
/// break, or the length of `input` when only line breaks follow.
pub fn skip_over_line_breaks(input: &[u8], pos: usize) -> (r: usize)
    requires
        pos <= input@.len(),
    ensures
        r == skip_breaks(input@, pos as int),
{
    let mut i: usize = pos;
    while i < input.len() && input[i] == LINE_BREAK
        invariant
            pos <= i <= input@.len(),
            skip_breaks(input@, i as int) == skip_breaks(input@, pos as int),
        decreases input@.len() - i,
    {
        i = i + 1;
    }
    i
}


/// A forward-only cursor that hands out the segments of a document one at a
/// time, in canonical form.
pub struct SegmentSplitter<'a> {
    input: &'a [u8],
    pos: usize,
    delimiter: u8,
}

impl<'a> SegmentSplitter<'a> {
    /// The document being split.
    pub closed spec fn input(&self) -> Seq<u8> {
        self.input@
    }

    /// The index of the next byte to read.
    pub closed spec fn pos(&self) -> int {
        self.pos as int
    }

    /// The byte that terminates a segment.
    pub closed spec fn delimiter(&self) -> u8 {
        self.delimiter
    }

    /// The position lies within the document.
    pub closed spec fn wf(&self) -> bool {
        self.pos <= self.input@.len()
    }

    /// The segments still to come.
    pub open spec fn remaining(&self) -> Seq<Seq<u8>> {
        segments(self.input(), self.pos(), self.delimiter())
    }

    /// A splitter over `input` that starts reading at `start`.
    pub fn new(input: &'a [u8], start: usize, delimiter: u8) -> (r: Self)
        requires
            start <= input@.len(),
        ensures
            r.wf(),
            r.input() == input@,
            r.pos() == start,
            r.delimiter() == delimiter,
    {
        SegmentSplitter { input, pos: start, delimiter }
    }

    /// Passes over line breaks, then returns the next segment in canonical
    /// form, or `None` once the document is used up.
    pub fn next_segment(&mut self) -> (r: Option<Vec<u8>>)
        requires
            old(self).wf(),
        ensures
            final(self).wf(),
            final(self).input() == old(self).input(),
            final(self).delimiter() == old(self).delimiter(),
            match r {
                None => old(self).remaining() == Seq::<Seq<u8>>::empty(),
                Some(seg) => old(self).remaining() == seq![seg@] + final(self).remaining(),
            },
    {
        let ghost s = self.input@;
        let ghost d = self.delimiter;
        let j = skip_over_line_breaks(self.input, self.pos);
        proof {
            lemma_skip_breaks(s, self.pos as int);
        }
        if j >= self.input.len() {
            self.pos = j;
            return None;
        }
        proof {
            lemma_segment_end(s, j as int, d);
        }
        let mut seg: Vec<u8> = Vec::new();
        let mut k: usize = j;
        while k < self.input.len() && self.input[k] != self.delimiter
            invariant
                s == self.input@,
                d == self.delimiter,
                j < s.len(),
                j <= k <= s.len(),
                seg@ == strip_breaks(s.subrange(j as int, k as int)),
                forall|t: int| j <= t < k ==> s[t] != d,
                segment_end(s, k as int, d) == segment_end(s, j as int, d),
            decreases s.len() - k,
        {
            if self.input[k] != LINE_BREAK {
                seg.push(self.input[k]);
            }
            assert(s.subrange(j as int, k + 1).drop_last() =~= s.subrange(j as int, k as int));
            k = k + 1;
        }
        let e: usize;
        if k < self.input.len() {
            seg.push(self.delimiter);
            e = k + 1;
            assert(s.subrange(j as int, e as int).drop_last() =~= s.subrange(j as int, k as int));
        } else {
            e = k;
        }
        self.pos = e;
        Some(seg)
    }
}

} // verus!
