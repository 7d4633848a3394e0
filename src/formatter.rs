use vstd::prelude::*;

use crate::segments::{descriptor_of, FormatError, HEADER_LEN, LINE_BREAK, UNA};
use crate::splitter::{lines, segments, SegmentSplitter};

verus! {

/// The canonical form of a document of at least nine bytes: the marker `UNA`
/// and the six declared bytes on a line of their own, then each segment in
/// canonical form on a line of its own.
pub open spec fn formatted(s: Seq<u8>) -> Seq<u8>
    recommends
        s.len() >= 9,
{
    descriptor_of(s).header_bytes() + seq![LINE_BREAK] + lines(segments(s, 9, s[8]))
}

/// The result of a formatting pass.
pub struct FormatOutcome {
    /// The document in canonical form.
    pub output: Vec<u8>,
    /// Whether `output` differs from the input, byte for byte.
    pub changed: bool,
}

/// What becomes of the formatted output of a file.
#[derive(Debug, PartialEq, Eq, Structural)]
pub enum WriteBack {
    /// Show the output and leave the file alone.
    Display,
    /// Replace the file by the output.
    Replace,
    /// The file is already canonical: leave it alone.
    Skip,
}

/// Whether two byte strings are equal.
fn bytes_equal(a: &[u8], b: &[u8]) -> (r: bool)
    ensures
        r == (a@ == b@),
{
    if a.len() != b.len() {
        return false;
    }
    let mut i: usize = 0;
    while i < a.len()
        invariant
            a@.len() == b@.len(),
            i <= a@.len(),
            forall|k: int| 0 <= k < i ==> a@[k] == b@[k],
        decreases a@.len() - i,
    {
        if a[i] != b[i] {
            return false;
        }
        i = i + 1;
    }
    assert(a@ =~= b@);
    true
}

/// Formats a whole document: the header as declared, then one segment per
/// line. Fails when the document is shorter than its header.
pub fn format(input: &[u8]) -> (r: Result<FormatOutcome, FormatError>)
    ensures
        input@.len() < 9 <==> r is Err,
        r is Err ==> r->Err_0 == FormatError::TruncatedHeader,
        r is Ok ==> r->Ok_0.output@ == formatted(input@),
        r is Ok ==> r->Ok_0.changed == (formatted(input@) != input@),
{
    let una = match UNA::from(input) {
        Ok(una) => una,
        Err(e) => {
            return Err(e);
        },
    };
    let mut output: Vec<u8> = Vec::new();
    una.write_to(&mut output);
    output.push(LINE_BREAK);
    let mut splitter = SegmentSplitter::new(input, HEADER_LEN, una.segment_delimiter);
    loop
        invariant_except_break
            splitter.wf(),
            splitter.input() == input@,
            splitter.delimiter() == input@[8],
            input@.len() >= 9,
            output@ + lines(splitter.remaining()) == formatted(input@),
        ensures
            output@ == formatted(input@),
        decreases splitter.remaining().len(),
    {
        let ghost before = splitter.remaining();
        match splitter.next_segment() {
            None => {
                assert(output@ =~= formatted(input@));
                break;
            },
            Some(mut seg) => {
                let ghost after = splitter.remaining();
                assert((seq![seg@] + after).drop_first() =~= after);
                assert(output@ + lines(before) =~= output@ + seg@ + seq![LINE_BREAK] + lines(
                    after,
                ));
                output.append(&mut seg);
                output.push(LINE_BREAK);
                assert(output@ + lines(after) =~= formatted(input@));
            },
        }
    }
    let changed = !bytes_equal(output.as_slice(), input);
    Ok(FormatOutcome { output, changed })
}

/// Decides what becomes of a formatted file: a dry run only shows the output,
/// and a file is replaced only when formatting changed it.
pub fn plan_write_back(dry_run: bool, changed: bool) -> (r: WriteBack)
    ensures
        dry_run ==> r == WriteBack::Display,
        !dry_run && changed ==> r == WriteBack::Replace,
        !dry_run && !changed ==> r == WriteBack::Skip,
{
    if dry_run {
        WriteBack::Display
    } else if changed {
        WriteBack::Replace
    } else {
        WriteBack::Skip
    }
}

} // verus!
