use vstd::prelude::*;

verus! {

/// Number of bytes in the service-string-advice header.
pub const HEADER_LEN: usize = 9;

/// The line-break byte placed after the header and after each segment.
pub const LINE_BREAK: u8 = 10;

/// Errors that end a formatting pass.
#[derive(Debug, PartialEq, Eq, Structural)]
pub enum FormatError {
    /// The document holds fewer bytes than the header needs.
    TruncatedHeader,
}

/// The service-string-advice descriptor: the six delimiter and marker bytes
/// that a document declares for itself.
#[derive(Debug, PartialEq, Eq, Structural)]
pub struct UNA {
    pub composite_element_delimiter: u8,
    pub data_element_delimiter: u8,
    pub decimal_comma: u8,
    pub escape_character: u8,
    pub reserved_space: u8,
    pub segment_delimiter: u8,
}

/// The literal marker `UNA` that opens a header.
pub open spec fn una_marker() -> Seq<u8> {
    seq![85u8, 78u8, 65u8]
}

/// The descriptor that the header at the start of `s` declares.
pub open spec fn descriptor_of(s: Seq<u8>) -> UNA
    recommends
        s.len() >= 9,
{
    UNA {
        composite_element_delimiter: s[3],
        data_element_delimiter: s[4],
        decimal_comma: s[5],
        escape_character: s[6],
        reserved_space: s[7],
        segment_delimiter: s[8],
    }
}

impl UNA {
    /// The six descriptor bytes in header order.
    pub open spec fn fields(&self) -> Seq<u8> {
        seq![
            self.composite_element_delimiter,
            self.data_element_delimiter,
            self.decimal_comma,
            self.escape_character,
            self.reserved_space,
            self.segment_delimiter,
        ]
    }

    /// The nine header bytes that describe this descriptor.
    pub open spec fn header_bytes(&self) -> Seq<u8> {
        una_marker() + self.fields()
    }

    /// Reads the descriptor from the first nine bytes of `input`. Bytes 3 to 8
    /// are the six fields in order; bytes 0 to 2 are not examined.
    pub fn from(input: &[u8]) -> (r: Result<UNA, FormatError>)
        ensures
            input@.len() < 9 <==> r is Err,
            r is Err ==> r == Err::<UNA, FormatError>(FormatError::TruncatedHeader),
            r is Ok ==> r->Ok_0 == descriptor_of(input@),
    {
        if input.len() < HEADER_LEN {
            return Err(FormatError::TruncatedHeader);
        }
        Ok(UNA {
            composite_element_delimiter: input[3],
            data_element_delimiter: input[4],
            decimal_comma: input[5],
            escape_character: input[6],
            reserved_space: input[7],
            segment_delimiter: input[8],
        })
    }

    /// Appends the header, the marker `UNA` and then the six fields, to `output`.
    pub fn write_to(&self, output: &mut Vec<u8>)
        ensures
            final(output)@ == old(output)@ + self.header_bytes(),
    {
        output.push(85u8);
        output.push(78u8);
        output.push(65u8);
        output.push(self.composite_element_delimiter);
        output.push(self.data_element_delimiter);
        output.push(self.decimal_comma);
        output.push(self.escape_character);
        output.push(self.reserved_space);
        output.push(self.segment_delimiter);
        assert(output@ =~= old(output)@ + self.header_bytes());
    }
}

impl Default for UNA {
    /// The conventional descriptor `:+.? '`.
    fn default() -> (r: Self)
        ensures
            r.composite_element_delimiter == 58u8,
            r.data_element_delimiter == 43u8,
            r.decimal_comma == 46u8,
            r.escape_character == 63u8,
            r.reserved_space == 32u8,
            r.segment_delimiter == 39u8,
    {
        UNA {
            composite_element_delimiter: 58u8,
            data_element_delimiter: 43u8,
            decimal_comma: 46u8,
            escape_character: 63u8,
            reserved_space: 32u8,
            segment_delimiter: 39u8,
        }
    }
}

} // verus!
