use edi_format::formatter::{plan_write_back, WriteBack};
use edi_format::segments::FormatError;
use edi_format::splitter::{skip_over_line_breaks, SegmentSplitter};

const VALID_NOT_FORMATTED: &[u8] = b"UNA:+.? 'UNB+IATB:1+6XPPC:ZZ+LHPPC:ZZ+940101:0950+1'UNH+1+PAORES:93:1:IA'MSG+1:45'IFT+3+XYZCOMPANY AVAILABILITY'ERC+A7V:1:AMD'IFT+3+NO MORE FLIGHTS'ODI'TVL+240493:1000::1220+FRA+JFK+DL+400+C'PDI++C:3+Y::3+F::1'APD+74C:0:::6++++++6X'TVL+240493:1740::2030+JFK+MIA+DL+081+C'PDI++C:4'APD+EM2:0:1630::6+++++++DA'UNT+13+1'UNZ+1+1'";

const VALID_FORMATTED: &[u8] = b"UNA:+.? '
UNB+IATB:1+6XPPC:ZZ+LHPPC:ZZ+940101:0950+1'
UNH+1+PAORES:93:1:IA'
MSG+1:45'
IFT+3+XYZCOMPANY AVAILABILITY'
ERC+A7V:1:AMD'
IFT+3+NO MORE FLIGHTS'
ODI'
TVL+240493:1000::1220+FRA+JFK+DL+400+C'
PDI++C:3+Y::3+F::1'
APD+74C:0:::6++++++6X'
TVL+240493:1740::2030+JFK+MIA+DL+081+C'
PDI++C:4'
APD+EM2:0:1630::6+++++++DA'
UNT+13+1'
UNZ+1+1'
";

fn formatted(input: &[u8]) -> Vec<u8> {
    edi_format::formatter::format(input).unwrap().output
}

fn count_byte(s: &[u8], b: u8) -> usize {
    s.iter().filter(|&&x| x == b).count()
}

#[test]
fn formatted_content() {
    let test_input = VALID_NOT_FORMATTED;
    let test_output = VALID_FORMATTED;

    let buf = formatted(test_input);

    assert_eq!(
        test_output,
        &buf[..],
        r#"expected: "{}", actual: "{}""#,
        String::from_utf8_lossy(test_output),
        String::from_utf8_lossy(&buf),
    );
}

#[test]
fn formatted_content_twice() {
    let test_input = VALID_FORMATTED;

    let buf = formatted(test_input);

    assert_eq!(
        test_input,
        &buf[..],
        r#"expected: "{}", actual: "{}""#,
        String::from_utf8_lossy(test_input),
        String::from_utf8_lossy(&buf),
    );
}

#[test]
fn packed_example_end_to_end() {
    let input = b"UNA:+.? 'UNB+IATB:1+...'UNH+1+...'";
    let first = edi_format::formatter::format(input).unwrap();
    assert_eq!(first.output, b"UNA:+.? '\nUNB+IATB:1+...'\nUNH+1+...'\n".to_vec());
    assert!(first.changed);
    let second = edi_format::formatter::format(&first.output).unwrap();
    assert_eq!(second.output, first.output);
    assert!(!second.changed);
}

#[test]
fn formatting_is_idempotent_on_noisy_input() {
    let inputs: [&[u8]; 5] = [
        b"UNA:+.? '\n\n\nA+1'\n\n\nB+2:\n3'C'",
        b"UNA:+.? 'A\n'\n'B\nC\n",
        b"UNA*|,!_~X|1~\n\nY|2~\nZ",
        b"UNA:+.? '",
        b"UNA:+.? '\n\n",
    ];
    for input in inputs {
        let once = formatted(input);
        let twice = edi_format::formatter::format(&once).unwrap();
        assert_eq!(twice.output, once);
        assert!(!twice.changed);
    }
}

#[test]
fn header_bytes_are_preserved() {
    let input = b"UNA*|,!_~X|1~Y|2~";
    let out = formatted(input);
    assert_eq!(&out[..9], &input[..9]);
    assert_eq!(out[9], b'\n');
}

#[test]
fn header_marker_is_written_literally() {
    let out = formatted(b"XYZ:+.? 'A'");
    assert_eq!(out, b"UNA:+.? '\nA'\n".to_vec());
}

#[test]
fn segment_count_is_preserved() {
    let input = b"UNA:+.? 'A'\n\nB+1'\nC''D";
    let out = formatted(input);
    assert_eq!(count_byte(&input[9..], b'\''), 4);
    assert_eq!(count_byte(&out[9..], b'\''), 4);
    assert_eq!(out, b"UNA:+.? '\nA'\nB+1'\nC'\n'\nD\n".to_vec());
}

#[test]
fn canonical_input_is_unchanged() {
    let input = b"UNA:+.? '\nA+1'\nB+2'\nC\n";
    let result = edi_format::formatter::format(input).unwrap();
    assert_eq!(result.output, input.to_vec());
    assert!(!result.changed);
}

#[test]
fn short_input_is_truncated_header() {
    for n in 0..9 {
        let input = &b"UNA:+.? 'A'"[..n];
        assert!(matches!(edi_format::formatter::format(input), Err(FormatError::TruncatedHeader)));
    }
}

#[test]
fn header_only_document() {
    let result = edi_format::formatter::format(b"UNA:+.? '").unwrap();
    assert_eq!(result.output, b"UNA:+.? '\n".to_vec());
    assert!(result.changed);
}

#[test]
fn interior_line_breaks_are_removed() {
    let out = formatted(b"UNA:+.? 'AB\nC+\n1'\nD'");
    assert_eq!(out, b"UNA:+.? '\nABC+1'\nD'\n".to_vec());
}

#[test]
fn trailing_fragment_is_kept() {
    let out = formatted(b"UNA:+.? 'A'B+1\n");
    assert_eq!(out, b"UNA:+.? '\nA'\nB+1\n".to_vec());
}

#[test]
fn declared_delimiter_is_used() {
    let out = formatted(b"UNA:+.? ~A'B~C'D~");
    assert_eq!(out, b"UNA:+.? ~\nA'B~\nC'D~\n".to_vec());
}

#[test]
fn escape_character_does_not_protect_delimiter() {
    let out = formatted(b"UNA:+.? 'A?'B'");
    assert_eq!(out, b"UNA:+.? '\nA?'\nB'\n".to_vec());
}

#[test]
fn line_break_delimiter_keeps_lines() {
    let input = b"UNA:+.? \nA\n\nB\n";
    let result = edi_format::formatter::format(input).unwrap();
    assert_eq!(result.output, b"UNA:+.? \n\nA\n\nB\n\n".to_vec());
    assert_eq!(edi_format::formatter::format(&result.output).unwrap().output, result.output);
}

#[test]
fn skip_line_breaks_stops_at_other_byte() {
    let input = b"ab\n\n\ncd";
    assert_eq!(skip_over_line_breaks(input, 2), 5);
    assert_eq!(skip_over_line_breaks(input, 0), 0);
    assert_eq!(skip_over_line_breaks(b"\n\n", 0), 2);
    assert_eq!(skip_over_line_breaks(b"", 0), 0);
}

#[test]
fn splitter_yields_canonical_segments() {
    let input = b"\nA'\n\nB\n'C";
    let mut splitter = SegmentSplitter::new(input, 0, b'\'');
    assert_eq!(splitter.next_segment(), Some(b"A'".to_vec()));
    assert_eq!(splitter.next_segment(), Some(b"B'".to_vec()));
    assert_eq!(splitter.next_segment(), Some(b"C".to_vec()));
    assert_eq!(splitter.next_segment(), None);
    assert_eq!(splitter.next_segment(), None);
}

#[test]
fn write_back_follows_dry_run_and_change() {
    assert_eq!(plan_write_back(true, true), WriteBack::Display);
    assert_eq!(plan_write_back(true, false), WriteBack::Display);
    assert_eq!(plan_write_back(false, true), WriteBack::Replace);
    assert_eq!(plan_write_back(false, false), WriteBack::Skip);
}
