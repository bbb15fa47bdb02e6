use fastaq_parser::parse_fasta;
use fastaq_parser::parse_fastq;
use fastaq_parser::FastaParser;

/// Splits file content into lines, as a line-by-line reader hands them to
/// the parser: line terminators stripped.
fn lines_of(content: &str) -> Vec<String> {
    content.lines().map(|l| l.to_string()).collect()
}

#[test]
fn test_parse_fasta_basic() {
    let lines = lines_of(">seq1\nACGTACGT\n>seq2\nTTGGCCAA\n");
    let seqs = parse_fasta(&lines);

    assert_eq!(seqs.len(), 2);
    assert_eq!(seqs[0], "ACGTACGT");
    assert_eq!(seqs[1], "TTGGCCAA");
}

#[test]
fn test_parse_fasta_multiline_sequence() {
    let lines = lines_of(">seq1\nACGT\nACGT\n>seq2\nTTGG\nCCAA\n");
    let seqs = parse_fasta(&lines);

    // multi-line sequences should concatenate
    assert_eq!(seqs[0], "ACGTACGT");
    assert_eq!(seqs[1], "TTGGCCAA");
}

#[test]
fn test_parse_fasta_empty_input() {
    let lines: Vec<String> = Vec::new();
    let seqs = parse_fasta(&lines);
    assert_eq!(seqs.len(), 0);
}

#[test]
fn test_parse_fasta_consecutive_headers() {
    // header `a` has no accumulated body to flush, so it emits nothing
    let lines = lines_of(">a\n>b\nACGT\n");
    let seqs = parse_fasta(&lines);
    assert_eq!(seqs.len(), 1);
    assert_eq!(seqs[0], "ACGT");
}

#[test]
fn test_parse_fasta_trailing_record_without_newline() {
    // no header follows the last body line; the end-of-input flush emits it
    let lines = lines_of(">a\nAC\nGT");
    let seqs = parse_fasta(&lines);
    assert_eq!(seqs.len(), 1);
    assert_eq!(seqs[0], "ACGT");
}

#[test]
fn test_parse_fasta_no_header_at_all() {
    // body lines with no header still come out as one sequence at the end
    let lines = lines_of("ACGT\nTTGG\n");
    let seqs = parse_fasta(&lines);
    assert_eq!(seqs.len(), 1);
    assert_eq!(seqs[0], "ACGTTTGG");
}

#[test]
fn test_parse_fasta_blank_and_whitespace_body_lines() {
    // blank lines add nothing; whitespace-only lines concatenate verbatim
    let lines = lines_of(">a\nAC\n\n  \nGT\n");
    let seqs = parse_fasta(&lines);
    assert_eq!(seqs.len(), 1);
    assert_eq!(seqs[0], "AC  GT");
}

#[test]
fn test_parse_fasta_count_matches_emitting_headers() {
    // four headers, of which exactly two are followed by a non-empty body
    let lines = lines_of(">a\n>b\nAC\n>c\n\n>d\nGT\n");
    let seqs = parse_fasta(&lines);
    assert_eq!(seqs.len(), 2);
    assert_eq!(seqs[0], "AC");
    assert_eq!(seqs[1], "GT");
}

#[test]
fn test_parse_fasta_reparse_identical() {
    let content = ">seq1\nAC\nGT\n>seq2\nTT\n";
    let first = parse_fasta(&lines_of(content));
    let second = parse_fasta(&lines_of(content));
    assert_eq!(first, second);
}

#[test]
fn test_parser_streaming_matches_whole_input() {
    let mut parser = FastaParser::new();
    parser.feed_line(">seq1");
    parser.feed_line("ACGT");
    parser.feed_line("ACGT");
    parser.feed_line(">seq2");
    parser.feed_line("TTGG");
    let streamed = parser.finish();

    let whole = parse_fasta(&lines_of(">seq1\nACGT\nACGT\n>seq2\nTTGG\n"));
    assert_eq!(streamed, whole);
    assert_eq!(streamed, vec!["ACGTACGT".to_string(), "TTGG".to_string()]);
}

#[test]
fn test_parse_fastq_returns_empty_on_valid_input() {
    // the FASTQ entry point is a stub: an empty result, not an error
    let lines = lines_of("@seq1\nACGT\n+\nIIII\n");
    let seqs = parse_fastq(&lines);
    assert_eq!(seqs.len(), 0);
}
