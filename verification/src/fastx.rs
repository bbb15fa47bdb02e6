//! The FASTA record parser: a line-driven accumulator state machine.
//!
//! A FASTA input is a sequence of text lines. A line whose first character
//! is `>` is a header line; every other line (including an empty one) is a
//! body line. The body lines between one header and the next (or the end of
//! the input) are concatenated, without separators, into one sequence
//! string. An empty accumulated body produces no output entry.

use vstd::prelude::*;

verus! {

/// A line is a header when its first character is `>`.
pub open spec fn is_header(line: Seq<char>) -> bool {
    line.len() > 0 && line[0] == '>'
}

/// One step of the state machine. The state `st` is the body accumulated so
/// far for the current record, paired with the sequences already emitted in
/// input order. A header line flushes a non-empty accumulator; a body line
/// (blank lines included) is appended to the accumulator verbatim.
pub open spec fn parse_step(st: (Seq<char>, Seq<Seq<char>>), line: Seq<char>) -> (Seq<char>, Seq<
    Seq<char>,
>) {
    if is_header(line) {
        if st.0.len() > 0 {
            (Seq::<char>::empty(), st.1.push(st.0))
        } else {
            (st.0, st.1)
        }
    } else {
        (st.0 + line, st.1)
    }
}

/// Runs the state machine over `lines`, front to back, starting from `st`.
pub open spec fn parse_lines_from(
    st: (Seq<char>, Seq<Seq<char>>),
    lines: Seq<Seq<char>>,
) -> (Seq<char>, Seq<Seq<char>>)
    decreases lines.len(),
{
    if lines.len() == 0 {
        st
    } else {
        parse_lines_from(parse_step(st, lines[0]), lines.subrange(1, lines.len() as int))
    }
}

/// The end-of-input flush: a non-empty accumulator becomes the final sequence.
pub open spec fn flush(st: (Seq<char>, Seq<Seq<char>>)) -> Seq<Seq<char>> {
    if st.0.len() > 0 {
        st.1.push(st.0)
    } else {
        st.1
    }
}

/// The sequences extracted from a FASTA input given as its lines
/// (line terminators excluded).
pub open spec fn fasta_sequences(lines: Seq<Seq<char>>) -> Seq<Seq<char>> {
    flush(parse_lines_from((Seq::<char>::empty(), Seq::<Seq<char>>::empty()), lines))
}

/// The views of a list of lines or of extracted sequences.
pub open spec fn views_of(strings: Seq<String>) -> Seq<Seq<char>> {
    strings.map_values(|s: String| s@)
}

/// Decides whether a line is a header line.
fn line_is_header(line: &str) -> (b: bool)
    ensures
        b == is_header(line@),
{
    if line.unicode_len() == 0 {
        false
    } else {
        line.get_char(0) == '>'
    }
}

/// The streaming FASTA parser: feed it one line at a time, in input order,
/// then call `finish` to obtain the extracted sequences.
pub struct FastaParser {
    seq: String,
    seqs: Vec<String>,
}

impl FastaParser {
    /// The body accumulated so far for the current record.
    pub closed spec fn acc(&self) -> Seq<char> {
        self.seq@
    }

    /// The sequences emitted so far, in input order.
    pub closed spec fn emitted(&self) -> Seq<Seq<char>> {
        views_of(self.seqs@)
    }

    /// A fresh parser: empty accumulator, nothing emitted.
    pub fn new() -> (p: Self)
        ensures
            p.acc() == Seq::<char>::empty(),
            p.emitted() == Seq::<Seq<char>>::empty(),
    {
        let p = FastaParser { seq: String::new(), seqs: Vec::new() };
        proof {
            assert(p.emitted() =~= Seq::<Seq<char>>::empty());
        }
        p
    }

    /// Consumes one input line (without its line terminator) and advances
    /// the state machine by one step.
    pub fn feed_line(&mut self, line: &str)
        ensures
            final (self).acc() == parse_step((old(self).acc(), old(self).emitted()), line@).0,
            final (self).emitted() == parse_step((old(self).acc(), old(self).emitted()), line@).1,
    {
        if line_is_header(line) {
            if !self.seq.as_str().is_empty() {
                self.seqs.push(self.seq.clone());
                self.seq = String::new();
                proof {
                    assert(self.emitted() =~= old(self).emitted().push(old(self).acc()));
                }
            }
        } else {
            self.seq.append(line);
        }
    }

    /// Ends the input: flushes a non-empty accumulator as the final
    /// sequence and returns all extracted sequences, in input order.
    pub fn finish(self) -> (r: Vec<String>)
        ensures
            views_of(r@) == flush((self.acc(), self.emitted())),
    {
        let mut seqs = self.seqs;
        if !self.seq.as_str().is_empty() {
            let ghost prev = seqs@;
            seqs.push(self.seq);
            proof {
                assert(views_of(seqs@) =~= views_of(prev).push(self.seq@));
            }
        }
        seqs
    }
}

/// Processing the lines from position `i` onward is one step on line `i`
/// followed by processing the lines from position `i + 1` onward.
proof fn lemma_parse_lines_from_unfold(st: (Seq<char>, Seq<Seq<char>>), lines: Seq<Seq<char>>, i: int)
    requires
        0 <= i < lines.len(),
    ensures
        parse_lines_from(st, lines.subrange(i, lines.len() as int)) == parse_lines_from(
            parse_step(st, lines[i]),
            lines.subrange(i + 1, lines.len() as int),
        ),
{
    let rest = lines.subrange(i, lines.len() as int);
    assert(rest[0] == lines[i]);
    assert(rest.subrange(1, rest.len() as int) =~= lines.subrange(i + 1, lines.len() as int));
}

/// Extracts the sequences from a FASTA input given as its list of lines
/// (line terminators excluded).
pub fn parse_fasta(lines: &Vec<String>) -> (r: Vec<String>)
    ensures
        views_of(r@) == fasta_sequences(views_of(lines@)),
{
    let ghost all = views_of(lines@);
    let ghost start = (Seq::<char>::empty(), Seq::<Seq<char>>::empty());
    let mut parser = FastaParser::new();
    let mut i: usize = 0;
    proof {
        assert(all.subrange(0, all.len() as int) =~= all);
    }
    while i < lines.len()
        invariant
            i <= lines.len(),
            all == views_of(lines@),
            parse_lines_from((parser.acc(), parser.emitted()), all.subrange(i as int, all.len() as int))
                == parse_lines_from(start, all),
        decreases lines.len() - i,
    {
        proof {
            lemma_parse_lines_from_unfold((parser.acc(), parser.emitted()), all, i as int);
        }
        parser.feed_line(lines[i].as_str());
        i += 1;
    }
    proof {
        assert(all.subrange(all.len() as int, all.len() as int) =~= Seq::<Seq<char>>::empty());
    }
    parser.finish()
}

/// Extracts the sequences from a FASTQ input. Not yet implemented: it reads
/// nothing and returns an empty list for every input, rather than an error.
pub fn parse_fastq(lines: &Vec<String>) -> (r: Vec<String>)
    ensures
        r@ == Seq::<String>::empty(),
{
    Vec::new()
}

/// The concatenation, in order, of a list of lines, with no separators.
pub open spec fn concat_lines(lines: Seq<Seq<char>>) -> Seq<char>
    decreases lines.len(),
{
    if lines.len() == 0 {
        Seq::<char>::empty()
    } else {
        lines[0] + concat_lines(lines.subrange(1, lines.len() as int))
    }
}

/// The concatenation of the body lines that precede the first header line.
pub open spec fn leading_body(lines: Seq<Seq<char>>) -> Seq<char>
    decreases lines.len(),
{
    if lines.len() == 0 {
        Seq::<char>::empty()
    } else if is_header(lines[0]) {
        Seq::<char>::empty()
    } else {
        lines[0] + leading_body(lines.subrange(1, lines.len() as int))
    }
}

/// The number of header lines that are followed, before the next header
/// line or the end of the input, by a non-empty accumulated body.
pub open spec fn emitting_headers(lines: Seq<Seq<char>>) -> nat
    decreases lines.len(),
{
    if lines.len() == 0 {
        0
    } else {
        let rest = lines.subrange(1, lines.len() as int);
        if is_header(lines[0]) {
            (if leading_body(rest).len() > 0 {
                1nat
            } else {
                0nat
            }) + emitting_headers(rest)
        } else {
            emitting_headers(rest)
        }
    }
}

/// Sequences already emitted are carried through unchanged: running the
/// state machine only appends to them, whatever the remaining lines hold.
proof fn lemma_emitted_frame(acc: Seq<char>, seqs: Seq<Seq<char>>, lines: Seq<Seq<char>>)
    ensures
        parse_lines_from((acc, seqs), lines).0 == parse_lines_from(
            (acc, Seq::<Seq<char>>::empty()),
            lines,
        ).0,
        parse_lines_from((acc, seqs), lines).1 == seqs + parse_lines_from(
            (acc, Seq::<Seq<char>>::empty()),
            lines,
        ).1,
    decreases lines.len(),
{
    let none = Seq::<Seq<char>>::empty();
    if lines.len() == 0 {
        assert(seqs + none =~= seqs);
    } else {
        let rest = lines.subrange(1, lines.len() as int);
        let st1 = parse_step((acc, seqs), lines[0]);
        let st1e = parse_step((acc, none), lines[0]);
        assert(st1.1 =~= seqs + st1e.1);
        lemma_emitted_frame(st1.0, st1.1, rest);
        lemma_emitted_frame(st1e.0, st1e.1, rest);
        assert((seqs + st1e.1) + parse_lines_from((st1.0, none), rest).1 =~= seqs + (st1e.1
            + parse_lines_from((st1.0, none), rest).1));
    }
}

/// A run of body lines is absorbed into the accumulator as its
/// concatenation, emitting nothing.
proof fn lemma_bodies_absorbed(
    acc: Seq<char>,
    seqs: Seq<Seq<char>>,
    bodies: Seq<Seq<char>>,
    rest: Seq<Seq<char>>,
)
    requires
        forall|i: int| 0 <= i < bodies.len() ==> !is_header(bodies[i]),
    ensures
        parse_lines_from((acc, seqs), bodies + rest) == parse_lines_from(
            (acc + concat_lines(bodies), seqs),
            rest,
        ),
    decreases bodies.len(),
{
    if bodies.len() == 0 {
        assert(bodies + rest =~= rest);
        assert(acc + concat_lines(bodies) =~= acc);
    } else {
        let tail = bodies.subrange(1, bodies.len() as int);
        assert((bodies + rest)[0] == bodies[0]);
        assert(!is_header(bodies[0]));
        assert((bodies + rest).subrange(1, (bodies + rest).len() as int) =~= tail + rest);
        lemma_bodies_absorbed(acc + bodies[0], seqs, tail, rest);
        assert((acc + bodies[0]) + concat_lines(tail) =~= acc + concat_lines(bodies));
    }
}

/// Concatenation order is preserved: a record whose body lines accumulate
/// to a non-empty body contributes exactly the concatenation of those body
/// lines, in file order and with no separators, ahead of whatever the rest
/// of the input contributes.
pub proof fn lemma_record_concatenation(
    header: Seq<char>,
    bodies: Seq<Seq<char>>,
    rest: Seq<Seq<char>>,
)
    requires
        is_header(header),
        forall|i: int| 0 <= i < bodies.len() ==> !is_header(bodies[i]),
        concat_lines(bodies).len() > 0,
        rest.len() > 0 ==> is_header(rest[0]),
    ensures
        fasta_sequences(seq![header] + bodies + rest) == seq![concat_lines(bodies)]
            + fasta_sequences(rest),
{
    let no_acc = Seq::<char>::empty();
    let none = Seq::<Seq<char>>::empty();
    let body = concat_lines(bodies);
    let full = seq![header] + bodies + rest;
    assert(full[0] == header);
    assert(full.subrange(1, full.len() as int) =~= bodies + rest);
    assert(parse_step((no_acc, none), header) == (no_acc, none));
    lemma_bodies_absorbed(no_acc, none, bodies, rest);
    assert(no_acc + body =~= body);
    if rest.len() == 0 {
        assert(parse_lines_from((body, none), rest) == (body, none));
        assert(none.push(body) =~= seq![body] + fasta_sequences(rest));
    } else {
        let tail = rest.subrange(1, rest.len() as int);
        assert(parse_step((body, none), rest[0]) == (no_acc, none.push(body)));
        assert(parse_step((no_acc, none), rest[0]) == (no_acc, none));
        lemma_emitted_frame(no_acc, none.push(body), tail);
        lemma_emitted_frame(no_acc, none, tail);
        let after = parse_lines_from((no_acc, none), tail);
        assert(none + after.1 =~= after.1);
        assert(parse_lines_from((no_acc, none), rest) == after);
        assert(parse_lines_from((body, none), rest) == (after.0, none.push(body) + after.1));
        if after.0.len() > 0 {
            assert((none.push(body) + after.1).push(after.0) =~= seq![body] + after.1.push(
                after.0,
            ));
        } else {
            assert(none.push(body) + after.1 =~= seq![body] + after.1);
        }
    }
}

/// The number of sequences the state machine still emits, started with
/// accumulator `acc` on the remaining `lines`, the end-of-input flush
/// included.
spec fn flush_count(acc: Seq<char>, lines: Seq<Seq<char>>) -> nat
    decreases lines.len(),
{
    if lines.len() == 0 {
        if acc.len() > 0 {
            1nat
        } else {
            0nat
        }
    } else {
        let rest = lines.subrange(1, lines.len() as int);
        if is_header(lines[0]) {
            (if acc.len() > 0 {
                1nat
            } else {
                0nat
            }) + flush_count(Seq::<char>::empty(), rest)
        } else {
            flush_count(acc + lines[0], rest)
        }
    }
}

/// The flushed result grows over the already emitted sequences by exactly
/// `flush_count` entries.
proof fn lemma_flush_count_run(acc: Seq<char>, seqs: Seq<Seq<char>>, lines: Seq<Seq<char>>)
    ensures
        flush(parse_lines_from((acc, seqs), lines)).len() == seqs.len() + flush_count(acc, lines),
    decreases lines.len(),
{
    if lines.len() == 0 {
    } else {
        let rest = lines.subrange(1, lines.len() as int);
        let st1 = parse_step((acc, seqs), lines[0]);
        if is_header(lines[0]) && acc.len() == 0 {
            assert(acc =~= Seq::<char>::empty());
        }
        lemma_flush_count_run(st1.0, st1.1, rest);
    }
}

/// `flush_count` splits into the fate of the segment the accumulator opens
/// and the emitting headers among the remaining lines.
proof fn lemma_flush_count_segments(acc: Seq<char>, lines: Seq<Seq<char>>)
    ensures
        flush_count(acc, lines) == (if acc.len() + leading_body(lines).len() > 0 {
            1nat
        } else {
            0nat
        }) + emitting_headers(lines),
    decreases lines.len(),
{
    if lines.len() == 0 {
    } else {
        let rest = lines.subrange(1, lines.len() as int);
        if is_header(lines[0]) {
            lemma_flush_count_segments(Seq::<char>::empty(), rest);
        } else {
            lemma_flush_count_segments(acc + lines[0], rest);
        }
    }
}

/// The number of extracted sequences equals the number of header lines that
/// are followed, before the next header line or the end of the input, by a
/// non-empty accumulated body. This holds whenever the body lines before
/// the first header line accumulate to nothing (in particular for every
/// input that is empty or starts with a header line); body content before
/// the first header is flushed as a sequence of its own that no header
/// accounts for.
pub proof fn lemma_sequence_count(lines: Seq<Seq<char>>)
    requires
        leading_body(lines).len() == 0,
    ensures
        fasta_sequences(lines).len() == emitting_headers(lines),
{
    lemma_flush_count_run(Seq::<char>::empty(), Seq::<Seq<char>>::empty(), lines);
    lemma_flush_count_segments(Seq::<char>::empty(), lines);
}

/// Parsing the same line content twice yields identical result lists.
pub proof fn lemma_reparse_idempotent(lines1: Seq<Seq<char>>, lines2: Seq<Seq<char>>)
    requires
        lines1 == lines2,
    ensures
        fasta_sequences(lines1) == fasta_sequences(lines2),
{
}

/// An empty input yields an empty result list.
pub proof fn lemma_empty_input()
    ensures
        fasta_sequences(Seq::<Seq<char>>::empty()) == Seq::<Seq<char>>::empty(),
{
}

} // verus!
