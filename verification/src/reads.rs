//! The input as the reads that were made of it. A read yields a line or
//! fails, and a failed read is an error of its own: it is never taken for
//! the end of the input, and it gives no verdict.

use vstd::prelude::*;
use crate::analyser::validate;
use crate::grammar::is_document;
use crate::lexer::{stream, symbol_lines, tokenize};
use crate::lexical::lex;
use crate::symbol::{Symbol, symbols_of};
use crate::token::token_types;

verus! {

/// What one read of the input yielded: a line with its terminator, an empty
/// line at the end of the input, or a failure.
#[derive(Debug, PartialEq, Eq)]
pub enum LineRead {
    Line(std::string::String),
    Failed,
}

/// Why an input has no verdict.
#[derive(Debug, Clone, Copy, PartialEq, Eq, Structural)]
pub enum StreamError {
    /// The read with this index failed.
    ReadFailed(usize),
}

/// Whether the read yielded a line that is not empty.
pub open spec fn yields_line(read: LineRead) -> bool {
    read matches LineRead::Line(text) && text@.len() > 0
}

/// The number of reads, from the first on, that yielded a line that is not
/// empty. The read after them, if there is one, is the end of the input or
/// a failure; no read after that one is ever made.
pub open spec fn lines_read(reads: Seq<LineRead>) -> nat
    decreases reads.len(),
{
    if reads.len() > 0 && yields_line(reads[0]) {
        1 + lines_read(reads.skip(1))
    } else {
        0
    }
}

/// The index of the read that failed, if one did before the end of the
/// input.
pub open spec fn failed_read(reads: Seq<LineRead>) -> Option<int> {
    let n = lines_read(reads) as int;
    if n < reads.len() && reads[n] is Failed {
        Some(n)
    } else {
        None
    }
}

/// The lines that were read before the end of the input, classified.
pub open spec fn lines_of(reads: Seq<LineRead>) -> Seq<Seq<Symbol>> {
    Seq::new(lines_read(reads), |j: int| symbols_of(reads[j]->Line_0@))
}

/// Where the first `n` reads yielded lines and the next did not, `n` lines
/// were read.
pub proof fn lemma_lines_read_is(reads: Seq<LineRead>, n: nat)
    requires
        n <= reads.len(),
        forall|j: int| 0 <= j < n ==> yields_line(#[trigger] reads[j]),
        n < reads.len() ==> !yields_line(reads[n as int]),
    ensures
        lines_read(reads) == n,
    decreases n,
{
    if n > 0 {
        let tail = reads.skip(1);
        assert forall|j: int| 0 <= j < n - 1 implies yields_line(#[trigger] tail[j]) by {
            assert(tail[j] == reads[j + 1]);
        }
        lemma_lines_read_is(tail, (n - 1) as nat);
    }
}

/// The lines that were read before the end of the input, or the failure
/// that came first.
pub fn collect_lines(reads: &Vec<LineRead>) -> (r: Result<Vec<std::string::String>, StreamError>)
    ensures
        match failed_read(reads@) {
            Some(k) => r == Err::<Vec<std::string::String>, StreamError>(
                StreamError::ReadFailed(k as usize),
            ),
            None => r is Ok && symbol_lines(r->Ok_0@) == lines_of(reads@),
        },
{
    let mut lines: Vec<std::string::String> = Vec::new();
    let mut i: usize = 0;
    while i < reads.len()
        invariant
            i <= reads.len(),
            lines.len() == i,
            forall|j: int| 0 <= j < i ==> yields_line(#[trigger] reads[j]),
            forall|j: int| 0 <= j < i ==> (#[trigger] lines[j])@ == reads[j]->Line_0@,
        decreases reads.len() - i,
    {
        match &reads[i] {
            LineRead::Failed => {
                proof {
                    lemma_lines_read_is(reads@, i as nat);
                }
                return Err(StreamError::ReadFailed(i));
            },
            LineRead::Line(text) => {
                if text.as_str().is_empty() {
                    proof {
                        lemma_lines_read_is(reads@, i as nat);
                        assert(symbol_lines(lines@) =~= lines_of(reads@));
                    }
                    return Ok(lines);
                }
                lines.push(text.clone());
            },
        }
        i += 1;
    }
    proof {
        lemma_lines_read_is(reads@, i as nat);
        assert(symbol_lines(lines@) =~= lines_of(reads@));
    }
    Ok(lines)
}

/// Validates an input of which the reads are given: the verdict on the
/// lines that were read, or the failure where a read failed.
pub fn validate_reads(reads: &Vec<LineRead>) -> (r: Result<bool, StreamError>)
    ensures
        match failed_read(reads@) {
            Some(k) => r == Err::<bool, StreamError>(StreamError::ReadFailed(k as usize)),
            None => r == Ok::<bool, StreamError>(
                is_document(token_types(lex(stream(lines_of(reads@))))),
            ),
        },
{
    match collect_lines(reads) {
        Err(error) => Err(error),
        Ok(lines) => Ok(validate(tokenize(lines))),
    }
}

} // verus!
