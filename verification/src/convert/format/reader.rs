//! Reading a whole document.

use super::document::{Document, DocumentModel};
use super::lines::{line_number, line_of};
use super::scanner::{finished, stepped, Error, ErrorModel, Scanner, ScannerModel};
use super::xml::{
    handed, next_event, offset, open_reader, position, unread, xml_events, Event, EventModel,
    StepModel,
};
use crate::convert::numeric::{pure_numerics, Numerics};
use vstd::prelude::*;
use vstd::string::StringSliceAdditionalSpecFns;

verus! {

/// A failure and the line of the document that it is reported for.
#[derive(Debug)]
pub struct Failed {
    pub err: Error,
    pub line: usize,
}

/// The state after what a reader has handed out, or the first failure with
/// its line: a failure of the reader itself, or an event that the state
/// machine refuses. The line is that of the offset that the reader had come
/// to with the failure.
pub open spec fn read_outcome<N: Numerics>(n: &N, bytes: Seq<u8>, steps: Seq<StepModel>) -> Result<
    ScannerModel,
    (ErrorModel, int),
>
    decreases steps.len(),
{
    if steps.len() == 0 {
        Ok(ScannerModel::start())
    } else {
        match read_outcome(n, bytes, steps.drop_last()) {
            Err(failed) => Err(failed),
            Ok(s) => {
                let line = line_of(bytes, steps.last().1 as int);
                match steps.last().0 {
                    Err(message) => Err((ErrorModel::XmlError(message), line)),
                    Ok(event) => match stepped(n, s, event) {
                        Ok(next) => Ok(next),
                        Err(e) => Err((e, line)),
                    },
                }
            },
        }
    }
}

/// The document that a text gives when its reader hands out the steps
/// `steps` and then reports the end, or the first failure with its line. A
/// text that ends inside an element fails at its end, that is, on the line
/// of the offset behind its last byte.
pub open spec fn document_of<N: Numerics>(n: &N, bytes: Seq<u8>, steps: Seq<StepModel>) -> Result<
    DocumentModel,
    (ErrorModel, int),
> {
    match read_outcome(n, bytes, steps) {
        Err(failed) => Err(failed),
        Ok(s) => match finished(s) {
            Ok(doc) => Ok(doc),
            Err(e) => Err((e, line_of(bytes, bytes.len() as int))),
        },
    }
}

/// A text that ends while an element is open gives no document: it fails
/// on the line of its end.
pub proof fn lemma_open_element_fails<N: Numerics>(n: &N, bytes: Seq<u8>, steps: Seq<StepModel>)
    requires
        read_outcome(n, bytes, steps) is Ok,
        read_outcome(n, bytes, steps)->Ok_0.has_top(),
    ensures
        document_of(n, bytes, steps) is Err,
        document_of(n, bytes, steps)->Err_0.0 is UnexpectedEof,
        document_of(n, bytes, steps)->Err_0.1 == line_of(bytes, bytes.len() as int),
{
}

/// `r` is what reading comes to after the steps `steps`.
pub open spec fn is_read<N: Numerics>(
    n: &N,
    bytes: Seq<u8>,
    steps: Seq<StepModel>,
    r: Result<Document, Failed>,
) -> bool {
    match document_of(n, bytes, steps) {
        Ok(doc) => r is Ok && r->Ok_0@ == doc,
        Err((e, line)) => r is Err && r->Err_0.err@ == e && r->Err_0.line == line,
    }
}

/// A failure among the first steps is the failure of all of them.
proof fn lemma_read_fails<N: Numerics>(n: &N, bytes: Seq<u8>, steps: Seq<StepModel>, k: int)
    requires
        0 <= k <= steps.len(),
        read_outcome(n, bytes, steps.take(k)) is Err,
    ensures
        read_outcome(n, bytes, steps) == read_outcome(n, bytes, steps.take(k)),
    decreases steps.len() - k,
{
    if k == steps.len() {
        assert(steps.take(k) =~= steps);
    } else {
        assert(steps.take(k + 1).drop_last() =~= steps.take(k));
        lemma_read_fails(n, bytes, steps, k + 1);
    }
}

/// Reads a document in one pass over its events.
///
/// The events are those that the XML reader hands out for `src`. Each goes
/// through the state machine of [`Scanner`]; the document is what the state
/// holds when the reader reports the end of the text. The first failure, of
/// the XML reader or of the state machine, ends the pass and is reported
/// with the line of the offset that the XML reader had come to; nothing of
/// the document is returned then. A text that ends while an element is open
/// fails too, with the line of its end.
pub fn read<N: Numerics>(src: &str, n: &N) -> (r: Result<Document, Failed>)
    requires
        pure_numerics(n),
        src.spec_bytes().len() < usize::MAX,
    ensures
        is_read(n, src.spec_bytes(), xml_events(src@), r),
{
    let mut reader = open_reader(src);
    let mut scanner = Scanner::new();
    let ghost all = xml_events(src@);
    let ghost bytes = src.spec_bytes();
    let ghost mut k: int = 0;
    proof {
        assert(all.skip(0) =~= all);
        assert(all.take(0) =~= Seq::empty());
    }
    loop
        invariant
            pure_numerics(n),
            bytes == src.spec_bytes(),
            bytes.len() < usize::MAX,
            all == xml_events(src@),
            0 <= k <= all.len(),
            unread(reader) == all.skip(k),
            read_outcome(n, bytes, all.take(k)) == Ok::<ScannerModel, (ErrorModel, int)>(scanner@),
        decreases all.len() - k,
    {
        let next = next_event(&mut reader);
        proof {
            if !(next matches Ok(Event::Eof)) {
                assert(all.skip(k)[0] == all[k]);
                assert(all.skip(k).skip(1) =~= all.skip(k + 1));
                assert(all.take(k + 1).drop_last() =~= all.take(k));
                assert(all.take(k + 1).last() == all[k]);
            }
        }
        let event = match next {
            Ok(event) => event,
            Err(message) => {
                proof {
                    lemma_read_fails(n, bytes, all, k + 1);
                }
                return Err(failed_at(src, &reader, Error::XmlError(message)));
            },
        };
        if let Event::Eof = event {
            proof {
                assert(all.take(k) =~= all);
            }
            return match scanner.finish() {
                Ok(doc) => Ok(doc),
                Err(err) => {
                    let line = line_number(src.as_bytes(), src.len());
                    Err(Failed { err, line })
                },
            };
        }
        match scanner.step(&event, n) {
            Ok(next) => {
                scanner = next;
                proof {
                    k = k + 1;
                }
            },
            Err(err) => {
                proof {
                    lemma_read_fails(n, bytes, all, k + 1);
                }
                return Err(failed_at(src, &reader, err));
            },
        }
    }
}

/// The failure `err`, reported for the line that the reader has come to.
fn failed_at(src: &str, reader: &quick_xml::Reader<&[u8]>, err: Error) -> (r: Failed)
    requires
        src.spec_bytes().len() < usize::MAX,
    ensures
        r.err == err,
        r.line == line_of(src.spec_bytes(), offset(*reader) as int),
{
    let pos = position(reader);
    let line = line_number(src.as_bytes(), pos);
    Failed { err, line }
}

} // verus!
