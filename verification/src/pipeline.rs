//! The decision logic of the three-stage streaming pipeline.
//!
//! The pipeline proper runs outside the library: a producer thread reads
//! decompressed lines, a decode thread turns them into triple text, and a
//! writer thread buffers and writes the text out, joined by a
//! capacity-bounded queue (producer to decoder) and an unbounded one
//! (decoder to writer). Everything those threads decide is here: which
//! lines are forwarded, what one line decodes to, and when a full queue
//! must block the producer.

use vstd::prelude::*;
use vstd::string::*;
use crate::index::PageIndex;
use crate::links::Link;
use crate::links::LinkError;
use crate::links::link_from_sql_spec;
use crate::links::link_rdf_spec;
use crate::pages::Page;
use crate::pages::PageError;
use crate::pages::PageView;
use crate::pages::page_from_sql_spec;
use crate::pages::page_rdf_spec;
use crate::sql::InsertParser;
use crate::sql::lex_line;

verus! {

/// `p` is a prefix of `s`.
pub open spec fn has_prefix(s: Seq<char>, p: Seq<char>) -> bool {
    p.len() <= s.len() && s.subrange(0, p.len() as int) == p
}

/// Whether the producer forwards this line: only lines opening with
/// `INSERT INTO` carry value rows.
pub fn is_insert_line(line: &str) -> (r: bool)
    ensures
        r == has_prefix(line@, "INSERT INTO"@),
{
    let pat = "INSERT INTO";
    proof {
        reveal_strlit("INSERT INTO");
    }
    let n = line.unicode_len();
    if n < 11 {
        return false;
    }
    let mut j: usize = 0;
    while j < 11
        invariant
            j <= 11,
            11 <= line@.len(),
            pat@ == "INSERT INTO"@,
            pat@.len() == 11,
            forall|k: int| 0 <= k < j ==> line@[k] == pat@[k],
        decreases 11 - j,
    {
        if line.get_char(j) != pat.get_char(j) {
            proof {
                assert(line@.subrange(0, 11)[j as int] != pat@[j as int]);
            }
            return false;
        }
        j += 1;
    }
    proof {
        assert(line@.subrange(0, 11) =~= pat@);
    }
    true
}

/// One read attempt of the producer, as the library sees it.
pub enum ReadEvent {
    /// A line came in.
    Line(String),
    /// The read failed.
    ReadFailure,
    /// The input is exhausted.
    Exhausted,
}

/// What the producer does next.
pub enum ProducerAction {
    /// Push this line onto the bounded queue (blocking while it is full).
    Forward(String),
    /// Drop the event and read on.
    Skip,
    /// Stop and surface the read failure.
    Abort,
    /// Close the queue: the input has ended.
    Finish,
}

/// The producer's decision for one read event: matching lines are
/// forwarded, others are skipped; a read failure aborts the run unless
/// the ignore-errors mode is on, in which case it is skipped.
pub fn producer_step(ev: ReadEvent, ignore_errors: bool) -> (a: ProducerAction)
    ensures
        match ev {
            ReadEvent::Line(l) => {
                if has_prefix(l@, "INSERT INTO"@) {
                    a matches ProducerAction::Forward(f) && f@ == l@
                } else {
                    a is Skip
                }
            },
            ReadEvent::ReadFailure => {
                if ignore_errors {
                    a is Skip
                } else {
                    a is Abort
                }
            },
            ReadEvent::Exhausted => a is Finish,
        },
{
    match ev {
        ReadEvent::Line(l) => {
            if is_insert_line(l.as_str()) {
                ProducerAction::Forward(l)
            } else {
                ProducerAction::Skip
            }
        },
        ReadEvent::ReadFailure => {
            if ignore_errors {
                ProducerAction::Skip
            } else {
                ProducerAction::Abort
            }
        },
        ReadEvent::Exhausted => ProducerAction::Finish,
    }
}

// ---------------------------------------------------------------------------
// The decode stage, one line at a time
// ---------------------------------------------------------------------------

/// What the decode stage makes of the rows of one `page` dump line: the
/// serialized triples of every well-formed row, in row order (rows of
/// other namespaces are skipped in encyclopedia-only mode), up to the
/// first schema error, which ends the run.
pub open spec fn page_stage_spec(rows: Seq<Seq<Seq<char>>>, encyclopedia: bool) -> (
    Seq<Seq<char>>,
    Option<PageError>,
)
    decreases rows.len(),
{
    if rows.len() == 0 {
        (seq![], None)
    } else {
        match page_from_sql_spec(rows[0]) {
            Err(e) => (seq![], Some(e)),
            Ok(p) => {
                let rest = page_stage_spec(rows.drop_first(), encyclopedia);
                if encyclopedia && p.namespace != 0 {
                    rest
                } else {
                    (seq![page_rdf_spec(p)] + rest.0, rest.1)
                }
            },
        }
    }
}

/// Decode one `page` dump line: lex its value rows and serialize each
/// decoded page, stopping at the first schema error. The triples produced
/// before the error are returned beside it: they were already handed on
/// when the error struck.
#[verifier::loop_isolation(false)]
pub fn page_line_to_triples(line: String, encyclopedia: bool) -> (r: (
    Vec<String>,
    Option<PageError>,
))
    ensures
        (r.0.deep_view(), r.1) == page_stage_spec(lex_line(line@), encyclopedia),
{
    let ghost full = page_stage_spec(lex_line(line@), encyclopedia);
    let mut parser = InsertParser::from_line(line);
    let mut out: Vec<String> = Vec::new();
    proof {
        assert(out.deep_view() =~= Seq::<Seq<char>>::empty());
    }
    loop
        invariant
            parser.wf(),
            full.0 == out.deep_view() + page_stage_spec(parser.remaining_rows(), encyclopedia).0,
            full.1 == page_stage_spec(parser.remaining_rows(), encyclopedia).1,
        decreases parser.remaining_rows().len(),
    {
        let ghost rem = parser.remaining_rows();
        match parser.next_value() {
            None => {
                proof {
                    assert(out.deep_view() + page_stage_spec(rem, encyclopedia).0 =~= out.deep_view());
                }
                return (out, None);
            },
            Some(row) => {
                let ghost rest = page_stage_spec(rem.drop_first(), encyclopedia);
                match Page::from_sql(row) {
                    Err(e) => {
                        proof {
                            assert(out.deep_view() + page_stage_spec(rem, encyclopedia).0
                                =~= out.deep_view());
                        }
                        return (out, Some(e));
                    },
                    Ok(p) => {
                        if encyclopedia && p.namespace != 0 {
                        } else {
                            let ghost o0 = out.deep_view();
                            let ghost pv = p@;
                            out.push(p.to_rdf());
                            proof {
                                assert(out.deep_view() =~= o0.push(page_rdf_spec(pv)));
                                assert(o0 + (seq![page_rdf_spec(pv)] + rest.0) =~= out.deep_view()
                                    + rest.0);
                            }
                        }
                    },
                }
            },
        }
    }
}

/// What the decode stage makes of the rows of one `pagelinks` dump line:
/// the serialized triple of every resolved row, in row order; rows whose
/// references do not resolve are dropped; the first schema error ends the
/// run.
pub open spec fn link_stage_spec(
    contents: Map<(Seq<char>, u32), PageView>,
    known: Set<u64>,
    rows: Seq<Seq<Seq<char>>>,
) -> (Seq<Seq<char>>, Option<LinkError>)
    decreases rows.len(),
{
    if rows.len() == 0 {
        (seq![], None)
    } else {
        match link_from_sql_spec(contents, known, rows[0]) {
            Err(LinkError::FieldCount) => (seq![], Some(LinkError::FieldCount)),
            Err(LinkError::FieldParse) => (seq![], Some(LinkError::FieldParse)),
            Err(LinkError::ReferenceNotFound) => link_stage_spec(
                contents,
                known,
                rows.drop_first(),
            ),
            Ok(l) => {
                let rest = link_stage_spec(contents, known, rows.drop_first());
                (seq![link_rdf_spec(l)] + rest.0, rest.1)
            },
        }
    }
}

/// Decode one `pagelinks` dump line against the page index: lex its value
/// rows, resolve each one, and serialize each resolved link; unresolved
/// rows are dropped silently, and the first schema error ends the run.
#[verifier::loop_isolation(false)]
pub fn link_line_to_triples(index: &PageIndex, line: String) -> (r: (
    Vec<String>,
    Option<LinkError>,
))
    requires
        index.wf(),
    ensures
        (r.0.deep_view(), r.1) == link_stage_spec(
            index.contents(),
            index.known_ids(),
            lex_line(line@),
        ),
{
    let ghost full = link_stage_spec(index.contents(), index.known_ids(), lex_line(line@));
    let mut parser = InsertParser::from_line(line);
    let mut out: Vec<String> = Vec::new();
    proof {
        assert(out.deep_view() =~= Seq::<Seq<char>>::empty());
    }
    loop
        invariant
            parser.wf(),
            index.wf(),
            full.0 == out.deep_view() + link_stage_spec(
                index.contents(),
                index.known_ids(),
                parser.remaining_rows(),
            ).0,
            full.1 == link_stage_spec(
                index.contents(),
                index.known_ids(),
                parser.remaining_rows(),
            ).1,
        decreases parser.remaining_rows().len(),
    {
        let ghost rem = parser.remaining_rows();
        match parser.next_value() {
            None => {
                proof {
                    assert(out.deep_view() + link_stage_spec(
                        index.contents(),
                        index.known_ids(),
                        rem,
                    ).0 =~= out.deep_view());
                }
                return (out, None);
            },
            Some(row) => {
                match Link::from_sql(index, row) {
                    Err(LinkError::ReferenceNotFound) => {},
                    Err(e) => {
                        proof {
                            assert(out.deep_view() + link_stage_spec(
                                index.contents(),
                                index.known_ids(),
                                rem,
                            ).0 =~= out.deep_view());
                        }
                        return (out, Some(e));
                    },
                    Ok(l) => {
                        let ghost o0 = out.deep_view();
                        let ghost rest = link_stage_spec(
                            index.contents(),
                            index.known_ids(),
                            rem.drop_first(),
                        );
                        out.push(l.to_rdf());
                        proof {
                            assert(out.deep_view() =~= o0.push(link_rdf_spec(l)));
                            assert(o0 + (seq![link_rdf_spec(l)] + rest.0) =~= out.deep_view()
                                + rest.0);
                        }
                    },
                }
            },
        }
    }
}

// ---------------------------------------------------------------------------
// The bounded queue between the producer and the decode stage
// ---------------------------------------------------------------------------

/// The capacity-bounded line queue joining the producer to the decode
/// stage. Its bound is the pipeline's only back-pressure: a full queue
/// accepts nothing, so the producer must stop until the decoder drains a
/// line, which bounds peak memory to a small multiple of the line size.
pub struct BoundedQueue {
    items: Vec<String>,
    cap: usize,
}

impl BoundedQueue {
    /// The queue never holds more lines than its capacity.
    pub closed spec fn wf(&self) -> bool {
        self.items@.len() <= self.cap
    }

    /// The queued lines, oldest first.
    pub closed spec fn contents(&self) -> Seq<Seq<char>> {
        self.items.deep_view()
    }

    /// The fixed capacity the queue was made with.
    pub closed spec fn capacity(&self) -> nat {
        self.cap as nat
    }

    /// An empty queue with this capacity.
    pub fn with_capacity(cap: usize) -> (q: BoundedQueue)
        requires
            cap >= 1,
        ensures
            q.wf(),
            q.capacity() == cap,
            q.contents() == Seq::<Seq<char>>::empty(),
    {
        let q = BoundedQueue { items: Vec::new(), cap };
        proof {
            assert(q.contents() =~= Seq::<Seq<char>>::empty());
        }
        q
    }

    /// How many lines are queued.
    pub fn len(&self) -> (n: usize)
        ensures
            n == self.contents().len(),
    {
        self.items.len()
    }

    /// Offer a line to the queue. A full queue takes nothing and hands
    /// the line back unchanged: the producer must hold it and wait until
    /// the decoder has drained a line.
    pub fn try_push(&mut self, line: String) -> (r: Option<String>)
        requires
            old(self).wf(),
        ensures
            final(self).wf(),
            final(self).capacity() == old(self).capacity(),
            if old(self).contents().len() == old(self).capacity() {
                &&& r matches Some(back) && back@ == line@
                &&& final(self).contents() == old(self).contents()
            } else {
                &&& r is None
                &&& final(self).contents() == old(self).contents().push(line@)
            },
    {
        if self.items.len() == self.cap {
            return Some(line);
        }
        let ghost c0 = self.contents();
        let ghost l = line@;
        self.items.push(line);
        proof {
            assert(self.contents() =~= c0.push(l));
        }
        None
    }

    /// Take the oldest line out of the queue, if any is there.
    pub fn pop_front(&mut self) -> (r: Option<String>)
        requires
            old(self).wf(),
        ensures
            final(self).wf(),
            final(self).capacity() == old(self).capacity(),
            if old(self).contents().len() == 0 {
                r is None && final(self).contents() == old(self).contents()
            } else {
                &&& r matches Some(front) && front@ == old(self).contents()[0]
                &&& final(self).contents() == old(self).contents().drop_first()
            },
    {
        if self.items.len() == 0 {
            return None;
        }
        let ghost c0 = self.contents();
        let front = self.items.remove(0);
        proof {
            assert(self.contents() =~= c0.drop_first());
        }
        Some(front)
    }
}

} // verus!
