//! One conversion job from end to end: the text is cut into spans, the math
//! spans go to the worker pool, the responses are put back at the positions
//! they name, and the pieces are written into the container.
//!
//! A job sends all its requests and then takes as many responses as it sent,
//! whether they report success or failure: a response that is left in the
//! queue would be taken for an answer to the next job.
use std::borrow::Cow;
use async_channel::{Receiver, Sender};
use vstd::prelude::*;
use vstd::string::*;
use vstd::utf8::*;
use crate::comm::{Request, RequestModel, Response, ResponseModel};
use crate::error::{Error, ErrorModel};
use crate::grammar::{spans_of, unparsed, SpanModel};
use crate::parser::{parse, views, Part};
use crate::postproc::{
    escape_html, escape_spec, fragments_of, fragments_of_piece, italic_math, italic_spec, plain,
    Piece, PieceModel,
};
use crate::worker::WorkerPort;
use crate::wrap_html::{bytes_of, document, document_fits, strings_of, try_wrap_html, Meta};

verus! {

/// How many messages each of the two queues holds.
pub const QUEUE_CAPACITY: usize = 4;

/// A conversion job.
pub struct Job {
    pub italic_math: bool,
    pub tex_code: String,
}

/// The piece that stands at the position of a span before any response has
/// come: the text itself for a text span, an empty piece for math.
pub open spec fn slot_of(span: SpanModel) -> PieceModel {
    if span.typ == crate::grammar::Type::Text {
        plain(crate::postproc::Type::Text, decode_utf8(span.content))
    } else {
        plain(crate::postproc::Type::Text, Seq::empty())
    }
}

/// The request for the span at position `loc`: none for text; for math its
/// content, in display mode unless the math is inline.
pub open spec fn request_of(span: SpanModel, loc: nat) -> Option<RequestModel> {
    if span.typ == crate::grammar::Type::Text {
        None
    } else {
        Some(
            RequestModel {
                loc,
                tex: decode_utf8(span.content),
                display_mode: span.typ != crate::grammar::Type::InlineMath,
            },
        )
    }
}

/// The pieces of a job before any response has come.
pub open spec fn slots_of(spans: Seq<SpanModel>) -> Seq<PieceModel> {
    Seq::new(spans.len(), |i: int| slot_of(spans[i]))
}

/// The requests of a job, in the order in which they are sent.
pub open spec fn requests_of(spans: Seq<SpanModel>) -> Seq<RequestModel>
    decreases spans.len(),
{
    if spans.len() == 0 {
        seq![]
    } else {
        let before = requests_of(spans.drop_last());
        match request_of(spans.last(), (spans.len() - 1) as nat) {
            Some(req) => before.push(req),
            None => before,
        }
    }
}

/// The piece for a span before any response has come.
pub fn slot_for<'a>(part: &Part<'a>) -> (piece: Piece<'a>)
    ensures
        piece@ == slot_of(part@),
{
    proof {
        encode_utf8_decode_utf8(part.content@);
    }
    if part.typ == crate::grammar::Type::Text {
        Piece::from_text(part.as_str())
    } else {
        Piece::default()
    }
}

/// The request for the span at position `loc`, if the span is math.
pub fn request_for(part: &Part<'_>, loc: usize) -> (req: Option<Request>)
    ensures
        match req {
            Some(r) => request_of(part@, loc as nat) == Some(r@),
            None => request_of(part@, loc as nat) is None,
        },
{
    proof {
        encode_utf8_decode_utf8(part.content@);
    }
    if part.typ == crate::grammar::Type::Text {
        None
    } else {
        Some(
            Request {
                loc,
                tex: String::from_str(part.as_str()),
                display_mode: part.typ != crate::grammar::Type::InlineMath,
            },
        )
    }
}

/// What a collector is to the contracts: the pieces by position, the number
/// of responses that are still to come, and the first failure met.
pub struct CollectorModel {
    pub slots: Seq<PieceModel>,
    pub outstanding: nat,
    pub failure: Option<ErrorModel>,
}

/// The failure that a response reports for a job of `len` positions: the
/// renderer's refusal, or markup for a position that does not exist.
pub open spec fn failure_of(r: ResponseModel, len: nat) -> Option<ErrorModel> {
    match r.omml {
        Err(msg) => Some(ErrorModel::JS(msg)),
        Ok(_) => if r.loc >= len {
            Some(ErrorModel::Fatal("response for an unknown position"@))
        } else {
            None
        },
    }
}

/// The collector after one more response: markup is written to the
/// position that the response names, one response fewer is to come, and the
/// first failure stays.
pub open spec fn accept_spec(c: CollectorModel, r: ResponseModel) -> CollectorModel {
    CollectorModel {
        slots: if r.omml is Ok && r.loc < c.slots.len() {
            c.slots.update(r.loc as int, plain(crate::postproc::Type::Math, r.omml->Ok_0))
        } else {
            c.slots
        },
        outstanding: if c.outstanding > 0 {
            (c.outstanding - 1) as nat
        } else {
            0
        },
        failure: if c.failure is Some {
            c.failure
        } else {
            failure_of(r, c.slots.len())
        },
    }
}

/// The collector after the responses in `arrivals`, taken in that order.
pub open spec fn collect(c: CollectorModel, arrivals: Seq<ResponseModel>) -> CollectorModel
    decreases arrivals.len(),
{
    if arrivals.len() == 0 {
        c
    } else {
        accept_spec(collect(c, arrivals.drop_last()), arrivals.last())
    }
}

/// The pieces as they are written: math in italics where that is asked for,
/// text escaped.
pub open spec fn finished(italic: bool, slots: Seq<PieceModel>) -> Seq<PieceModel> {
    Seq::new(slots.len(), |i: int| escape_spec(italic_spec(italic, slots[i])))
}

/// What a job gives once every response is in: the first failure if there
/// was one, else the container around the fragments of the pieces.
pub open spec fn outcome(italic: bool, c: CollectorModel) -> Result<Seq<char>, ErrorModel> {
    match c.failure {
        Some(e) => Err(e),
        None => {
            let body = bytes_of(fragments_of(finished(italic, c.slots)));
            if document_fits(body.len()) {
                Ok(decode_utf8(document(body)))
            } else {
                Err(ErrorModel::Fatal("x too large"@))
            }
        },
    }
}

pub open spec fn result_model(r: Result<String, Error>) -> Result<Seq<char>, ErrorModel> {
    match r {
        Ok(html) => Ok(html@),
        Err(e) => Err(e@),
    }
}

pub open spec fn piece_models<'a>(pieces: Seq<Piece<'a>>) -> Seq<PieceModel> {
    Seq::new(pieces.len(), |i: int| pieces[i]@)
}

/// Takes the responses of one job and puts them where they belong.
pub struct Collector<'a> {
    pieces: Vec<Piece<'a>>,
    outstanding: usize,
    failure: Option<Error>,
}

impl<'a> View for Collector<'a> {
    type V = CollectorModel;

    closed spec fn view(&self) -> CollectorModel {
        CollectorModel {
            slots: piece_models(self.pieces@),
            outstanding: self.outstanding as nat,
            failure: match self.failure {
                Some(e) => Some(e@),
                None => None,
            },
        }
    }
}

impl<'a> Collector<'a> {
    /// A collector for the given pieces that waits for `outstanding`
    /// responses.
    pub fn new(pieces: Vec<Piece<'a>>, outstanding: usize) -> (c: Self)
        ensures
            c@ == (CollectorModel {
                slots: piece_models(pieces@),
                outstanding: outstanding as nat,
                failure: None,
            }),
    {
        Collector { pieces, outstanding, failure: None }
    }

    /// The number of responses that are still to come.
    pub fn outstanding(&self) -> (n: usize)
        ensures
            n == self@.outstanding,
    {
        self.outstanding
    }

    /// Takes one response.
    pub fn accept(&mut self, response: Response)
        ensures
            final(self)@ == accept_spec(old(self)@, response@),
    {
        let ghost before = self@;
        let Response { loc, omml } = response;
        if self.outstanding > 0 {
            self.outstanding -= 1;
        }
        match omml {
            Ok(markup) => {
                if loc < self.pieces.len() {
                    self.pieces[loc] = Piece::from_math(Cow::Owned(markup));
                    proof {
                        assert(self@.slots =~= before.slots.update(
                            loc as int,
                            plain(crate::postproc::Type::Math, markup@),
                        ));
                    }
                } else if self.failure.is_none() {
                    self.failure = Some(Error::fatal("response for an unknown position"));
                }
            },
            Err(msg) => {
                if self.failure.is_none() {
                    self.failure = Some(Error::JS(msg));
                }
            },
        }
    }

    /// Ends the job. Only a collector that has taken every response it
    /// waited for can be ended, also when a response has reported a
    /// failure.
    pub fn finish(self, italic: bool, meta: &Meta) -> (r: Result<String, Error>)
        requires
            self@.outstanding == 0,
            meta.wf(),
        ensures
            result_model(r) == outcome(italic, self@),
    {
        let ghost model = self@;
        let Collector { pieces, outstanding: _, failure } = self;
        let mut pieces = pieces;
        if let Some(e) = failure {
            return Err(e);
        }
        let ghost slots = piece_models(pieces@);
        let ghost done = finished(italic, slots);
        let mut codes: Vec<Cow<'a, str>> = Vec::new();
        let mut i: usize = 0;
        proof {
            assert(done.take(0) =~= Seq::empty());
            assert(strings_of(codes@) =~= fragments_of(done.take(0)));
        }
        while i < pieces.len()
            invariant
                i <= pieces.len(),
                pieces@.len() == slots.len(),
                done == finished(italic, slots),
                forall|k: int| i <= k < pieces.len() ==> (#[trigger] pieces@[k])@ == slots[k],
                strings_of(codes@) == fragments_of(done.take(i as int)),
            decreases pieces.len() - i,
        {
            let mut piece = Piece::default();
            core::mem::swap(&mut pieces[i], &mut piece);
            let piece = escape_html(italic_math(italic, piece));
            let ghost base = strings_of(codes@);
            let ghost frags = fragments_of_piece(piece@);
            let mut iter = piece.into_iter();
            let mut item = iter.next();
            proof {
                assert(piece@ == done[i as int]);
                assert(base + Seq::<Seq<char>>::empty() =~= base);
                assert(frags.subrange(0, 0) =~= Seq::<Seq<char>>::empty());
            }
            let ghost mut taken: int = 0;
            while item.is_some()
                invariant
                    0 <= taken <= frags.len(),
                    strings_of(codes@) == base + frags.subrange(0, taken),
                    match item {
                        Some(c) => taken < frags.len() && c@ == frags[taken] && iter@
                            == frags.subrange(taken + 1, frags.len() as int),
                        None => taken == frags.len(),
                    },
                decreases frags.len() - taken,
            {
                let ghost before = strings_of(codes@);
                let c = item.unwrap();
                codes.push(c);
                item = iter.next();
                proof {
                    assert(strings_of(codes@) =~= before.push(frags[taken]));
                    assert(before.push(frags[taken]) =~= base + frags.subrange(0, taken + 1));
                    if item is Some {
                        assert(frags.subrange(taken + 1, frags.len() as int).drop_first()
                            =~= frags.subrange(taken + 2, frags.len() as int));
                    }
                    taken = taken + 1;
                }
            }
            proof {
                assert(frags.subrange(0, frags.len() as int) =~= frags);
                assert(done.take(i + 1).drop_last() =~= done.take(i as int));
            }
            i += 1;
        }
        proof {
            assert(done.take(i as int) =~= done);
        }
        match try_wrap_html(meta, &codes) {
            Some(html) => {
                proof {
                    encode_utf8_decode_utf8(html@);
                }
                Ok(html)
            },
            None => Err(Error::fatal("x too large")),
        }
    }
}


/// The collector at the start of a job: the slots of the spans, and one
/// response to come for each request.
pub open spec fn start_of(spans: Seq<SpanModel>) -> CollectorModel {
    CollectorModel {
        slots: slots_of(spans),
        outstanding: requests_of(spans).len(),
        failure: None,
    }
}

/// What [`Solver::solve`] returns for a text.
///
/// A text that cannot be cut into spans gives the error that names what is
/// left of it. Otherwise the result is what the responses make of the job,
/// for some sequence of as many responses as there were requests; a job
/// with requests can also end because a queue was closed.
pub open spec fn solved(italic: bool, text: Seq<char>, r: Result<Seq<char>, ErrorModel>) -> bool {
    let s = encode_utf8(text);
    let spans = spans_of(s);
    if unparsed(s).len() > 0 {
        r == Err::<Seq<char>, ErrorModel>(
            ErrorModel::BadInput("error Eof at: "@ + decode_utf8(unparsed(s))),
        )
    } else {
        ||| exists|arrivals: Seq<ResponseModel>|
            arrivals.len() == requests_of(spans).len() && r == outcome(
                italic,
                #[trigger] collect(start_of(spans), arrivals),
            )
        ||| requests_of(spans).len() > 0 && r == Err::<Seq<char>, ErrorModel>(
            ErrorModel::Fatal("request channel closed"@),
        )
        ||| requests_of(spans).len() > 0 && r == Err::<Seq<char>, ErrorModel>(
            ErrorModel::Fatal("response channel closed"@),
        )
    }
}

/// The solver's side of the worker pool: the sending end of the request
/// queue, the receiving end of the response queue, and the layout of the
/// container, which is located once when the solver is made.
pub struct Solver {
    reqch: Sender<Option<Request>>,
    respch: Receiver<Response>,
    nworkers: usize,
    port: Option<WorkerPort>,
    meta: Layout,
}

/// The layout of the container as the solver keeps it: always the one of
/// the templates.
struct Layout {
    meta: Meta,
}

impl Layout {
    #[verifier::type_invariant]
    spec fn inv(&self) -> bool {
        self.meta.wf()
    }
}

impl Solver {
    /// The number of workers that the solver was made for.
    pub closed spec fn workers(&self) -> usize {
        self.nworkers
    }

    /// Whether the workers' ends of the queues are still with the solver.
    pub closed spec fn has_port(&self) -> bool {
        self.port is Some
    }

    /// A solver for a pool of `nworkers` workers, with the two queues. The
    /// workers' ends of the queues wait to be taken with
    /// [`Solver::take_port`].
    pub fn new(nworkers: usize) -> (solver: Solver)
        ensures
            solver.workers() == nworkers,
            solver.has_port(),
    {
        let (reqch_s, reqch_r) = async_channel::bounded(QUEUE_CAPACITY);
        let (respch_s, respch_r) = async_channel::bounded(QUEUE_CAPACITY);
        Solver {
            reqch: reqch_s,
            respch: respch_r,
            nworkers,
            port: Some(WorkerPort { reqch: reqch_r, respch: respch_s }),
            meta: Layout { meta: Meta::get() },
        }
    }

    /// Hands out the workers' ends of the queues, once.
    pub fn take_port(&mut self) -> (port: Option<WorkerPort>)
        ensures
            port is Some == old(self).has_port(),
            !final(self).has_port(),
            final(self).workers() == old(self).workers(),
    {
        self.port.take()
    }

    /// Carries out one job.
    pub fn solve(&self, job: Job) -> (r: Result<String, Error>)
        ensures
            solved(job.italic_math, job.tex_code@, result_model(r)),
    {
        proof {
            use_type_invariant(&self.meta);
        }
        let ghost s = encode_utf8(job.tex_code@);
        let parts = match parse(job.tex_code.as_str()) {
            Ok(parts) => parts,
            Err(e) => {
                proof {
                    encode_utf8_decode_utf8(e.input@);
                }
                return Err(Error::bad_input(e));
            },
        };
        let ghost spans = views(parts@);
        let mut pieces: Vec<Piece<'_>> = Vec::new();
        let mut n: usize = 0;
        let mut i: usize = 0;
        proof {
            assert(spans.take(0) =~= Seq::empty());
            assert(piece_models(pieces@) =~= slots_of(spans).take(0));
        }
        while i < parts.len()
            invariant
                i <= parts.len(),
                spans == views(parts@),
                pieces@.len() == i,
                piece_models(pieces@) == slots_of(spans).take(i as int),
                n == requests_of(spans.take(i as int)).len(),
                n <= i,
                n > 0 ==> requests_of(spans).len() > 0,
                spans == spans_of(s),
                s == encode_utf8(job.tex_code@),
                unparsed(s).len() == 0,
            decreases parts.len() - i,
        {
            let ghost before = piece_models(pieces@);
            pieces.push(slot_for(&parts[i]));
            proof {
                assert(spans.take(i + 1).drop_last() =~= spans.take(i as int));
                assert(spans.take(i + 1).last() == parts@[i as int]@);
                assert forall|k: int| 0 <= k < i + 1 implies piece_models(pieces@)[k] == slots_of(
                    spans,
                ).take(i + 1)[k] by {
                    if k < i {
                        assert(piece_models(pieces@)[k] == before[k]);
                    }
                }
                assert(piece_models(pieces@) =~= slots_of(spans).take(i + 1));
                lemma_requests_grow(spans, i + 1);
            }
            if let Some(req) = request_for(&parts[i], i) {
                match self.reqch.send_blocking(Some(req)) {
                    Ok(_) => {},
                    Err(_) => {
                        return Err(Error::fatal("request channel closed"));
                    },
                }
                n += 1;
            }
            i += 1;
        }
        proof {
            assert(spans.take(i as int) =~= spans);
            assert(slots_of(spans).take(i as int) =~= slots_of(spans));
        }
        let mut collector = Collector::new(pieces, n);
        let ghost start = collector@;
        let ghost mut arrivals: Seq<ResponseModel> = Seq::empty();
        while collector.outstanding() > 0
            invariant
                start == start_of(spans),
                collector@ == collect(start, arrivals),
                arrivals.len() + collector@.outstanding == n,
                n == requests_of(spans).len(),
                spans == spans_of(s),
                s == encode_utf8(job.tex_code@),
                unparsed(s).len() == 0,
                self.meta.meta.wf(),
            decreases collector@.outstanding,
        {
            match self.respch.recv_blocking() {
                Ok(response) => {
                    let ghost before = arrivals;
                    proof {
                        arrivals = arrivals.push(response@);
                        assert(arrivals.drop_last() =~= before);
                    }
                    collector.accept(response);
                },
                Err(_) => {
                    return Err(Error::fatal("response channel closed"));
                },
            }
        }
        collector.finish(job.italic_math, &self.meta.meta)
    }

    /// Sends the signal to shut down, once for each worker, and says how
    /// many signals went out before the queue was found closed.
    pub fn shutdown(&self) -> (sent: usize)
        ensures
            sent <= self.workers(),
    {
        let mut sent: usize = 0;
        while sent < self.nworkers
            invariant
                sent <= self.nworkers,
            decreases self.nworkers - sent,
        {
            match self.reqch.send_blocking(None) {
                Ok(_) => {},
                Err(_) => {
                    return sent;
                },
            }
            sent += 1;
        }
        sent
    }
}

/// The requests of the first `i` spans are among the requests of all.
proof fn lemma_requests_grow(spans: Seq<SpanModel>, i: int)
    requires
        0 <= i <= spans.len(),
    ensures
        requests_of(spans.take(i)).len() <= requests_of(spans).len(),
    decreases spans.len() - i,
{
    if i < spans.len() {
        lemma_requests_grow(spans, i + 1);
        assert(spans.take(i + 1).drop_last() =~= spans.take(i));
    } else {
        assert(spans.take(i) =~= spans);
    }
}


/// The first failure that the responses report, in the order of arrival.
pub open spec fn first_failure(arrivals: Seq<ResponseModel>, len: nat) -> Option<ErrorModel>
    decreases arrivals.len(),
{
    if arrivals.len() == 0 {
        None
    } else {
        match failure_of(arrivals.first(), len) {
            Some(e) => Some(e),
            None => first_failure(arrivals.drop_first(), len),
        }
    }
}

proof fn lemma_first_failure_last(arrivals: Seq<ResponseModel>, len: nat)
    requires
        arrivals.len() > 0,
    ensures
        first_failure(arrivals, len) == (if first_failure(arrivals.drop_last(), len) is Some {
            first_failure(arrivals.drop_last(), len)
        } else {
            failure_of(arrivals.last(), len)
        }),
    decreases arrivals.len(),
{
    if arrivals.len() == 1 {
        assert(arrivals.drop_first() =~= Seq::empty());
        assert(arrivals.drop_last() =~= Seq::empty());
    } else {
        lemma_first_failure_last(arrivals.drop_first(), len);
        assert(arrivals.drop_first().drop_last() =~= arrivals.drop_last().drop_first());
        assert(arrivals.drop_last().first() == arrivals.first());
        assert(arrivals.drop_first().last() == arrivals.last());
    }
}

/// A failure does not end the collection.
///
/// Each response, good or bad, brings the number of outstanding responses
/// down by one and by no more. So a job that waits for `n` responses can be
/// ended, which asks for none to be outstanding, only when all `n` have been
/// taken, also when one of them has reported a failure. The failure that the
/// job then gives is the first one in the order of arrival.
pub proof fn lemma_failure_does_not_end_collection(c: CollectorModel, arrivals: Seq<ResponseModel>)
    requires
        arrivals.len() <= c.outstanding,
    ensures
        collect(c, arrivals).outstanding == c.outstanding - arrivals.len(),
        collect(c, arrivals).outstanding == 0 <==> arrivals.len() == c.outstanding,
        collect(c, arrivals).slots.len() == c.slots.len(),
        collect(c, arrivals).failure == (if c.failure is Some {
            c.failure
        } else {
            first_failure(arrivals, c.slots.len())
        }),
    decreases arrivals.len(),
{
    if arrivals.len() > 0 {
        lemma_failure_does_not_end_collection(c, arrivals.drop_last());
        lemma_first_failure_last(arrivals, c.slots.len());
    }
}

/// The markup that the responses bring for position `i`: that of the last
/// good response that names it.
pub open spec fn answer_for(arrivals: Seq<ResponseModel>, i: nat) -> Option<Seq<char>>
    decreases arrivals.len(),
{
    if arrivals.len() == 0 {
        None
    } else if arrivals.last().loc == i && arrivals.last().omml is Ok {
        Some(arrivals.last().omml->Ok_0)
    } else {
        answer_for(arrivals.drop_last(), i)
    }
}

/// No two responses name the same position.
pub open spec fn one_per_position(arrivals: Seq<ResponseModel>) -> bool {
    forall|j: int, k: int|
        0 <= j < k < arrivals.len() ==> (#[trigger] arrivals[j]).loc != (#[trigger] arrivals[k]).loc
}

/// What the collection leaves at each position is decided by the position
/// that each response names.
pub proof fn lemma_collect_by_position(c: CollectorModel, arrivals: Seq<ResponseModel>, i: int)
    requires
        0 <= i < c.slots.len(),
    ensures
        collect(c, arrivals).slots.len() == c.slots.len(),
        collect(c, arrivals).slots[i] == (match answer_for(arrivals, i as nat) {
            Some(markup) => plain(crate::postproc::Type::Math, markup),
            None => c.slots[i],
        }),
    decreases arrivals.len(),
{
    if arrivals.len() > 0 {
        lemma_collect_by_position(c, arrivals.drop_last(), i);
    }
}

proof fn lemma_answer_found(arrivals: Seq<ResponseModel>, j: int)
    requires
        one_per_position(arrivals),
        0 <= j < arrivals.len(),
        arrivals[j].omml is Ok,
    ensures
        answer_for(arrivals, arrivals[j].loc) == Some(arrivals[j].omml->Ok_0),
    decreases arrivals.len(),
{
    if j < arrivals.len() - 1 {
        let rest = arrivals.drop_last();
        assert(arrivals[j].loc != arrivals[arrivals.len() - 1].loc);
        assert forall|a: int, b: int| 0 <= a < b < rest.len() implies (#[trigger] rest[a]).loc != (
        #[trigger] rest[b]).loc by {
            assert(rest[a] == arrivals[a] && rest[b] == arrivals[b]);
        }
        lemma_answer_found(rest, j);
    }
}

/// A response lands at the position it names.
///
/// When each position is answered at most once, the markup of a good
/// response stands in the end at the position that the response names,
/// wherever in the order of arrival the response came.
pub proof fn lemma_response_lands_at_its_position(
    c: CollectorModel,
    arrivals: Seq<ResponseModel>,
    j: int,
)
    requires
        one_per_position(arrivals),
        0 <= j < arrivals.len(),
        arrivals[j].omml is Ok,
        arrivals[j].loc < c.slots.len(),
    ensures
        collect(c, arrivals).slots[arrivals[j].loc as int] == plain(
            crate::postproc::Type::Math,
            arrivals[j].omml->Ok_0,
        ),
{
    lemma_collect_by_position(c, arrivals, arrivals[j].loc as int);
    lemma_answer_found(arrivals, j);
}

proof fn lemma_answer_given(arrivals: Seq<ResponseModel>, i: nat)
    requires
        answer_for(arrivals, i) is Some,
    ensures
        exists|j: int|
            0 <= j < arrivals.len() && (#[trigger] arrivals[j]).loc == i && arrivals[j].omml == Ok::<
                Seq<char>,
                Seq<char>,
            >(answer_for(arrivals, i)->0),
    decreases arrivals.len(),
{
    if arrivals.last().loc == i && arrivals.last().omml is Ok {
        let j = arrivals.len() - 1;
        assert(arrivals[j].loc == i);
    } else {
        lemma_answer_given(arrivals.drop_last(), i);
        let j = choose|j: int|
            0 <= j < arrivals.drop_last().len() && (#[trigger] arrivals.drop_last()[j]).loc == i
                && arrivals.drop_last()[j].omml == Ok::<Seq<char>, Seq<char>>(
                answer_for(arrivals.drop_last(), i)->0,
            );
        assert(arrivals[j] == arrivals.drop_last()[j]);
    }
}

proof fn lemma_same_answer(first: Seq<ResponseModel>, second: Seq<ResponseModel>, i: nat)
    requires
        one_per_position(second),
        forall|r: ResponseModel| first.contains(r) ==> second.contains(r),
        answer_for(first, i) is Some,
    ensures
        answer_for(second, i) == answer_for(first, i),
{
    lemma_answer_given(first, i);
    let j = choose|j: int|
        0 <= j < first.len() && (#[trigger] first[j]).loc == i && first[j].omml == Ok::<
            Seq<char>,
            Seq<char>,
        >(answer_for(first, i)->0);
    assert(first.contains(first[j]));
    assert(second.contains(first[j]));
    let k = choose|k: int| 0 <= k < second.len() && second[k] == first[j];
    lemma_answer_found(second, k);
}

proof fn lemma_failure_met(c: CollectorModel, arrivals: Seq<ResponseModel>)
    ensures
        collect(c, arrivals).slots.len() == c.slots.len(),
        collect(c, arrivals).failure is Some <==> c.failure is Some || exists|j: int|
            0 <= j < arrivals.len() && failure_of(#[trigger] arrivals[j], c.slots.len()) is Some,
    decreases arrivals.len(),
{
    if arrivals.len() > 0 {
        let rest = arrivals.drop_last();
        lemma_failure_met(c, rest);
        let len = c.slots.len();
        if exists|j: int| 0 <= j < rest.len() && failure_of(#[trigger] rest[j], len) is Some {
            let j = choose|j: int| 0 <= j < rest.len() && failure_of(#[trigger] rest[j], len) is Some;
            assert(arrivals[j] == rest[j]);
        }
        if failure_of(arrivals.last(), len) is Some {
            assert(arrivals[arrivals.len() - 1] == arrivals.last());
        }
        if exists|j: int|
            0 <= j < arrivals.len() && failure_of(#[trigger] arrivals[j], len) is Some {
            let j = choose|j: int|
                0 <= j < arrivals.len() && failure_of(#[trigger] arrivals[j], len) is Some;
            if j < rest.len() {
                assert(rest[j] == arrivals[j]);
            }
        }
    }
}

proof fn lemma_failure_shared(
    c: CollectorModel,
    first: Seq<ResponseModel>,
    second: Seq<ResponseModel>,
)
    requires
        forall|r: ResponseModel| first.contains(r) ==> second.contains(r),
        collect(c, first).failure is Some,
    ensures
        collect(c, second).failure is Some,
{
    lemma_failure_met(c, first);
    lemma_failure_met(c, second);
    let len = c.slots.len();
    if c.failure is None {
        let j = choose|j: int| 0 <= j < first.len() && failure_of(#[trigger] first[j], len) is Some;
        assert(first.contains(first[j]));
        assert(second.contains(first[j]));
        let k = choose|k: int| 0 <= k < second.len() && second[k] == first[j];
        assert(failure_of(second[k], len) is Some);
    }
}

/// The order in which the responses arrive does not matter.
///
/// Take the same responses, one for each position that is answered, in two
/// orders. Both leave the same piece at every position, and both report a
/// failure or neither does. Without a failure the two jobs give the same
/// output.
pub proof fn lemma_order_does_not_matter(
    italic: bool,
    c: CollectorModel,
    first: Seq<ResponseModel>,
    second: Seq<ResponseModel>,
)
    requires
        one_per_position(first),
        one_per_position(second),
        forall|r: ResponseModel| first.contains(r) <==> second.contains(r),
    ensures
        collect(c, first).slots == collect(c, second).slots,
        collect(c, first).failure is Some <==> collect(c, second).failure is Some,
        collect(c, first).failure is None ==> outcome(italic, collect(c, first)) == outcome(
            italic,
            collect(c, second),
        ),
{
    let a = collect(c, first).slots;
    let b = collect(c, second).slots;
    lemma_failure_met(c, first);
    lemma_failure_met(c, second);
    assert forall|i: int| 0 <= i < a.len() implies a[i] == b[i] by {
        lemma_collect_by_position(c, first, i);
        lemma_collect_by_position(c, second, i);
        if answer_for(first, i as nat) is Some {
            lemma_same_answer(first, second, i as nat);
        } else if answer_for(second, i as nat) is Some {
            lemma_same_answer(second, first, i as nat);
        }
    }
    assert(a =~= b);
    if collect(c, first).failure is Some {
        lemma_failure_shared(c, first, second);
    }
    if collect(c, second).failure is Some {
        lemma_failure_shared(c, second, first);
    }
}

} // verus!
