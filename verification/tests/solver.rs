use textocx::comm::{Request, Response};
use textocx::error::Error;
use textocx::parser::{parse, Type};
use textocx::solver::{request_for, slot_for, Collector, Job, Solver};
use textocx::worker::{Worker, WorkerPort};
use textocx::wrap_html::{Meta, TEMPLATE_SUFFIX};

fn job(italic_math: bool, tex: &str) -> Job {
    Job { italic_math, tex_code: String::from(tex) }
}

fn fragment(html: &str) -> &str {
    let start = html.find("<!--StartFragment-->").unwrap() + "<!--StartFragment-->".len();
    let end = html.len() - TEMPLATE_SUFFIX.len();
    &html[start..end]
}

fn answer(port: &WorkerPort, loc: usize, omml: Result<&str, &str>) {
    port.respch
        .try_send(Response {
            loc,
            omml: omml.map(String::from).map_err(String::from),
        })
        .unwrap();
}

fn taken(port: &WorkerPort) -> Vec<Request> {
    let mut requests = Vec::new();
    while let Ok(Some(request)) = port.reqch.try_recv() {
        requests.push(request);
    }
    requests
}

#[test]
fn text_and_inline_math_end_to_end() {
    let mut solver = Solver::new(1);
    let port = solver.take_port().unwrap();
    answer(&port, 1, Ok("<m:r>x2</m:r>"));
    let html = solver.solve(job(false, "hello $x^2$ world")).unwrap();
    assert_eq!(fragment(&html), "hello <m:r>x2</m:r> world");
    assert!(html.starts_with(
        "Version:1.0\nStartHTML:0000000100\nEndHTML:0000000444\nStartFragment:0000000365\nEndFragment:0000000428\n"
    ));
    let requests = taken(&port);
    assert_eq!(requests.len(), 1);
    assert_eq!(requests[0].loc, 1);
    assert_eq!(requests[0].tex, "x^2");
    assert!(!requests[0].display_mode);
}

#[test]
fn block_math_in_italics_end_to_end() {
    let mut solver = Solver::new(1);
    let port = solver.take_port().unwrap();
    answer(&port, 0, Ok("<m:r>a+b</m:r>"));
    let html = solver.solve(job(true, "$$a+b$$")).unwrap();
    assert_eq!(fragment(&html), "<i><m:r>a+b</m:r></i>");
    assert!(taken(&port)[0].display_mode);
}

#[test]
fn bad_input_sends_no_request() {
    let mut solver = Solver::new(1);
    let port = solver.take_port().unwrap();
    match solver.solve(job(true, "a $ b")) {
        Err(Error::BadInput(msg)) => assert_eq!(msg, "error Eof at: $ b"),
        other => panic!("{:?}", other),
    }
    assert!(port.reqch.is_empty());
    match solver.solve(job(true, "$x$ $")) {
        Err(Error::BadInput(msg)) => assert_eq!(msg, "error Eof at: $"),
        other => panic!("{:?}", other),
    }
    assert!(port.reqch.is_empty());
}

#[test]
fn environment_is_sent_whole_in_display_mode() {
    let mut solver = Solver::new(1);
    let port = solver.take_port().unwrap();
    answer(&port, 0, Ok("<m:oMath/>"));
    let tex = r"\begin{align}x&=y\end{align}";
    let html = solver.solve(job(false, tex)).unwrap();
    assert_eq!(fragment(&html), "<m:oMath/>");
    let requests = taken(&port);
    assert_eq!(requests.len(), 1);
    assert_eq!(requests[0].loc, 0);
    assert_eq!(requests[0].tex, tex);
    assert!(requests[0].display_mode);
}

#[test]
fn text_is_escaped_and_math_is_not() {
    let mut solver = Solver::new(1);
    let port = solver.take_port().unwrap();
    answer(&port, 1, Ok("<m:r>&lt;</m:r>"));
    let html = solver.solve(job(true, "a<b & 你 $<$ >")).unwrap();
    assert_eq!(
        fragment(&html),
        "a&lt;b &amp; 你 <i><m:r>&lt;</m:r></i> &gt;"
    );
}

#[test]
fn text_only_job_needs_no_worker() {
    let solver = Solver::new(0);
    let html = solver.solve(job(true, "just text")).unwrap();
    assert_eq!(fragment(&html), "just text");
    let empty = solver.solve(job(true, "")).unwrap();
    assert_eq!(fragment(&empty), "");
    assert_eq!(empty.len(), 419);
}

#[test]
fn responses_are_placed_by_position_in_any_order() {
    let tex = "$a$ and $$b$$ and $c$ and $d$";
    let markup = [(0, "<A/>"), (2, "<B/>"), (4, "<C/>"), (6, "<D/>")];
    let orders = [
        [0, 1, 2, 3],
        [3, 2, 1, 0],
        [1, 3, 0, 2],
        [2, 0, 3, 1],
        [3, 0, 1, 2],
        [1, 0, 3, 2],
    ];
    for order in orders {
        let mut solver = Solver::new(2);
        let port = solver.take_port().unwrap();
        for k in order {
            answer(&port, markup[k].0, Ok(markup[k].1));
        }
        let html = solver.solve(job(false, tex)).unwrap();
        assert_eq!(fragment(&html), "<A/> and <B/> and <C/> and <D/>");
        let locs: Vec<usize> = taken(&port).iter().map(|r| r.loc).collect();
        assert_eq!(locs, vec![0, 2, 4, 6]);
    }
}

#[test]
fn failure_is_reported_after_every_response_is_taken() {
    let mut solver = Solver::new(2);
    let port = solver.take_port().unwrap();
    answer(&port, 2, Ok("<B/>"));
    answer(&port, 0, Err("ParseError: first"));
    answer(&port, 4, Err("ParseError: second"));
    match solver.solve(job(false, "$a$ $b$ $c$")) {
        Err(Error::JS(msg)) => assert_eq!(msg, "ParseError: first"),
        other => panic!("{:?}", other),
    }
    assert!(port.respch.is_empty());
    assert_eq!(taken(&port).len(), 3);
    answer(&port, 0, Ok("<X/>"));
    let html = solver.solve(job(false, "$x$")).unwrap();
    assert_eq!(fragment(&html), "<X/>");
}

#[test]
fn response_for_an_unknown_position_is_fatal() {
    let mut solver = Solver::new(1);
    let port = solver.take_port().unwrap();
    answer(&port, 7, Ok("<X/>"));
    match solver.solve(job(false, "$x$")) {
        Err(Error::Fatal(msg)) => assert_eq!(msg, "response for an unknown position"),
        other => panic!("{:?}", other),
    }
}

#[test]
fn closed_queues_end_the_job() {
    let mut solver = Solver::new(1);
    let port = solver.take_port().unwrap();
    drop(port);
    match solver.solve(job(false, "$x$")) {
        Err(Error::Fatal(msg)) => assert_eq!(msg, "request channel closed"),
        other => panic!("{:?}", other),
    }
    assert_eq!(solver.shutdown(), 0);
    let mut solver = Solver::new(1);
    let port = solver.take_port().unwrap();
    let WorkerPort { reqch, respch } = port;
    drop(respch);
    match solver.solve(job(false, "$x$")) {
        Err(Error::Fatal(msg)) => assert_eq!(msg, "response channel closed"),
        other => panic!("{:?}", other),
    }
    drop(reqch);
}

#[test]
fn port_is_handed_out_once() {
    let mut solver = Solver::new(3);
    assert!(solver.take_port().is_some());
    assert!(solver.take_port().is_none());
}

#[test]
fn shutdown_sends_one_signal_per_worker() {
    let mut solver = Solver::new(3);
    let port = solver.take_port().unwrap();
    assert_eq!(solver.shutdown(), 3);
    for _ in 0..3 {
        assert!(matches!(port.reqch.try_recv(), Ok(None)));
    }
    assert!(port.reqch.try_recv().is_err());
}

#[test]
fn slots_and_requests_follow_the_spans() {
    let parts = parse("t $i$ $$b$$").unwrap();
    assert_eq!(parts[1].typ, Type::InlineMath);
    assert_eq!(slot_for(&parts[0]).content, "t ");
    assert_eq!(slot_for(&parts[1]).content, "");
    assert!(request_for(&parts[0], 0).is_none());
    let inline = request_for(&parts[1], 1).unwrap();
    assert_eq!((inline.loc, inline.tex.as_str(), inline.display_mode), (1, "i", false));
    let block = request_for(&parts[3], 3).unwrap();
    assert_eq!((block.loc, block.tex.as_str(), block.display_mode), (3, "b", true));
}

#[test]
fn collector_counts_down_also_on_failure() {
    let parts = parse("$a$ x $b$").unwrap();
    let pieces = parts.iter().map(slot_for).collect();
    let mut collector = Collector::new(pieces, 2);
    assert_eq!(collector.outstanding(), 2);
    collector.accept(Response { loc: 2, omml: Err(String::from("boom")) });
    assert_eq!(collector.outstanding(), 1);
    collector.accept(Response { loc: 0, omml: Ok(String::from("<A/>")) });
    assert_eq!(collector.outstanding(), 0);
    collector.accept(Response { loc: 0, omml: Ok(String::from("<A/>")) });
    assert_eq!(collector.outstanding(), 0);
    match collector.finish(false, &Meta::get()) {
        Err(Error::JS(msg)) => assert_eq!(msg, "boom"),
        other => panic!("{:?}", other),
    }
}

#[test]
fn errors_are_shown_with_their_kind() {
    assert_eq!(Error::BadInput(String::from("x")).to_string(), "Bad Input: x");
    assert_eq!(Error::JS(String::from("y")).to_string(), "JS Exception: y");
    assert_eq!(Error::fatal("z").to_string(), "Fatal: z");
    let err = Error::bad_input(parse("$").unwrap_err());
    assert_eq!(err.to_string(), "Bad Input: error Eof at: $");
}

#[test]
fn worker_answers_the_request_it_took() {
    let mut solver = Solver::new(1);
    let port = solver.take_port().unwrap();
    let mut worker = Worker::new(WorkerPort {
        reqch: port.reqch.clone(),
        respch: port.respch.clone(),
    });
    assert_eq!(worker.respond(Ok(String::from("<X/>"))), Err("no loc"));
    answer(&port, 0, Ok("<m:r>y</m:r>"));
    let html = solver.solve(job(false, "$y$")).unwrap();
    assert_eq!(fragment(&html), "<m:r>y</m:r>");
    let request = worker.wait().unwrap().unwrap();
    assert_eq!((request.loc, request.tex.as_str()), (0, "y"));
    assert_eq!(worker.respond(Err(String::from("late"))), Ok(()));
    assert_eq!(worker.respond(Err(String::from("twice"))), Err("no loc"));
    let response = port.reqch.is_empty();
    assert!(response);
    assert_eq!(solver.shutdown(), 1);
    assert!(worker.wait().unwrap().is_none());
    drop(solver);
    assert_eq!(worker.wait().unwrap_err(), "recv channel closed");
}

#[test]
fn worker_notes_and_answers_without_queues() {
    let mut solver = Solver::new(1);
    let mut worker = Worker::new(solver.take_port().unwrap());
    let request = Request { loc: 5, tex: String::from("t"), display_mode: true };
    assert!(worker.note(None).is_none());
    assert!(worker.answer(Ok(String::from("m"))).is_err());
    assert_eq!(worker.note(Some(request)).unwrap().loc, 5);
    assert!(worker.note(None).is_none());
    let response = worker.answer(Ok(String::from("m"))).unwrap();
    assert_eq!(response.loc, 5);
    assert_eq!(response.omml, Ok(String::from("m")));
    assert_eq!(worker.answer(Ok(String::from("m"))).unwrap_err(), "no loc");
}
