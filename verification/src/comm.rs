//! What goes over the two queues between the solver and the workers.
use vstd::prelude::*;

verus! {

/// A math span to render. `loc` is the position of the span in the job; it
/// comes back in the response and is all that ties the two together.
#[derive(Debug)]
pub struct Request {
    pub loc: usize,
    pub tex: String,
    pub display_mode: bool,
}

/// What the renderer made of the span at `loc`: its markup, or its message
/// of refusal.
#[derive(Debug)]
pub struct Response {
    pub loc: usize,
    pub omml: Result<String, String>,
}

pub struct RequestModel {
    pub loc: nat,
    pub tex: Seq<char>,
    pub display_mode: bool,
}

pub struct ResponseModel {
    pub loc: nat,
    pub omml: Result<Seq<char>, Seq<char>>,
}

impl View for Request {
    type V = RequestModel;

    open spec fn view(&self) -> RequestModel {
        RequestModel { loc: self.loc as nat, tex: self.tex@, display_mode: self.display_mode }
    }
}

impl View for Response {
    type V = ResponseModel;

    open spec fn view(&self) -> ResponseModel {
        ResponseModel {
            loc: self.loc as nat,
            omml: match self.omml {
                Ok(m) => Ok(m@),
                Err(e) => Err(e@),
            },
        }
    }
}

} // verus!
