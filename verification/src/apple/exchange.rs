//! Requests to the catalog, and what becomes of the answers to them.
use vstd::prelude::*;

use crate::text::{decimal, decimal_text};

verus! {

/// Where the catalog is reached.
pub const API: &'static str = "https://amp-api.music.apple.com/v1";

/// The site that a request says it comes from.
pub const ORIGIN: &'static str = "https://music.apple.com";

/// What to ask of the catalog: a path below its root, and the query.
pub struct Request {
    pub path: String,
    pub query: Vec<(String, String)>,
}

/// A request by its characters.
pub struct RequestView {
    pub path: Seq<char>,
    pub query: Seq<(Seq<char>, Seq<char>)>,
}

impl View for Request {
    type V = RequestView;

    open spec fn view(&self) -> RequestView {
        RequestView {
            path: self.path@,
            query: self.query@.map_values(|pair: (String, String)| (pair.0@, pair.1@)),
        }
    }
}

impl Request {
    /// A request for `path` without a query.
    pub fn new(path: String) -> (request: Request)
        ensures
            request@ == (RequestView { path: path@, query: seq![] }),
    {
        let request = Request { path, query: Vec::new() };
        proof {
            assert(request@.query =~= seq![]);
        }
        request
    }

    /// The request with one more pair in its query.
    pub fn with(self, key: &str, value: &str) -> (request: Request)
        ensures
            request@ == (RequestView {
                path: self@.path,
                query: self@.query.push((key@, value@)),
            }),
    {
        let ghost before = self@;
        let path = self.path;
        let mut query = self.query;
        query.push((key.to_owned(), value.to_owned()));
        let request = Request { path, query };
        proof {
            assert(request@.query =~= before.query.push((key@, value@)));
        }
        request
    }

    /// The address of the request, without its query.
    pub fn url(&self) -> (url: String)
        ensures
            url@ == API@ + self@.path,
    {
        let mut url = API.to_owned();
        url.append(self.path.as_str());
        url
    }
}

/// The value of the header that carries a token.
pub fn bearer(token: &str) -> (value: String)
    ensures
        value@ == "Bearer "@ + token@,
{
    let mut value = "Bearer ".to_owned();
    value.append(token);
    value
}

/// An answer, sorted by its status.
pub enum Fetched {
    Body(String),
    Unauthorized,
    Failed(u16, String),
}

/// Sorts an answer by its status.
pub fn fetched(status: u16, body: String) -> (answer: Fetched)
    ensures
        answer == (if 200 <= status <= 299 {
            Fetched::Body(body)
        } else if status == 401 || status == 403 {
            Fetched::Unauthorized
        } else {
            Fetched::Failed(status, body)
        }),
{
    if 200 <= status && status <= 299 {
        Fetched::Body(body)
    } else if status == 401 || status == 403 {
        Fetched::Unauthorized
    } else {
        Fetched::Failed(status, body)
    }
}

/// What to do after an answer.
pub enum Verdict {
    /// The request is answered.
    Accept(String),
    /// The token is to be given up, and the same request made with a new one.
    Retry,
    /// The token was refused, and it was a new one.
    Rejected,
    /// The catalog answered with this status and body.
    Failed(u16, String),
}

/// What to do about `answer`, where `renewed` says whether the request was made
/// with a new token.
pub open spec fn verdict_on(renewed: bool, answer: Fetched) -> Verdict {
    match answer {
        Fetched::Body(body) => Verdict::Accept(body),
        Fetched::Unauthorized => if renewed {
            Verdict::Rejected
        } else {
            Verdict::Retry
        },
        Fetched::Failed(status, body) => Verdict::Failed(status, body),
    }
}

/// A request under way, and whether it has been made with a new token.
pub struct Exchange {
    pub renewed: bool,
}

impl Exchange {
    /// A request that is about to be made.
    pub fn new() -> (exchange: Exchange)
        ensures
            !exchange.renewed,
    {
        Exchange { renewed: false }
    }

    /// Takes an answer, and says what to do about it.
    pub fn hear(&mut self, answer: Fetched) -> (verdict: Verdict)
        ensures
            verdict == verdict_on(old(self).renewed, answer),
            final(self).renewed == (old(self).renewed || verdict is Retry),
    {
        match answer {
            Fetched::Body(body) => Verdict::Accept(body),
            Fetched::Unauthorized => {
                if self.renewed {
                    Verdict::Rejected
                } else {
                    self.renewed = true;
                    Verdict::Retry
                }
            },
            Fetched::Failed(status, body) => Verdict::Failed(status, body),
        }
    }
}

/// One error of those that the catalog answers with.
pub struct ApiError {
    pub title: String,
    pub detail: Option<String>,
}

/// The errors that the catalog answers with.
pub struct ErrorResponse {
    pub errors: Vec<ApiError>,
}

/// What is said of a request that failed with `status`, where the body of the
/// answer was read as `errors` or could not be read.
pub open spec fn failure(path: Seq<char>, status: u16, errors: Option<ErrorResponse>) -> Seq<char> {
    let plain = "apple: "@ + path + " failed with HTTP "@ + decimal(status as nat);
    match errors {
        Some(response) if response.errors@.len() > 0 => {
            let error = response.errors@[0];
            let detail = match error.detail {
                Some(detail) => error.title@ + ": "@ + detail@,
                None => error.title@,
            };
            plain + " ("@ + detail + ")"@
        },
        _ => plain,
    }
}

/// What is said of a request that failed.
pub fn describe(path: &str, status: u16, errors: &Option<ErrorResponse>) -> (message: String)
    ensures
        message@ == failure(path@, status, *errors),
{
    let mut message = "apple: ".to_owned();
    message.append(path);
    message.append(" failed with HTTP ");
    message.append(decimal_text(status as u64).as_str());
    if let Some(response) = errors {
        if response.errors.len() > 0 {
            let error = &response.errors[0];
            let mut detail = error.title.clone();
            if let Some(more) = &error.detail {
                detail.append(": ");
                detail.append(more.as_str());
            }
            message.append(" (");
            message.append(detail.as_str());
            message.append(")");
        }
    }
    message
}

/// What is said of a request whose new token was refused.
pub fn rejection(path: &str) -> (message: String)
    ensures
        message@ == "apple: "@ + path@ + " rejected a freshly scraped token (401)"@,
{
    let mut message = "apple: ".to_owned();
    message.append(path);
    message.append(" rejected a freshly scraped token (401)");
    message
}

/// What is said after each of `answers`, up to the one that settles a request.
pub open spec fn verdicts(renewed: bool, answers: Seq<Fetched>) -> Seq<Verdict>
    decreases answers.len(),
{
    if answers.len() == 0 {
        seq![]
    } else {
        let verdict = verdict_on(renewed, answers[0]);
        if verdict is Retry {
            seq![verdict] + verdicts(true, answers.drop_first())
        } else {
            seq![verdict]
        }
    }
}

/// A token that is refused is given up once: whatever the catalog answers, a
/// request is made at most twice, and the second answer settles it.
pub proof fn renewed_at_most_once(answers: Seq<Fetched>)
    ensures
        verdicts(false, answers).len() <= 2,
        forall|i: int|
            0 <= i < verdicts(false, answers).len() ==> (#[trigger] verdicts(false, answers)[i] is Retry
                ==> i == 0),
        answers.len() >= 2 ==> !(verdicts(false, answers).last() is Retry),
{
    reveal_with_fuel(verdicts, 3);
}

/// What the catalog answers with success is accepted as it is, what it answers
/// otherwise is told with its status and body, and only a token that is refused is
/// given up: the first time the request is made again, the second time not.
pub proof fn refused_tokens_alone_are_renewed(renewed: bool, answer: Fetched)
    ensures
        answer matches Fetched::Body(body) ==> verdict_on(renewed, answer) == Verdict::Accept(body),
        answer matches Fetched::Failed(status, body) ==> verdict_on(renewed, answer)
            == Verdict::Failed(status, body),
        verdict_on(renewed, answer) is Retry <==> answer is Unauthorized && !renewed,
        verdict_on(renewed, answer) is Rejected <==> answer is Unauthorized && renewed,
{
}

/// A request that failed is told with its path and status, and with the first of
/// the errors that the catalog names, where it names any: its title, and where
/// there is one the detail behind it.
pub proof fn failures_are_told_with_their_first_error(
    path: Seq<char>,
    status: u16,
    errors: Option<ErrorResponse>,
)
    ensures
        ({
            let plain = "apple: "@ + path + " failed with HTTP "@ + decimal(status as nat);
            let message = failure(path, status, errors);
            &&& errors is None || errors->0.errors@.len() == 0 ==> message == plain
            &&& errors is Some && errors->0.errors@.len() > 0 ==> {
                let error = errors->0.errors@[0];
                &&& error.detail is None ==> message == plain + " ("@ + error.title@ + ")"@
                &&& error.detail matches Some(detail) ==> message == plain + " ("@ + error.title@
                    + ": "@ + detail@ + ")"@
            }
        }),
{
    if errors is Some && errors->0.errors@.len() > 0 {
        let plain = "apple: "@ + path + " failed with HTTP "@ + decimal(status as nat);
        let error = errors->0.errors@[0];
        if let Some(detail) = error.detail {
            assert(plain + " ("@ + (error.title@ + ": "@ + detail@) + ")"@ =~= plain + " ("@
                + error.title@ + ": "@ + detail@ + ")"@);
        }
    }
}

} // verus!
