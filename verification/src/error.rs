//! What goes wrong with a query, and how it is answered then.
use crate::watch::RETRY_AFTER;
use crate::webfinger;
use vstd::prelude::*;
use vstd::string::*;

verus! {

/// Why a query gets no document.
#[derive(Debug)]
pub enum Error {
    /// The merged document could not be written out.
    Webfinger(webfinger::Error),
    /// No resource was named, or the one that was is no URI: what is wrong.
    InvalidResource(String),
    NoBackends,
    ResourceNotFound,
    ResourceGone,
    AllBackendsFailed,
}

pub enum ErrorView {
    Webfinger(Seq<char>),
    InvalidResource(Seq<char>),
    NoBackends,
    ResourceNotFound,
    ResourceGone,
    AllBackendsFailed,
}

impl View for Error {
    type V = ErrorView;

    open spec fn view(&self) -> ErrorView {
        match self {
            Error::Webfinger(error) => ErrorView::Webfinger(error@),
            Error::InvalidResource(resource) => ErrorView::InvalidResource(resource@),
            Error::NoBackends => ErrorView::NoBackends,
            Error::ResourceNotFound => ErrorView::ResourceNotFound,
            Error::ResourceGone => ErrorView::ResourceGone,
            Error::AllBackendsFailed => ErrorView::AllBackendsFailed,
        }
    }
}

/// An error in words.
pub open spec fn error_text(error: ErrorView) -> Seq<char> {
    match error {
        ErrorView::Webfinger(error) => "webfinger serialization error: "@ + webfinger::error_text(
            error,
        ),
        ErrorView::InvalidResource(resource) => "invalid resource format: "@ + resource,
        ErrorView::NoBackends => "no backends available"@,
        ErrorView::ResourceNotFound => "resource not found"@,
        ErrorView::ResourceGone => "resource gone"@,
        ErrorView::AllBackendsFailed => "all backends failed"@,
    }
}

/// The answer to a query that gets no document.
#[derive(Debug)]
pub struct Reply {
    /// The HTTP status.
    pub status: u16,
    pub message: String,
    /// The seconds after which the client may try again, where it is told.
    pub retry_after: Option<u64>,
}

pub struct ReplyView {
    pub status: u16,
    pub message: Seq<char>,
    pub retry_after: Option<u64>,
}

impl View for Reply {
    type V = ReplyView;

    open spec fn view(&self) -> ReplyView {
        ReplyView { status: self.status, message: self.message@, retry_after: self.retry_after }
    }
}

/// How an error is answered. What went wrong inside stays inside.
pub open spec fn reply_of(error: ErrorView) -> ReplyView {
    let (status, message, retry_after): (u16, Seq<char>, Option<u64>) = match error {
        ErrorView::Webfinger(_) => (500, "internal error"@, None),
        ErrorView::InvalidResource(_) => (400, error_text(error), None),
        ErrorView::NoBackends => (503, "no backends configured"@, Some(RETRY_AFTER)),
        ErrorView::ResourceNotFound => (404, "resource not found"@, None),
        ErrorView::ResourceGone => (410, "resource gone"@, None),
        ErrorView::AllBackendsFailed => (502, "all backends failed"@, None),
    };
    ReplyView { status, message, retry_after }
}

impl Error {
    /// The error in words.
    pub fn to_text(&self) -> (text: String)
        ensures
            text@ == error_text(self@),
    {
        match self {
            Error::Webfinger(error) => {
                let mut text = "webfinger serialization error: ".to_owned();
                let detail = error.to_text();
                text.append(detail.as_str());
                text
            },
            Error::InvalidResource(resource) => {
                let mut text = "invalid resource format: ".to_owned();
                text.append(resource.as_str());
                text
            },
            Error::NoBackends => "no backends available".to_owned(),
            Error::ResourceNotFound => "resource not found".to_owned(),
            Error::ResourceGone => "resource gone".to_owned(),
            Error::AllBackendsFailed => "all backends failed".to_owned(),
        }
    }

    /// How the error is answered.
    pub fn reply(&self) -> (reply: Reply)
        ensures
            reply@ == reply_of(self@),
    {
        match self {
            Error::Webfinger(_) => Reply {
                status: 500,
                message: "internal error".to_owned(),
                retry_after: None,
            },
            Error::InvalidResource(_) => Reply {
                status: 400,
                message: self.to_text(),
                retry_after: None,
            },
            Error::NoBackends => Reply {
                status: 503,
                message: "no backends configured".to_owned(),
                retry_after: Some(RETRY_AFTER),
            },
            Error::ResourceNotFound => Reply {
                status: 404,
                message: "resource not found".to_owned(),
                retry_after: None,
            },
            Error::ResourceGone => Reply {
                status: 410,
                message: "resource gone".to_owned(),
                retry_after: None,
            },
            Error::AllBackendsFailed => Reply {
                status: 502,
                message: "all backends failed".to_owned(),
                retry_after: None,
            },
        }
    }
}

/// A client is told when to try again exactly where there are no backends.
pub proof fn law_retry_after(error: ErrorView)
    ensures
        reply_of(error).retry_after is Some <==> error is NoBackends,
        reply_of(error).status == 503 <==> error is NoBackends,
{
}

/// The status alone tells what went wrong.
pub proof fn law_status_tells_error(a: ErrorView, b: ErrorView)
    requires
        reply_of(a).status == reply_of(b).status,
    ensures
        a is Webfinger == b is Webfinger,
        a is InvalidResource == b is InvalidResource,
        a is NoBackends == b is NoBackends,
        a is ResourceNotFound == b is ResourceNotFound,
        a is ResourceGone == b is ResourceGone,
        a is AllBackendsFailed == b is AllBackendsFailed,
{
}

/// What went wrong inside is not told: every failure to write the document out
/// is answered alike.
pub proof fn law_internal_errors_look_alike(a: Seq<char>, b: Seq<char>)
    ensures
        reply_of(ErrorView::Webfinger(a)) == reply_of(ErrorView::Webfinger(b)),
{
}

/// How each error is answered: its status, what is said, and whether the client
/// is told to come back after ten seconds.
pub proof fn law_replies(text: Seq<char>)
    ensures
        reply_of(ErrorView::Webfinger(text)).status == 500,
        reply_of(ErrorView::Webfinger(text)).message == "internal error"@,
        reply_of(ErrorView::Webfinger(text)).retry_after is None,
        reply_of(ErrorView::InvalidResource(text)).status == 400,
        reply_of(ErrorView::InvalidResource(text)).message == "invalid resource format: "@ + text,
        reply_of(ErrorView::InvalidResource(text)).retry_after is None,
        reply_of(ErrorView::NoBackends).status == 503,
        reply_of(ErrorView::NoBackends).message == "no backends configured"@,
        reply_of(ErrorView::NoBackends).retry_after == Some(10u64),
        reply_of(ErrorView::ResourceNotFound).status == 404,
        reply_of(ErrorView::ResourceNotFound).message == "resource not found"@,
        reply_of(ErrorView::ResourceNotFound).retry_after is None,
        reply_of(ErrorView::ResourceGone).status == 410,
        reply_of(ErrorView::ResourceGone).message == "resource gone"@,
        reply_of(ErrorView::ResourceGone).retry_after is None,
        reply_of(ErrorView::AllBackendsFailed).status == 502,
        reply_of(ErrorView::AllBackendsFailed).message == "all backends failed"@,
        reply_of(ErrorView::AllBackendsFailed).retry_after is None,
{
}

/// Each error in words, whatever its detail.
pub proof fn law_error_texts(detail: Seq<char>)
    ensures
        error_text(ErrorView::Webfinger(detail)) == "webfinger serialization error: "@ + (
        "JSON error: "@ + detail),
        error_text(ErrorView::InvalidResource(detail)) == "invalid resource format: "@ + detail,
        error_text(ErrorView::NoBackends) == "no backends available"@,
        error_text(ErrorView::ResourceNotFound) == "resource not found"@,
        error_text(ErrorView::ResourceGone) == "resource gone"@,
        error_text(ErrorView::AllBackendsFailed) == "all backends failed"@,
{
}

/// The views of an error and of a reply say what they hold.
pub proof fn law_error_views(error: Error, reply: Reply)
    ensures
        error matches Error::Webfinger(webfinger::Error::Json(text)) ==> error@
            == ErrorView::Webfinger(text@),
        error matches Error::InvalidResource(text) ==> error@ == ErrorView::InvalidResource(text@),
        error is NoBackends == error@ is NoBackends,
        error is ResourceNotFound == error@ is ResourceNotFound,
        error is ResourceGone == error@ is ResourceGone,
        error is AllBackendsFailed == error@ is AllBackendsFailed,
        reply@.status == reply.status,
        reply@.message == reply.message@,
        reply@.retry_after == reply.retry_after,
{
}

} // verus!
