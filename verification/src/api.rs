//! The transport dispatcher's data types and decision logic: the typed error,
//! the tagged result delivered on the result channel, the transient response
//! envelopes, and the functions that turn a transport outcome into exactly
//! one tagged result.

use vstd::prelude::*;
use vstd::string::StringExecFns;
use crate::todos::{Todo, TodoView};
use crate::wire::{list_env_chars, post_env_chars, ResponsePostView, ResponseTodosView, TodoDataView};
use crate::decode::{decode_list_body, decode_post_body};

verus! {

/// The failure taxonomy: a transport-level failure on a multi-threaded host,
/// the same on a cooperative single-threaded host, and an application-level
/// rejection signalled by a non-success status string. Each carries its
/// diagnostic text.
#[derive(Debug, Clone)]
pub enum ApiError {
    SendRequestError(String),
    WebRequestError(String),
    BadRequest(String),
}

/// The mathematical value of an `ApiError`.
pub enum ApiErrorView {
    SendRequestError(Seq<char>),
    WebRequestError(Seq<char>),
    BadRequest(Seq<char>),
}

impl View for ApiError {
    type V = ApiErrorView;

    open spec fn view(&self) -> ApiErrorView {
        match self {
            ApiError::SendRequestError(m) => ApiErrorView::SendRequestError(m@),
            ApiError::WebRequestError(m) => ApiErrorView::WebRequestError(m@),
            ApiError::BadRequest(m) => ApiErrorView::BadRequest(m@),
        }
    }
}

/// The tagged result of one dispatched operation: exactly one of these is
/// delivered per dispatch, on the result channel.
#[derive(Debug)]
pub enum ResponseData {
    GetResponse(Result<Vec<Todo>, ApiError>),
    PostResponse(Result<Todo, ApiError>),
}

/// The mathematical value of a `ResponseData`.
pub enum ResponseDataView {
    GetResponse(Result<Seq<TodoView>, ApiErrorView>),
    PostResponse(Result<TodoView, ApiErrorView>),
}

impl View for ResponseData {
    type V = ResponseDataView;

    open spec fn view(&self) -> ResponseDataView {
        match self {
            ResponseData::GetResponse(r) => ResponseDataView::GetResponse(
                match r {
                    Ok(ts) => Ok(ts@.map_values(|t: Todo| t@)),
                    Err(e) => Err(e@),
                },
            ),
            ResponseData::PostResponse(r) => ResponseDataView::PostResponse(
                match r {
                    Ok(t) => Ok(t@),
                    Err(e) => Err(e@),
                },
            ),
        }
    }
}

/// The wire envelope of a list response: transient, never retained past
/// decoding.
#[derive(Debug)]
pub struct ResponseTodos {
    pub status: String,
    pub results: u32,
    pub todos: Vec<Todo>,
}

impl View for ResponseTodos {
    type V = ResponseTodosView;

    open spec fn view(&self) -> ResponseTodosView {
        ResponseTodosView {
            status: self.status@,
            results: self.results,
            todos: self.todos@.map_values(|t: Todo| t@),
        }
    }
}

/// The wire wrapper around a single returned todo.
#[derive(Debug)]
pub struct TodoData {
    pub todo: Todo,
}

impl View for TodoData {
    type V = TodoDataView;

    open spec fn view(&self) -> TodoDataView {
        TodoDataView { todo: self.todo@ }
    }
}

/// The wire envelope of a single-item response.
#[derive(Debug)]
pub struct ResponsePost {
    pub status: String,
    pub data: TodoData,
}

impl View for ResponsePost {
    type V = ResponsePostView;

    open spec fn view(&self) -> ResponsePostView {
        ResponsePostView { status: self.status@, data: self.data@ }
    }
}

/// Which concurrency substrate the dispatcher runs on: a multi-threaded
/// native host, or a cooperative single-threaded host.
#[derive(Clone, Copy, PartialEq, Eq, Structural, Debug)]
pub enum Host {
    Native,
    Web,
}

/// The transport-failure error a host reports.
pub open spec fn transport_err_view(h: Host, m: Seq<char>) -> ApiErrorView {
    match h {
        Host::Native => ApiErrorView::SendRequestError(m),
        Host::Web => ApiErrorView::WebRequestError(m),
    }
}

/// Wraps a transport-level cause in the host's transport error.
pub fn transport_error(host: Host, cause: String) -> (r: ApiError)
    ensures
        r@ == transport_err_view(host, cause@),
{
    match host {
        Host::Native => ApiError::SendRequestError(cause),
        Host::Web => ApiError::WebRequestError(cause),
    }
}

/// The diagnostic for a body that is not a wire envelope.
fn decode_error(host: Host) -> (r: ApiError)
    ensures
        r@ == transport_err_view(host, ("failed to decode response body")@),
{
    transport_error(host, String::from_str("failed to decode response body"))
}

/// Turns the transport outcome of a fetch into its one tagged result: the
/// decoded todos on a wire-form body, a transport error on a failed exchange,
/// a decode error otherwise. Exactly one list-tagged result is produced for
/// every reachable transport condition; no failure is dropped.
pub fn fetch_outcome(host: Host, transport: Result<String, String>) -> (r: ResponseData)
    ensures
        r@ is GetResponse,
        match transport {
            Ok(body) => {
                &&& forall|e: ResponseTodosView|
                    e.wf() && body@ == #[trigger] list_env_chars(e) ==> r@
                        == ResponseDataView::GetResponse(Ok(e.todos))
                &&& (forall|e: ResponseTodosView| e.wf() ==> body@ != #[trigger] list_env_chars(e))
                    ==> r@ == ResponseDataView::GetResponse(
                    Err(transport_err_view(host, ("failed to decode response body")@)),
                )
            },
            Err(m) => r@ == ResponseDataView::GetResponse(Err(transport_err_view(host, m@))),
        },
{
    match transport {
        Ok(body) => match decode_list_body(body.as_str()) {
            Some(env) => ResponseData::GetResponse(Ok(env.todos)),
            None => ResponseData::GetResponse(Err(decode_error(host))),
        },
        Err(m) => ResponseData::GetResponse(Err(transport_error(host, m))),
    }
}

/// Turns the transport outcome of a create into its one tagged result: the
/// server's todo when the envelope's status is `success`, a `BadRequest` on
/// any other status, a transport or decode error otherwise.
pub fn create_outcome(host: Host, transport: Result<String, String>) -> (r: ResponseData)
    ensures
        r@ is PostResponse,
        match transport {
            Ok(body) => {
                &&& forall|e: ResponsePostView|
                    e.wf() && body@ == #[trigger] post_env_chars(e) ==> r@
                        == ResponseDataView::PostResponse(
                        if e.status == ("success")@ {
                            Ok(e.data.todo)
                        } else {
                            Err(ApiErrorView::BadRequest(("Unknown error")@))
                        },
                    )
                &&& (forall|e: ResponsePostView| e.wf() ==> body@ != #[trigger] post_env_chars(e))
                    ==> r@ == ResponseDataView::PostResponse(
                    Err(transport_err_view(host, ("failed to decode response body")@)),
                )
            },
            Err(m) => r@ == ResponseDataView::PostResponse(Err(transport_err_view(host, m@))),
        },
{
    match transport {
        Ok(body) => match decode_post_body(body.as_str()) {
            Some(env) => {
                let success = String::from_str("success");
                if env.status == success {
                    ResponseData::PostResponse(Ok(env.data.todo))
                } else {
                    ResponseData::PostResponse(
                        Err(ApiError::BadRequest(String::from_str("Unknown error"))),
                    )
                }
            },
            None => ResponseData::PostResponse(Err(decode_error(host))),
        },
        Err(m) => ResponseData::PostResponse(Err(transport_error(host, m))),
    }
}

} // verus!
