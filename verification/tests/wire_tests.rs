use todo_client::api::{
    create_outcome, fetch_outcome, transport_error, ApiError, Host, ResponseData, ResponsePost,
    ResponseTodos, TodoData,
};
use todo_client::channel::ResultQueue;
use todo_client::decode::{decode_list_body, decode_post_body};
use todo_client::encode::{encode_list_response, encode_post_response, encode_todo};
use todo_client::todos::{Timestamp, Todo};

fn fresh_todo(title: &str, content: &str) -> Todo {
    Todo::new(title, content)
}

#[test]
fn new_todo_has_only_title_and_content() {
    let t = fresh_todo("buy milk", "2%");
    assert_eq!(t.title, "buy milk");
    assert_eq!(t.content, "2%");
    assert!(t.id.is_none());
    assert!(t.completed.is_none());
    assert!(t.createdAt.is_none());
    assert!(t.updatedAt.is_none());
}

#[test]
fn encode_fresh_todo_exact() {
    let t = fresh_todo("buy milk", "2%");
    assert_eq!(encode_todo(&t), "{\"title\":\"buy milk\",\"content\":\"2%\"}");
}

#[test]
fn encode_full_todo_exact() {
    let ts = Timestamp::new(2023, 1, 2, 3, 4, 5).unwrap();
    let t = Todo {
        id: Some("42".to_string()),
        title: "a".to_string(),
        content: "b".to_string(),
        completed: Some(true),
        createdAt: Some(ts),
        updatedAt: None,
    };
    assert_eq!(
        encode_todo(&t),
        "{\"id\":\"42\",\"title\":\"a\",\"content\":\"b\",\"completed\":true,\"createdAt\":\"2023-01-02T03:04:05Z\"}"
    );
}

fn assert_todo_eq(a: &Todo, b: &Todo) {
    assert_eq!(a.id, b.id);
    assert_eq!(a.title, b.title);
    assert_eq!(a.content, b.content);
    assert_eq!(a.completed, b.completed);
    assert_eq!(a.createdAt, b.createdAt);
    assert_eq!(a.updatedAt, b.updatedAt);
}

#[test]
fn round_trip_single_envelope() {
    let ts = Timestamp::new(2024, 2, 29, 23, 59, 58).unwrap();
    let todo = Todo {
        id: Some("id-1".to_string()),
        title: "quote \" and backslash \\ stay".to_string(),
        content: "plain".to_string(),
        completed: Some(false),
        createdAt: Some(ts),
        updatedAt: Some(ts),
    };
    let env = ResponsePost {
        status: "success".to_string(),
        data: TodoData { todo: todo.clone() },
    };
    let wire = encode_post_response(&env);
    let back = decode_post_body(&wire).expect("canonical wire form must decode");
    assert_eq!(back.status, "success");
    assert_todo_eq(&back.data.todo, &todo);
}

#[test]
fn round_trip_list_envelope() {
    let a = fresh_todo("a", "x");
    let b = Todo {
        id: Some("7".to_string()),
        title: "b".to_string(),
        content: "y".to_string(),
        completed: Some(true),
        createdAt: None,
        updatedAt: None,
    };
    let env = ResponseTodos {
        status: "success".to_string(),
        results: 2,
        todos: vec![a.clone(), b.clone()],
    };
    let wire = encode_list_response(&env);
    let back = decode_list_body(&wire).expect("canonical wire form must decode");
    assert_eq!(back.status, "success");
    assert_eq!(back.results, 2);
    assert_eq!(back.todos.len(), 2);
    assert_todo_eq(&back.todos[0], &a);
    assert_todo_eq(&back.todos[1], &b);
}

#[test]
fn round_trip_empty_list() {
    let env = ResponseTodos {
        status: "success".to_string(),
        results: 0,
        todos: vec![],
    };
    let wire = encode_list_response(&env);
    assert_eq!(wire, "{\"status\":\"success\",\"results\":0,\"todos\":[]}");
    let back = decode_list_body(&wire).expect("canonical wire form must decode");
    assert_eq!(back.todos.len(), 0);
}

#[test]
fn fetch_mock_two_todos() {
    let body = "{\"status\":\"success\",\"results\":2,\"todos\":[{\"title\":\"a\",\"content\":\"x\"},{\"title\":\"b\",\"content\":\"y\"}]}";
    match fetch_outcome(Host::Native, Ok(body.to_string())) {
        ResponseData::GetResponse(Ok(todos)) => {
            assert_eq!(todos.len(), 2);
            assert_eq!(todos[0].title, "a");
            assert_eq!(todos[0].content, "x");
            assert_eq!(todos[1].title, "b");
            assert_eq!(todos[1].content, "y");
        }
        other => panic!("expected a list success, got {:?}", other),
    }
}

#[test]
fn create_mock_success_carries_server_todo() {
    let input = fresh_todo("buy milk", "2%");
    assert_eq!(encode_todo(&input), "{\"title\":\"buy milk\",\"content\":\"2%\"}");
    let body = "{\"status\":\"success\",\"data\":{\"todo\":{\"id\":\"42\",\"title\":\"buy milk\",\"content\":\"2%\",\"completed\":false}}}";
    match create_outcome(Host::Native, Ok(body.to_string())) {
        ResponseData::PostResponse(Ok(todo)) => {
            assert_eq!(todo.id.as_deref(), Some("42"));
            assert_eq!(todo.title, "buy milk");
            assert_eq!(todo.content, "2%");
            assert_eq!(todo.completed, Some(false));
        }
        other => panic!("expected a create success, got {:?}", other),
    }
}

#[test]
fn create_non_success_status_is_bad_request() {
    for status in ["fail", "error", ""] {
        let body = format!(
            "{{\"status\":\"{}\",\"data\":{{\"todo\":{{\"title\":\"t\",\"content\":\"c\"}}}}}}",
            status
        );
        match create_outcome(Host::Native, Ok(body)) {
            ResponseData::PostResponse(Err(ApiError::BadRequest(m))) => {
                assert_eq!(m, "Unknown error");
            }
            other => panic!("expected a bad request, got {:?}", other),
        }
    }
}

#[test]
fn transport_failure_is_send_request_error() {
    match fetch_outcome(Host::Native, Err("connection refused".to_string())) {
        ResponseData::GetResponse(Err(ApiError::SendRequestError(m))) => {
            assert_eq!(m, "connection refused");
        }
        other => panic!("expected a transport error, got {:?}", other),
    }
    match create_outcome(Host::Native, Err("unreachable host".to_string())) {
        ResponseData::PostResponse(Err(ApiError::SendRequestError(m))) => {
            assert_eq!(m, "unreachable host");
        }
        other => panic!("expected a transport error, got {:?}", other),
    }
}

#[test]
fn web_host_reports_web_request_error() {
    match fetch_outcome(Host::Web, Err("connection refused".to_string())) {
        ResponseData::GetResponse(Err(ApiError::WebRequestError(m))) => {
            assert_eq!(m, "connection refused");
        }
        other => panic!("expected a web transport error, got {:?}", other),
    }
    match transport_error(Host::Web, "x".to_string()) {
        ApiError::WebRequestError(m) => assert_eq!(m, "x"),
        other => panic!("expected a web transport error, got {:?}", other),
    }
}

#[test]
fn undecodable_body_is_reported_not_dropped() {
    for body in ["", "not json", "{\"status\":\"success\"", "{\"status\":\"success\",\"results\":01,\"todos\":[]}"] {
        match fetch_outcome(Host::Native, Ok(body.to_string())) {
            ResponseData::GetResponse(Err(ApiError::SendRequestError(_))) => {}
            other => panic!("expected a decode failure report, got {:?}", other),
        }
        match create_outcome(Host::Native, Ok(body.to_string())) {
            ResponseData::PostResponse(Err(ApiError::SendRequestError(_))) => {}
            other => panic!("expected a decode failure report, got {:?}", other),
        }
    }
}

#[test]
fn decode_rejects_trailing_garbage() {
    assert!(decode_list_body("{\"status\":\"s\",\"results\":0,\"todos\":[]}x").is_none());
    assert!(decode_post_body("{\"status\":\"s\",\"data\":{\"todo\":{\"title\":\"t\",\"content\":\"c\"}}}x").is_none());
}

#[test]
fn decode_rejects_number_overflow() {
    assert!(decode_list_body("{\"status\":\"s\",\"results\":99999999999,\"todos\":[]}").is_none());
}

#[test]
fn timestamp_validity() {
    assert!(Timestamp::new(2024, 2, 29, 0, 0, 0).is_some());
    assert!(Timestamp::new(2023, 2, 29, 0, 0, 0).is_none());
    assert!(Timestamp::new(2000, 2, 29, 0, 0, 0).is_some());
    assert!(Timestamp::new(1900, 2, 29, 0, 0, 0).is_none());
    assert!(Timestamp::new(2023, 13, 1, 0, 0, 0).is_none());
    assert!(Timestamp::new(2023, 12, 31, 23, 59, 59).is_some());
    assert!(Timestamp::new(2023, 12, 31, 24, 0, 0).is_none());
}

#[test]
fn timestamp_bad_calendar_day_fails_decode() {
    let body = "{\"status\":\"s\",\"data\":{\"todo\":{\"title\":\"t\",\"content\":\"c\",\"createdAt\":\"2023-02-29T00:00:00Z\"}}}";
    assert!(decode_post_body(body).is_none());
}

#[test]
fn queue_delivers_in_completion_order() {
    let mut q = ResultQueue::new();
    assert_eq!(q.len(), 0);
    assert!(q.try_recv().is_none());
    q.send(fetch_outcome(Host::Native, Err("a".to_string())));
    q.send(create_outcome(Host::Native, Err("b".to_string())));
    assert_eq!(q.len(), 2);
    match q.try_recv() {
        Some(ResponseData::GetResponse(Err(ApiError::SendRequestError(m)))) => assert_eq!(m, "a"),
        other => panic!("expected the first result, got {:?}", other),
    }
    match q.try_recv() {
        Some(ResponseData::PostResponse(Err(ApiError::SendRequestError(m)))) => assert_eq!(m, "b"),
        other => panic!("expected the second result, got {:?}", other),
    }
    assert!(q.try_recv().is_none());
}

#[test]
fn one_dispatch_one_result() {
    let mut q = ResultQueue::new();
    let before = q.len();
    q.send(fetch_outcome(Host::Native, Ok("{\"status\":\"s\",\"results\":0,\"todos\":[]}".to_string())));
    assert_eq!(q.len(), before + 1);
    match q.try_recv() {
        Some(ResponseData::GetResponse(_)) => {}
        other => panic!("expected exactly one list outcome, got {:?}", other),
    }
    assert!(q.try_recv().is_none());
}

#[test]
fn escaped_title_round_trips() {
    let t = fresh_todo("say \"hi\" \\ now", "c");
    let env = ResponsePost {
        status: "success".to_string(),
        data: TodoData { todo: t.clone() },
    };
    let wire = encode_post_response(&env);
    let back = decode_post_body(&wire).expect("escaped strings must round trip");
    assert_eq!(back.data.todo.title, t.title);
}
