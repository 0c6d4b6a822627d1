use range_downloader::application::{
    get_addr, get_hash, get_manager, Application, ArgumentError, ManagerType,
};
use range_downloader::client::{
    check_response, discovery_request, parse_content_length, range_request,
};
use range_downloader::http_messages::{HttpRequest, HttpRequestMethod, HttpResponse, Path};
use range_downloader::serialize::Serialize;

#[test]
fn test1() {
    let mut request = HttpRequest::new(HttpRequestMethod::GET, Path::default(), "HTTP/1.1");

    request.add_header("Host", "127.0.0.1:8080");
    request.add_header("User-Agent", "Rust-Client/1.0");
    request.add_header("Connection", "close");

    println!("{:?}", request.serialize());
}

#[test]
fn test_serialize_bytes() {
    let mut request = HttpRequest::new(HttpRequestMethod::GET, Path::default(), "HTTP/1.1");
    request.add_header("Host", "127.0.0.1:8080");

    let bytes = request.serialize();
    let expected = b"GET / HTTP/1.1\r\nHost: 127.0.0.1:8080\r\n\r\n".to_vec();
    assert_eq!(bytes, expected);
}

#[test]
fn test_deserialize_response() {
    let raw = b"HTTP/1.1 206 Partial\r\nContent-Length: 100\r\n\r\nBODY".to_vec();
    let response = HttpResponse::desrialize(raw).unwrap();

    assert_eq!(response.protocol, "HTTP/1.1");
    assert_eq!(response.result, 206);
    assert_eq!(response.result_string, "Partial");
    assert_eq!(response.body, b"BODY".to_vec());

    let value = response.get_header("Content-Length").unwrap();
    assert_eq!(value.value, " 100");
}

#[test]
fn test_deserialize_round_trip() {
    let mut message = HttpResponse::new(200, "OK", "HTTP/1.1");
    message.add_header("Server", "demo");
    message.body = b"payload".to_vec();

    let bytes = message.serialize();
    let parsed = HttpResponse::desrialize(bytes).unwrap();

    assert_eq!(parsed.protocol, "HTTP/1.1");
    assert_eq!(parsed.result, 200);
    assert_eq!(parsed.result_string, "OK");
    assert_eq!(parsed.body, b"payload".to_vec());
    assert_eq!(parsed.get_header("Server").unwrap().value, " demo");
}

#[test]
fn test_deserialize_rejects_garbage() {
    assert!(HttpResponse::desrialize(b"HTTP/1.1".to_vec()).is_err());
    assert!(HttpResponse::desrialize(b"HTTP/1.1 2x0 OK\r\n\r\n".to_vec()).is_err());
    assert!(HttpResponse::desrialize(b"HTTP/1.1 99999 OK\r\n\r\n".to_vec()).is_err());
    assert!(HttpResponse::desrialize(b"HTTP/1.1 200 OK\r\nno empty line".to_vec()).is_err());
}

#[test]
fn test_check_response_ok() {
    let mut response = HttpResponse::new(206, "Partial", "HTTP/1.1");
    response.body = vec![1, 2, 3];
    let (body, len) = check_response(response).unwrap();
    assert_eq!(body, vec![1, 2, 3]);
    assert_eq!(len, 3);
}

#[test]
fn test_check_response_errors() {
    let mut bad_status = HttpResponse::new(500, "Oops", "HTTP/1.1");
    bad_status.body = vec![1];
    assert!(check_response(bad_status).is_err());

    let empty_body = HttpResponse::new(200, "OK", "HTTP/1.1");
    assert!(check_response(empty_body).is_err());
}

#[test]
fn test_parse_content_length() {
    assert_eq!(parse_content_length(" 100"), Some(100));
    assert_eq!(parse_content_length("100"), Some(100));
    assert_eq!(parse_content_length("len: 42 bytes"), Some(42));
    // The longest run of digits wins, not all digits concatenated.
    assert_eq!(parse_content_length("12 3"), Some(12));
    assert_eq!(parse_content_length("1 234"), Some(234));
    assert_eq!(parse_content_length("no digits"), None);
    assert_eq!(parse_content_length(""), None);
}

#[test]
fn test_discovery_request_shape() {
    let request = discovery_request("127.0.0.1:8080");
    assert_eq!(request.protocol, "HTTP/1.1");
    assert_eq!(request.request_target.path, "/");
    assert_eq!(request.headers.len(), 3);
    assert_eq!(request.headers[0].0.name, "Host");
    assert_eq!(request.headers[0].1.value, "127.0.0.1:8080");
    assert_eq!(request.headers[2].0.name, "Connection");
    assert_eq!(request.headers[2].1.value, "close");
}

#[test]
fn test_range_request_header() {
    let request = range_request("127.0.0.1:8080", (10, 20));
    assert_eq!(request.headers[2].0.name, "Range");
    assert_eq!(request.headers[2].1.value, "bytes=10-20");
}

#[test]
fn test_get_addr() {
    let args: Vec<String> = vec!["prog", "--addr", "127.0.0.1:8080"]
        .into_iter()
        .map(|s| s.to_string())
        .collect();
    assert_eq!(get_addr(&args).unwrap(), "127.0.0.1:8080");

    let missing: Vec<String> = vec!["prog".to_string()];
    assert_eq!(get_addr(&missing), Err(ArgumentError::MissingValue));
}

#[test]
fn test_get_hash_and_manager() {
    let args: Vec<String> = vec!["prog", "--manager", "random_manager", "--hash", "abc123"]
        .into_iter()
        .map(|s| s.to_string())
        .collect();
    assert_eq!(get_hash(&args).unwrap(), "abc123");
    assert_eq!(get_manager(&args).unwrap(), ManagerType::RandomManager);

    let unknown: Vec<String> = vec!["prog", "--manager", "clever_manager"]
        .into_iter()
        .map(|s| s.to_string())
        .collect();
    assert_eq!(get_manager(&unknown), Err(ArgumentError::NoSuchManager));
}

#[test]
fn test_application() {
    let app = Application::new(
        "127.0.0.1:8080".to_string(),
        "basic_manager".to_string(),
        "cafe".to_string(),
    )
    .unwrap();
    assert_eq!(app.manager_type, ManagerType::BasicManager);
    assert!(app.check_hash(&"cafe".to_string()));
    assert!(!app.check_hash(&"beef".to_string()));

    assert!(matches!(
        Application::new("a".to_string(), "no_manager".to_string(), "h".to_string()),
        Err(ArgumentError::NoSuchManager)
    ));
}
