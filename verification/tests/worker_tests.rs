use webserv_rs::content_type::ContentType;
use webserv_rs::mock::TcpStreamMock;
use webserv_rs::request::Request;
use webserv_rs::response::Response;
use webserv_rs::worker::Worker;

const EXPECTED: &str = "POST / HTTP/1.1\r\nHost: 127.0.0.1:8080\r\nAccept: */*\r\nAccept-Encoding: gzip, deflate\r\nUser-Agent: Python/3.12 aiohttp/3.11.16\r\nContent-Length: 11\r\nContent-Type: application/octet-stream\r\n\r\nHello World";

fn regular_packet() -> Vec<Vec<u8>> {
    vec![EXPECTED.as_bytes().to_vec()]
}

fn chunked_packet() -> Vec<Vec<u8>> {
    vec![
        b"POST / HTTP/1.1\r\nHost: 127.0.0.1:8080\r\nAccept: */*\r\nAccept-Encoding: gzip, deflate\r\nUser-Agent: Python/3.12 aiohttp/3.11.16\r\nContent-Type: application/octet-stream\r\nTransfer-Encoding: chunked\r\n\r\n".to_vec(),
        b"5\r\nHello\r\n".to_vec(),
        b"5\r\nWorld\r\n".to_vec(),
        b"4\r\nfrom\r\n".to_vec(),
        b"3\r\nthe\r\n".to_vec(),
        b"3\r\nsky\r\n0\r\n\r\n".to_vec(),
    ]
}

fn get_worker(data: Vec<Vec<u8>>) -> Worker<TcpStreamMock> {
    let socket = TcpStreamMock::new(data);
    Worker::new(socket, "127.0.0.1:8080".to_string())
}

fn handle_client_mock(request: Request) -> Response {
    Response::new(200, request.as_bytes(), vec![], ContentType::TextHtml)
}

#[test]
fn it_should_parse_request_body() {
    let mut worker = get_worker(regular_packet());
    worker.run(handle_client_mock);

    let request = String::from_utf8_lossy(&worker.socket.receive).into_owned();
    let mut request_splits = request.split("\r\n\r\n");
    let _response_header = request_splits.next().unwrap();
    let request_header = request_splits.next().unwrap();
    let request_body = request_splits.next().unwrap();

    let mut expected_splits = EXPECTED.split("\r\n\r\n");
    let expected_header = expected_splits.next().unwrap();
    let expected_body = expected_splits.next().unwrap();

    assert_eq!(request_body, expected_body);
    for header in request_header.split("\r\n").into_iter() {
        assert!(expected_header.contains(&header));
    }
}

#[test]
fn it_should_parse_request_chunked_body() {
    let mut worker = get_worker(chunked_packet());
    worker.run(handle_client_mock);

    let request = String::from_utf8_lossy(&worker.socket.receive).into_owned();
    let mut request_splits = request.split("\r\n\r\n");
    request_splits.next().unwrap();
    request_splits.next().unwrap();
    let request_body = request_splits.next().unwrap();

    assert_eq!(request_body, "HelloWorldfromthesky");
}

#[test]
fn fixed_length_body_survives_byte_at_a_time_delivery() {
    let fragments: Vec<Vec<u8>> = EXPECTED.as_bytes().iter().map(|b| vec![*b]).collect();
    let mut worker = get_worker(fragments);
    let request = worker.get_request().unwrap().unwrap();
    assert_eq!(request.method, "POST");
    assert_eq!(request.uri, "/");
    assert_eq!(request.version, "HTTP/1.1");
    assert_eq!(request.body, b"Hello World".to_vec());
}

#[test]
fn chunked_body_survives_arbitrary_splits() {
    // one whole message, split at every possible position into two reads
    let header = b"POST / HTTP/1.1\r\nTransfer-Encoding: chunked\r\n\r\n".to_vec();
    let body = b"5\r\nHello\r\n6\r\n World\r\n0\r\n\r\n".to_vec();
    let mut wire = header.clone();
    wire.extend_from_slice(&body);
    for split in 0..=wire.len() {
        let first = wire[..split].to_vec();
        let second = wire[split..].to_vec();
        let mut worker = get_worker(vec![first, second]);
        let request = worker.get_request().unwrap().unwrap();
        assert_eq!(request.body, b"Hello World".to_vec());
    }
}

#[test]
fn body_contained_in_header_read_issues_no_further_read() {
    // the whole first request arrives with the header; a second request's
    // bytes sit unread in the stream
    let second = b"GET /next HTTP/1.1\r\n\r\n".to_vec();
    let mut worker = get_worker(vec![EXPECTED.as_bytes().to_vec(), second.clone()]);
    let request = worker.get_request().unwrap().unwrap();
    assert_eq!(request.body, b"Hello World".to_vec());
    // the second fragment was never read
    assert_eq!(worker.socket.data.len(), 1);
    assert_eq!(worker.socket.data[0], second);
}

#[test]
fn pipelined_requests_keep_their_leftover_bytes() {
    // two requests delivered in one read: the first has no body, so every
    // byte after its blank line belongs to the second
    let wire = b"GET / HTTP/1.1\r\nHost: a\r\n\r\nPOST /data HTTP/1.1\r\nContent-Length: 3\r\n\r\nabc".to_vec();
    let mut worker = get_worker(vec![wire]);
    let first = worker.get_request().unwrap().unwrap();
    assert_eq!(first.method, "GET");
    assert_eq!(first.body, Vec::<u8>::new());
    let second = worker.get_request().unwrap().unwrap();
    assert_eq!(second.method, "POST");
    assert_eq!(second.uri, "/data");
    assert_eq!(second.body, b"abc".to_vec());
    // nothing left on the connection
    let third = worker.get_request().unwrap();
    assert!(third.is_none());
}

#[test]
fn chunked_request_carries_leftover_to_next_request() {
    let wire = b"POST / HTTP/1.1\r\nTransfer-Encoding: chunked\r\n\r\n3\r\nabc\r\n0\r\n\r\nGET /after HTTP/1.1\r\n\r\n".to_vec();
    let mut worker = get_worker(vec![wire]);
    let first = worker.get_request().unwrap().unwrap();
    assert_eq!(first.body, b"abc".to_vec());
    let second = worker.get_request().unwrap().unwrap();
    assert_eq!(second.method, "GET");
    assert_eq!(second.uri, "/after");
}

#[test]
fn oversized_content_length_rejected_without_reading_body() {
    let header = b"POST / HTTP/1.1\r\nContent-Length: 2000000\r\n\r\n".to_vec();
    let pending = vec![65u8; 100];
    let mut worker = get_worker(vec![header, pending.clone()]);
    let err = worker.get_request().unwrap_err();
    assert_eq!(err, webserv_rs::http_error::HttpError::Error413);
    assert_eq!(err.status_code(), 413);
    // the body bytes were never requested from the socket
    assert_eq!(worker.socket.data.len(), 1);
    assert_eq!(worker.socket.data[0], pending);
}

#[test]
fn transfer_encoding_without_chunked_token_rejected() {
    // gzip alone cannot frame the body; and a value merely containing the
    // letters of the token does not announce chunked framing
    for te in ["gzip", "chunkedness"] {
        let wire = format!(
            "POST / HTTP/1.1\r\nTransfer-Encoding: {}\r\n\r\n3\r\nabc\r\n0\r\n\r\n",
            te
        )
        .into_bytes();
        let mut worker = get_worker(vec![wire]);
        let err = worker.get_request().unwrap_err();
        assert_eq!(err, webserv_rs::http_error::HttpError::Error400);
    }
}

#[test]
fn unrecognized_content_encoding_rejected() {
    let wire = b"POST / HTTP/1.1\r\nContent-Length: 3\r\nContent-Encoding: br\r\n\r\nabc".to_vec();
    let mut worker = get_worker(vec![wire]);
    let err = worker.get_request().unwrap_err();
    assert_eq!(err, webserv_rs::http_error::HttpError::Error415);
    assert_eq!(err.status_code(), 415);
}

#[test]
fn bad_chunk_size_yields_parse_error_status_500() {
    let wire = b"POST / HTTP/1.1\r\nTransfer-Encoding: chunked\r\n\r\nxyz\r\nabc\r\n0\r\n\r\n".to_vec();
    let mut worker = get_worker(vec![wire]);
    let err = worker.get_request().unwrap_err();
    assert_eq!(err, webserv_rs::http_error::HttpError::ErrorParsingChunkSize);
    assert_eq!(err.status_code(), 500);
}

#[test]
fn malformed_request_line_rejected() {
    let wire = b"GET /\r\nHost: a\r\n\r\n".to_vec();
    let mut worker = get_worker(vec![wire]);
    let err = worker.get_request().unwrap_err();
    assert_eq!(err, webserv_rs::http_error::HttpError::Error400);
    assert_eq!(err.status_code(), 400);
}

#[test]
fn oversized_header_block_rejected() {
    // headers keep coming without a blank line: the worker gives up with a
    // 400 once the accumulated block passes the maximum header size
    let mut wire = b"GET / HTTP/1.1\r\n".to_vec();
    while wire.len() <= 17_000 {
        wire.extend_from_slice(b"X-Padding: aaaaaaaaaaaaaaaaaaaaaaaaaaaaaaaaaaaaaaaa\r\n");
    }
    let mut worker = get_worker(vec![wire]);
    let err = worker.get_request().unwrap_err();
    assert_eq!(err, webserv_rs::http_error::HttpError::Error400);
}

#[test]
fn clean_close_without_request() {
    let mut worker = get_worker(vec![]);
    let r = worker.get_request().unwrap();
    assert!(r.is_none());
}

#[test]
fn error_response_is_written_and_closes_connection() {
    // malformed request line: the worker must write a 400 response
    let wire = b"BADREQUEST\r\n\r\n".to_vec();
    let mut worker = get_worker(vec![wire]);
    worker.run(handle_client_mock);
    let sent = String::from_utf8_lossy(&worker.socket.receive).into_owned();
    assert!(sent.starts_with("HTTP/1.1 400 Bad Request\r\n"));
}
