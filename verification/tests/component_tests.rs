use std::io::Write;

use webserv_rs::chunk_handler::ChunkHandler;
use webserv_rs::content_type::ContentType;
use webserv_rs::encoding::{uncompress, Encoding};
use webserv_rs::http_error::HttpError;
use webserv_rs::mock::TcpStreamMock;
use webserv_rs::request::{is_chunked_value, Request};
use webserv_rs::response::{u64_to_string, Response};
use webserv_rs::worker::{get_double_crcn_index, get_encoding, Worker};

#[test]
fn request_parses_line_and_headers() {
    let req = Request::new(
        "POST /index.html HTTP/1.1\r\nHost: example.org\r\nContent-Length: 42\r\njunk line\r\nX-Multi: a, b: c",
    )
    .unwrap();
    assert_eq!(req.method, "POST");
    assert_eq!(req.uri, "/index.html");
    assert_eq!(req.version, "HTTP/1.1");
    assert_eq!(req.get_value("Host"), Some("example.org"));
    assert_eq!(req.get_value("Content-Length"), Some("42"));
    // split is on the first colon; the rest of the line is the value
    assert_eq!(req.get_value("X-Multi"), Some("a, b: c"));
    // lines without a colon are ignored
    assert_eq!(req.get_value("junk line"), None);
    assert_eq!(req.get_content_length(), Some(42));
    assert!(req.is_body());
    assert!(!req.is_chunked());
}

#[test]
fn request_line_needs_three_tokens() {
    assert!(matches!(Request::new("GET /\r\n"), Err(HttpError::Error400)));
    assert!(matches!(Request::new(""), Err(HttpError::Error400)));
    assert!(Request::new("GET / HTTP/1.1").is_ok());
}

#[test]
fn content_length_must_be_a_plain_decimal() {
    let bad = Request::new("POST / HTTP/1.1\r\nContent-Length: 12a\r\n").unwrap();
    assert!(bad.is_body());
    assert_eq!(bad.get_content_length(), None);
    let neg = Request::new("POST / HTTP/1.1\r\nContent-Length: -1\r\n").unwrap();
    assert_eq!(neg.get_content_length(), None);
    let none = Request::new("GET / HTTP/1.1\r\nHost: a\r\n").unwrap();
    assert_eq!(none.get_content_length(), None);
    assert!(!none.is_body());
}

#[test]
fn chunked_detection_follows_the_header_value() {
    let plain = Request::new("POST / HTTP/1.1\r\nTransfer-Encoding: chunked\r\n").unwrap();
    assert!(plain.is_chunked());
    let cased = Request::new("POST / HTTP/1.1\r\nTransfer-Encoding: CHUNKED\r\n").unwrap();
    assert!(cased.is_chunked());
    let listed = Request::new("POST / HTTP/1.1\r\nTransfer-Encoding: gzip, chunked\r\n").unwrap();
    assert!(listed.is_chunked());
    let gzip_only = Request::new("POST / HTTP/1.1\r\nTransfer-Encoding: gzip\r\n").unwrap();
    assert!(!gzip_only.is_chunked());
    assert!(gzip_only.is_body());
}

#[test]
fn request_as_bytes_round_trips_head_and_body() {
    let mut req = Request::new("POST /p HTTP/1.1\r\nHost: h\r\n").unwrap();
    req.body = b"xyz".to_vec();
    let bytes = req.as_bytes();
    assert_eq!(bytes, b"POST /p HTTP/1.1\r\nHost: h\r\n\r\nxyz".to_vec());
    let no_body = Request::new("GET / HTTP/1.1\r\nHost: h\r\n").unwrap();
    assert_eq!(no_body.as_bytes(), b"GET / HTTP/1.1\r\nHost: h\r\n".to_vec());
}

#[test]
fn chunk_handler_decodes_the_concrete_scenario() {
    let mut handler = ChunkHandler::new(b"").unwrap();
    for part in [
        b"5\r\nHello\r\n".as_slice(),
        b"5\r\nWorld\r\n".as_slice(),
        b"4\r\nfrom\r\n".as_slice(),
        b"3\r\nthe\r\n".as_slice(),
        b"3\r\nsky\r\n0\r\n\r\n".as_slice(),
    ] {
        assert!(!handler.is_body_ready());
        handler.parse_chunks(part).unwrap();
    }
    assert!(handler.is_body_ready());
    assert_eq!(handler.body, b"HelloWorldfromthesky".to_vec());
    assert_eq!(handler.leftover, Vec::<u8>::new());
}

#[test]
fn chunk_handler_is_split_insensitive_and_keeps_leftover() {
    let wire = b"5\r\nHello\r\n6\r\n World\r\n0\r\n\r\nNEXT REQUEST";
    for split in 0..=wire.len() {
        let mut handler = ChunkHandler::new(&wire[..split]).unwrap();
        handler.parse_chunks(&wire[split..]).unwrap();
        assert!(handler.is_body_ready());
        assert_eq!(handler.body, b"Hello World".to_vec());
        assert_eq!(handler.leftover, b"NEXT REQUEST".to_vec());
    }
}

#[test]
fn chunk_size_parse_failures() {
    // not a number
    let err = ChunkHandler::new(b"5x\r\nHello\r\n").unwrap_err();
    assert_eq!(err, HttpError::ErrorParsingChunkSize);
    // a failure never disturbs what was already accumulated
    let mut handler = ChunkHandler::new(b"3\r\nabc\r\n").unwrap();
    let err = handler.parse_chunks(b"zz\r\n").unwrap_err();
    assert_eq!(err, HttpError::ErrorParsingChunkSize);
    assert_eq!(handler.body, b"abc".to_vec());
    // empty size line
    let err = ChunkHandler::new(b"\r\n").unwrap_err();
    assert_eq!(err, HttpError::ErrorParsingChunkSize);
    // missing CRLF after the chunk data
    let err = ChunkHandler::new(b"3\r\nabcXX").unwrap_err();
    assert_eq!(err, HttpError::Error400);
}

#[test]
fn gzip_round_trip_through_the_pipeline() {
    let payload = b"Hello compressed world".to_vec();
    let mut enc = flate2::write::GzEncoder::new(Vec::new(), flate2::Compression::default());
    enc.write_all(&payload).unwrap();
    let compressed = enc.finish().unwrap();

    let direct = uncompress(&compressed, Encoding::Gzip).unwrap();
    assert_eq!(direct, payload);

    let mut wire = format!(
        "POST / HTTP/1.1\r\nContent-Length: {}\r\nContent-Encoding: gzip\r\n\r\n",
        compressed.len()
    )
    .into_bytes();
    wire.extend_from_slice(&compressed);
    let socket = TcpStreamMock::new(vec![wire]);
    let mut worker = Worker::new(socket, "peer".to_string());
    let request = worker.get_request().unwrap().unwrap();
    assert_eq!(request.body, payload);
}

#[test]
fn deflate_round_trip_through_the_pipeline() {
    let payload = b"deflated bytes".to_vec();
    let mut enc = flate2::write::DeflateEncoder::new(Vec::new(), flate2::Compression::default());
    enc.write_all(&payload).unwrap();
    let compressed = enc.finish().unwrap();

    let direct = uncompress(&compressed, Encoding::Deflate).unwrap();
    assert_eq!(direct, payload);

    let mut wire = format!(
        "POST / HTTP/1.1\r\nContent-Length: {}\r\nContent-Encoding: deflate\r\n\r\n",
        compressed.len()
    )
    .into_bytes();
    wire.extend_from_slice(&compressed);
    let socket = TcpStreamMock::new(vec![wire]);
    let mut worker = Worker::new(socket, "peer".to_string());
    let request = worker.get_request().unwrap().unwrap();
    assert_eq!(request.body, payload);
}

#[test]
fn corrupt_gzip_is_an_internal_error() {
    let err = uncompress(b"not a gzip stream", Encoding::Gzip).unwrap_err();
    assert_eq!(err, HttpError::Error500);
}

#[test]
fn response_round_trips_through_the_request_parser() {
    let resp = Response::new(
        200,
        b"Hello World".to_vec(),
        vec![("X-Custom".to_string(), "yes".to_string())],
        ContentType::TextHtml,
    );
    let bytes = resp.as_bytes();
    let text = String::from_utf8(bytes).unwrap();
    let (head, body) = text.split_once("\r\n\r\n").unwrap();
    assert_eq!(body, "Hello World");
    let parsed = Request::new(head).unwrap();
    // the status line re-parses as the three tokens of a request line
    assert_eq!(parsed.method, "HTTP/1.1");
    assert_eq!(parsed.uri, "200");
    assert_eq!(parsed.version, "OK");
    assert_eq!(parsed.get_value("X-Custom"), Some("yes"));
    assert_eq!(parsed.get_value("Content-length"), Some("11"));
    assert_eq!(parsed.get_value("Content-Type"), Some("text/html; charset=utf-8"));
    assert_eq!(parsed.get_value("Connection"), Some("Keep-Alive"));
    assert_eq!(parsed.get_value("Server"), Some("webserv-rs"));
    assert!(parsed.get_value("Date").is_some());
}

#[test]
fn response_status_lines() {
    let ok = Response::new(200, Vec::new(), Vec::new(), ContentType::Json);
    assert_eq!(ok.make_first_line(), "HTTP/1.1 200 OK\r\n");
    assert!(!ok.is_error_status());
    let missing = Response::new(404, Vec::new(), Vec::new(), ContentType::Text);
    assert_eq!(missing.make_first_line(), "HTTP/1.1 404 Not Found\r\n");
    assert!(missing.is_error_status());
    let odd = Response::new(299, Vec::new(), Vec::new(), ContentType::Text);
    assert_eq!(odd.make_first_line(), "HTTP/1.1 299 Unknown Status Code\r\n");
}

#[test]
fn error_kinds_map_to_their_statuses() {
    assert_eq!(HttpError::Error400.status_code(), 400);
    assert_eq!(HttpError::Error404.status_code(), 404);
    assert_eq!(HttpError::Error413.status_code(), 413);
    assert_eq!(HttpError::Error415.status_code(), 415);
    assert_eq!(HttpError::ErrorParsingChunkSize.status_code(), 500);
    assert_eq!(HttpError::Error500.status_code(), 500);
    assert_eq!(HttpError::Error400.message(), "Error 400: Bad Request");
    assert_eq!(
        HttpError::ErrorParsingChunkSize.message(),
        "Error 500: chunk header size not a valid number"
    );
}

#[test]
fn content_type_header_values() {
    assert_eq!(ContentType::TextHtml.header_value(), "text/html; charset=utf-8");
    assert_eq!(ContentType::Json.header_value(), "application/json");
    assert_eq!(ContentType::Image("png".to_string()).header_value(), "image/png");
}

#[test]
fn decimal_rendering_is_exact() {
    assert_eq!(u64_to_string(0), "0");
    assert_eq!(u64_to_string(7), "7");
    assert_eq!(u64_to_string(1024), "1024");
    assert_eq!(u64_to_string(1048576), "1048576");
}

#[test]
fn header_boundary_detection() {
    assert_eq!(get_double_crcn_index(b"abc"), None);
    assert_eq!(get_double_crcn_index(b"ab\r\n\r\n"), Some(2));
    assert_eq!(get_double_crcn_index(b"\r\n\r\n"), Some(0));
    assert_eq!(get_double_crcn_index(b"a\r\nb\r\n\r\nc\r\n\r\n"), Some(4));
}

#[test]
fn encoding_names_resolve_exactly() {
    assert_eq!(get_encoding("gzip"), Some(Encoding::Gzip));
    assert_eq!(get_encoding("deflate"), Some(Encoding::Deflate));
    assert_eq!(get_encoding("gzip extra"), Some(Encoding::Gzip));
    assert_eq!(get_encoding("br"), None);
    assert_eq!(get_encoding("GZIP"), None);
}

#[test]
fn chunked_token_rule() {
    assert!(is_chunked_value("chunked"));
    assert!(is_chunked_value("Chunked"));
    assert!(is_chunked_value("  chunked  "));
    assert!(is_chunked_value("gzip, chunked"));
    // a substring is not the token
    assert!(!is_chunked_value("chunkedness"));
    assert!(!is_chunked_value("chunk"));
    assert!(!is_chunked_value("gzip"));
    assert!(!is_chunked_value(""));
}
