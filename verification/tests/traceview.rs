use nudgec::traceview::{http_response, path_of_request, view_response};

#[test]
fn http_response_has_status_type_and_length() {
    let r = String::from_utf8(http_response("200 OK", "text/plain", "hello")).unwrap();
    assert!(r.starts_with("HTTP/1.1 200 OK\r\n"));
    assert!(r.contains("content-type: text/plain\r\n"));
    assert!(r.contains("content-length: 5\r\n"));
    assert!(r.ends_with("hello"));
}

#[test]
fn content_length_counts_bytes() {
    let r = String::from_utf8(http_response("404 Not Found", "text/html", "héllo")).unwrap();
    assert_eq!(
        r,
        "HTTP/1.1 404 Not Found\r\ncontent-type: text/html\r\ncontent-length: 6\r\nconnection: close\r\n\r\nhéllo"
    );
}

#[test]
fn requests_are_routed_by_path() {
    assert_eq!(path_of_request("GET /trace?since=3 HTTP/1.1\r\nHost: x\r\n\r\n"), "/trace");
    assert_eq!(path_of_request("GET"), "/");
    assert_eq!(path_of_request(""), "/");
    assert_eq!(path_of_request("  GET\t/index.html HTTP/1.1"), "/index.html");
    assert_eq!(path_of_request("GET ?q HTTP/1.1"), "");
    let trace = "{\"v\": 1}\n";
    let page = "<html>é</html>";
    let t = String::from_utf8(view_response("GET /trace HTTP/1.1", trace, page)).unwrap();
    assert_eq!(t, format!("HTTP/1.1 200 OK\r\ncontent-type: application/x-ndjson; charset=utf-8\r\ncontent-length: {}\r\nconnection: close\r\n\r\n{trace}", trace.len()));
    let p = String::from_utf8(view_response("GET / HTTP/1.1", trace, page)).unwrap();
    assert!(p.starts_with("HTTP/1.1 200 OK\r\ncontent-type: text/html; charset=utf-8\r\ncontent-length: 15\r\n"), "{p}");
    assert!(p.ends_with(page));
    let q = String::from_utf8(view_response("GET /index.html?x HTTP/1.1", trace, page)).unwrap();
    assert_eq!(p, q);
    let n = String::from_utf8(view_response("GET /other HTTP/1.1", trace, page)).unwrap();
    assert_eq!(n, "HTTP/1.1 404 Not Found\r\ncontent-type: text/plain; charset=utf-8\r\ncontent-length: 9\r\nconnection: close\r\n\r\nnot found");
}
