use octane::config::{Config, OctaneConfig, Ssl};
use octane::request::{Cookies, Header, HttpVersion, KeepAlive, Request, RequestLine, RequestMethod};

#[test]
fn request_line_tokens() {
    let rl = RequestLine::parse("GET /index.html HTTP/1.1").unwrap();
    assert_eq!(rl.method, RequestMethod::Get);
    assert_eq!(rl.path, "/index.html");
    assert_eq!(rl.version, HttpVersion::Http11);
    let rl = RequestLine::parse("BREW /pot HTTP/0.9 extra").unwrap();
    assert_eq!(rl.method, RequestMethod::Other("BREW"));
    assert_eq!(rl.version, HttpVersion::Http09);
    let rl = RequestLine::parse("POST / HTTP/9.9").unwrap();
    assert_eq!(rl.version, HttpVersion::HttpInvalid);
    assert!(RequestLine::parse("GET /nospace").is_none());
    assert!(RequestLine::parse("GET / HT").is_none());
}

#[test]
fn header_split_and_trim() {
    let h = Header::parse("Content-Type:  \t text/plain").unwrap();
    assert_eq!(h.name, "Content-Type");
    assert_eq!(h.value, "text/plain");
    let h = Header::parse("a:b:c").unwrap();
    assert_eq!(h.name, "a");
    assert_eq!(h.value, "b:c");
    assert!(Header::parse("no colon here").is_none());
    assert!(Header::parse(":empty name").is_none());
}

#[test]
fn keep_alive_parameters() {
    let ka = KeepAlive::parse("timeout=5, max=1000");
    assert_eq!(ka.timeout, Some(5));
    assert_eq!(ka.max, Some(1000));
    let ka = KeepAlive::parse(" max=3 , junk, timeout=abc, timeout=+7 ");
    assert_eq!(ka.timeout, Some(7));
    assert_eq!(ka.max, Some(3));
    let ka = KeepAlive::parse("");
    assert_eq!(ka.timeout, None);
    assert_eq!(ka.max, None);
    // A value beyond 64 bits is passed over rather than wrapped.
    let ka = KeepAlive::parse("timeout=99999999999999999999999");
    assert_eq!(ka.timeout, None);
}

#[test]
fn cookie_pairs() {
    let c = Cookies::parse("name=value; other=x=y; junk; name=second");
    assert_eq!(c.get("name").unwrap(), "second");
    assert_eq!(c.get("other").unwrap(), "x=y");
    assert!(c.get("junk").is_none());
    assert_eq!(c.cookies.len(), 2);
    let d = Cookies::default();
    assert_eq!(d.cookies.len(), 0);
}

#[test]
fn whole_request() {
    let raw = b"\r\nGET /path HTTP/1.0\r\nHost: example\r\nX-Tag: a\r\nx-tag: b\r\n\r\nbody bytes";
    let req = Request::parse(raw).unwrap();
    assert_eq!(req.request_line.method, RequestMethod::Get);
    assert_eq!(req.request_line.path, "/path");
    assert_eq!(req.request_line.version, HttpVersion::Http10);
    assert_eq!(req.body, b"body bytes");
    let mut host = None;
    let mut tag = None;
    for (k, v) in &req.headers {
        if k == "host" {
            host = Some(v.clone());
        }
        if k == "x-tag" {
            tag = Some(v.clone());
        }
    }
    assert_eq!(host.unwrap(), "example");
    assert_eq!(tag.unwrap(), "a, b");
    // A request without any line fails; headers may simply run out.
    assert!(Request::parse(b"").is_none());
    let req = Request::parse(b"GET / HTTP/1.1\r\nHost: h").unwrap();
    assert_eq!(req.body, b"");
    assert!(Request::parse(&[0xFFu8, 0xFE, 0x20, 0x41, 0x20, 0x42][..]).is_none());
}

#[test]
fn config_defaults_and_setters() {
    let mut config = OctaneConfig::new();
    assert_eq!(config.keep_alive, Some(5));
    assert_eq!(config.ssl.port, 443);
    assert!(config.worker_threads.is_none());
    config.worker_threads(8);
    assert_eq!(config.worker_threads, Some(8));
    config.set_keepalive(30);
    assert_eq!(config.keep_alive, Some(30));
    config.ssl(8443);
    assert_eq!(config.ssl.port, 8443);
    let mut ssl = Ssl::new();
    ssl.key("templates/key.pem");
    ssl.cert("templates/cert.pem");
    config.with_ssl_config(ssl);
    assert_eq!(config.ssl.key, "templates/key.pem");
    assert_eq!(config.ssl.cert, "templates/cert.pem");
    assert_eq!(config.ssl.port, 8443);
    let d = OctaneConfig::default();
    assert_eq!(d.keep_alive, Some(5));
    let s = Ssl::default();
    assert_eq!(s.port, 443);
}
