use localhost::path::{extension_of, file_name_of, file_stem_of, is_within, join_path, join_raw};
use localhost::text::{append_number, chars_of, join_texts, parse_number, sort_texts};
use localhost::util::{
    content_type, host_without_port, html_escape, percent_decode, sanitize_filename,
};

fn text(chars: Option<Vec<char>>) -> Option<String> {
    chars.map(|chars| chars.into_iter().collect())
}

#[test]
fn takes_the_port_off_a_host() {
    assert_eq!(host_without_port(" Example.COM:80 "), "example.com");
    assert_eq!(host_without_port("[::1]:8080"), "[::1]");
    assert_eq!(host_without_port("localhost"), "localhost");
}

#[test]
fn decodes_percent_signs() {
    assert_eq!(percent_decode("/a%2Fb%c3%A9"), Some("/a/b\u{e9}".to_string()));
    assert_eq!(percent_decode("/plain"), Some("/plain".to_string()));
    assert_eq!(percent_decode("%"), None);
    assert_eq!(percent_decode("%4"), None);
    assert_eq!(percent_decode("%4g"), None);
    assert_eq!(percent_decode("%ff"), None);
}

#[test]
fn escapes_html() {
    assert_eq!(
        html_escape("<a href=\"x\">'&'</a>"),
        "&lt;a href=&quot;x&quot;&gt;&#39;&amp;&#39;&lt;/a&gt;"
    );
    assert_eq!(html_escape("plain"), "plain");
}

#[test]
fn knows_content_types() {
    let expected = [
        ("a/index.html", "text/html; charset=utf-8"),
        ("x.HTM", "text/html; charset=utf-8"),
        ("x.css", "text/css; charset=utf-8"),
        ("x.js", "application/javascript; charset=utf-8"),
        ("x.json", "application/json"),
        ("x.txt", "text/plain; charset=utf-8"),
        ("x.png", "image/png"),
        ("x.jpg", "image/jpeg"),
        ("x.jpeg", "image/jpeg"),
        ("x.gif", "image/gif"),
        ("x.svg", "image/svg+xml"),
        ("x.ico", "image/x-icon"),
        ("x.pdf", "application/pdf"),
        ("x.bin", "application/octet-stream"),
        (".html", "application/octet-stream"),
        ("noext", "application/octet-stream"),
    ];
    assert_eq!(content_type(b"\xff.txt"), "text/plain; charset=utf-8");
    assert_eq!(content_type(b"a.\xff"), "application/octet-stream");
    for (path, kind) in expected {
        assert_eq!(content_type(path.as_bytes()), kind);
    }
}

#[test]
fn makes_file_names_safe() {
    assert_eq!(
        sanitize_filename("../../etc/pass wd"),
        Some("pass_wd".to_string())
    );
    assert_eq!(
        sanitize_filename("C:\\temp\\a.txt"),
        Some("a.txt".to_string())
    );
    assert_eq!(sanitize_filename("r\u{e9}sum\u{e9}.pdf"), Some("r_sum_.pdf".to_string()));
    assert_eq!(sanitize_filename(".."), None);
    assert_eq!(sanitize_filename("a/"), None);
    assert_eq!(sanitize_filename(""), None);
}

#[test]
fn takes_paths_apart() {
    assert_eq!(text(file_name_of(&chars_of("/a/b.tar.gz"))), Some("b.tar.gz".to_string()));
    assert_eq!(text(file_stem_of(&chars_of("/a/b.tar.gz"))), Some("b.tar".to_string()));
    assert_eq!(text(extension_of(&chars_of("/a/b.tar.gz"))), Some("gz".to_string()));
    assert_eq!(text(extension_of(&chars_of("/a/.hidden"))), None);
    assert_eq!(text(file_stem_of(&chars_of("/a/.hidden"))), Some(".hidden".to_string()));
    assert_eq!(text(file_name_of(&chars_of("/"))), None);
    assert_eq!(text(file_name_of(&chars_of("a/.."))), None);
    assert_eq!(text(file_name_of(&chars_of("a/"))), Some("a".to_string()));
}

#[test]
fn compares_paths_by_component() {
    assert!(is_within(b"/srv/www/a", b"/srv/www"));
    assert!(is_within(b"/srv/www", b"/srv/www/"));
    assert!(!is_within(b"/srv/wwwx", b"/srv/www"));
    assert!(!is_within(b"srv/www", b"/srv"));
    assert!(is_within(b"/\xff/\xfe", b"/\xff"));
    assert!(!is_within(b"/\xfe/a", b"/\xff"));
}

#[test]
fn joins_paths() {
    let join = |base: &str, path: &str| join_path(base, &chars_of(path));
    assert_eq!(join("www", "a"), "www/a");
    assert_eq!(join("www/", "a"), "www/a");
    assert_eq!(join("", "a"), "a");
    assert_eq!(join("www", "/a"), "/a");
    assert_eq!(join_raw(b"\xff", b"a"), b"\xff/a");
    assert_eq!(join_raw(b"\xff/", b"a"), b"\xff/a");
    assert_eq!(join_raw(b"", b"a"), b"a");
    assert_eq!(join_raw(b"\xff", b"/a"), b"/a");
}

#[test]
fn reads_and_writes_numbers() {
    let read = |s: &str, radix: u64, max: u64| parse_number(&chars_of(s), radix, max);
    assert_eq!(read("ff", 16, 255), Some(255));
    assert_eq!(read("100", 16, 255), None);
    assert_eq!(read("+12", 10, 99), Some(12));
    assert_eq!(read("+", 10, 99), None);
    assert_eq!(read("", 10, 99), None);
    assert_eq!(read("1a", 10, 99), None);
    assert_eq!(read("18446744073709551615", 10, u64::MAX), Some(u64::MAX));
    assert_eq!(read("18446744073709551616", 10, u64::MAX), None);
    let mut out = String::from("n=");
    append_number(&mut out, 48879, 16);
    append_number(&mut out, 0, 10);
    assert_eq!(out, "n=beef0");
}

#[test]
fn sorts_texts_and_joins_them() {
    let list = vec!["b".to_string(), "a/".to_string(), "B".to_string(), "a".to_string()];
    let sorted = sort_texts(list);
    assert_eq!(sorted, vec!["B", "a", "a/", "b"]);
    assert_eq!(join_texts(&sorted, ", "), "B, a, a/, b");
    assert_eq!(join_texts(&Vec::new(), ", "), "");
}
