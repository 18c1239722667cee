use std::collections::HashMap;

use localhost::config::{
    parse_on_off, parse_size, tokenize, Config, RouteConfig, ServerConfig,
};

#[test]
fn tokenizes_blocks_and_semicolons() {
    let tokens = tokenize("server { host 127.0.0.1; # comment\n }");
    assert_eq!(tokens, vec!["server", "{", "host", "127.0.0.1", ";", "}"]);
}

#[test]
fn parses_body_size_suffixes() {
    assert_eq!(parse_size("1k").unwrap(), 1024);
    assert_eq!(parse_size("2M").unwrap(), 2 * 1024 * 1024);
    assert_eq!(parse_size("12").unwrap(), 12);
}

#[test]
fn rejects_server_with_duplicate_port() {
    let mut config = Config {
        servers: vec![ServerConfig {
            host: "127.0.0.1".to_string(),
            ports: vec![8080, 8080],
            server_names: Vec::new(),
            error_pages: HashMap::new(),
            client_max_body_size: 1024,
            routes: vec![RouteConfig::default_root()],
        }],
        request_timeout: 30,
        cgi_timeout: 5,
    };

    let warnings = config.validate();
    assert!(config.servers.is_empty());
    assert!(warnings
        .iter()
        .any(|warning| warning.contains("configured more than once")));
}

const SAMPLE: &str = "
request_timeout 12;
cgi_timeout 3;

server {
    host 127.0.0.1;
    ports 8080 8081;
    server_name Localhost a.test;
    client_max_body_size 8M;
    error_page 404 www/errors/404.html;

    route / {
        root www;
        methods GET POST DELETE;
        index index.html;
        directory_listing off;
    }

    route /cgi {
        root www/cgi;
        methods GET POST GET;
        cgi .py /usr/bin/python3;
    }

    route /old {
        redirect 301 /;
    }

    route /older {
        redirect /new;
    }

    route /uploads {
        upload_store www/uploads;
        autoindex on;
    }
}
";

fn parsed(content: &str) -> (Config, Vec<String>) {
    match Config::parse(content) {
        Ok(result) => result,
        Err(message) => panic!("{}", message),
    }
}

fn error_of(content: &str) -> String {
    match Config::parse(content) {
        Ok(_) => panic!("configuration should be refused"),
        Err(message) => message,
    }
}

#[test]
fn reads_a_whole_configuration() {
    let (config, warnings) = parsed(SAMPLE);
    assert!(warnings.is_empty());
    assert_eq!(config.request_timeout, 12);
    assert_eq!(config.cgi_timeout, 3);
    assert_eq!(config.servers.len(), 1);
    let server = &config.servers[0];
    assert_eq!(server.host, "127.0.0.1");
    assert_eq!(server.ports, vec![8080, 8081]);
    assert_eq!(server.server_names, vec!["localhost", "a.test"]);
    assert_eq!(server.client_max_body_size, 8 * 1024 * 1024);
    assert_eq!(
        server.error_pages.get(&404),
        Some(&"www/errors/404.html".to_string())
    );
    let paths: Vec<&str> = server.routes.iter().map(|route| route.path.as_str()).collect();
    assert_eq!(paths, vec!["/uploads", "/older", "/cgi", "/old", "/"]);
    let cgi = &server.routes[2];
    assert_eq!(cgi.methods.len(), 2);
    assert_eq!(
        cgi.cgi,
        vec![(".py".to_string(), "/usr/bin/python3".to_string())]
    );
    assert_eq!(cgi.allowed_methods_header(), "GET, POST");
    let old = server.routes[3].redirect.as_ref().unwrap();
    assert_eq!((old.status, old.location.as_str()), (301, "/"));
    let older = server.routes[1].redirect.as_ref().unwrap();
    assert_eq!((older.status, older.location.as_str()), (302, "/new"));
    assert!(server.routes[0].directory_listing);
    assert_eq!(server.routes[0].upload_store.as_deref(), Some("www/uploads"));
    assert_eq!(server.routes[0].allowed_methods_header(), "GET, POST, DELETE");
    let root = &server.routes[4];
    assert_eq!(root.root.as_deref(), Some("www"));
    assert_eq!(root.index.as_deref(), Some("index.html"));
    assert!(!root.directory_listing);
    assert_eq!(root.allowed_methods_header(), "DELETE, GET, POST");
}

#[test]
fn fills_in_defaults() {
    let (config, warnings) = parsed("server { listen 9000; }");
    assert_eq!(config.request_timeout, 30);
    assert_eq!(config.cgi_timeout, 5);
    let server = &config.servers[0];
    assert_eq!(server.host, "127.0.0.1");
    assert_eq!(server.client_max_body_size, 1_048_576);
    assert_eq!(server.routes.len(), 1);
    assert_eq!(server.routes[0].path, "/");
    assert_eq!(server.routes[0].root.as_deref(), Some("www"));
    assert_eq!(server.routes[0].allowed_methods_header(), "GET");
    assert_eq!(
        warnings,
        vec!["server 127.0.0.1 has no routes; added a default route rooted at ./www"]
    );
}

#[test]
fn the_last_of_repeated_entries_counts() {
    let (config, _) = parsed(
        "server { port 1; error_page 404 a; error_page 404 b; route / { cgi .x one; cgi .y two; cgi .x three; } }",
    );
    let server = &config.servers[0];
    assert_eq!(server.error_pages.get(&404), Some(&"b".to_string()));
    assert_eq!(
        server.routes[0].cgi,
        vec![
            (".x".to_string(), "three".to_string()),
            (".y".to_string(), "two".to_string())
        ]
    );
}

#[test]
fn says_what_is_wrong() {
    assert_eq!(
        error_of(""),
        "configuration must contain at least one server block"
    );
    assert_eq!(error_of("servers { }"), "unknown top-level directive servers");
    assert_eq!(error_of("server { colour red; }"), "unknown server directive colour");
    assert_eq!(
        error_of("server { route / { colour red; } }"),
        "unknown route directive colour"
    );
    assert_eq!(error_of("server host"), "expected {, found host");
    assert_eq!(error_of("server"), "expected {, reached end of file");
    assert_eq!(
        error_of("server {"),
        "expected server directive, reached end of file"
    );
    assert_eq!(error_of("server { host a b; }"), "expected ;, found b");
    assert_eq!(error_of("server { port 70000; }"), "invalid port: 70000");
    assert_eq!(error_of("server { port x; }"), "invalid port: x");
    assert_eq!(error_of("request_timeout soon;"), "invalid request_timeout: soon");
    assert_eq!(
        error_of("server { error_page none a; }"),
        "invalid status code: none"
    );
    assert_eq!(
        error_of("server { client_max_body_size big; }"),
        "invalid size: big"
    );
    assert_eq!(
        error_of("server { client_max_body_size 99999999999999999g; }"),
        "size is too large: 99999999999999999g"
    );
    assert_eq!(
        error_of("server { route / { autoindex maybe; } }"),
        "expected on or off, found maybe"
    );
    assert_eq!(
        error_of("server { route / { methods GET"),
        "expected method, reached end of file"
    );
    assert_eq!(
        error_of("server { route / { redirect 301; } }"),
        "expected ;, found }"
    );
}

#[test]
fn drops_what_cannot_be_used() {
    let (config, warnings) = parsed(
        "server { host a; }
         server { host b; port 1 2 1; }
         server { host c; port 3; route bad { } }
         server { host d; port 4; route bad { } route /x { } }",
    );
    assert_eq!(config.servers.len(), 1);
    assert_eq!(config.servers[0].host, "d");
    assert_eq!(config.servers[0].routes.len(), 1);
    assert_eq!(
        warnings,
        vec![
            "discarded server a because it has no ports",
            "discarded server b because port 1 is configured more than once",
            "discarded route bad because it does not start with /",
            "discarded route bad because it does not start with /",
        ]
    );
}

#[test]
fn drops_a_server_with_an_empty_host() {
    let mut server = ServerConfig::default();
    server.host = String::new();
    let mut config = Config {
        servers: vec![server],
        request_timeout: 1,
        cgi_timeout: 1,
    };
    assert_eq!(
        config.validate(),
        vec!["discarded a server with an empty host"]
    );
    assert!(config.servers.is_empty());
}

#[test]
fn validation_is_final() {
    let (mut config, _) = parsed(SAMPLE);
    let before: Vec<String> = config.servers[0]
        .routes
        .iter()
        .map(|route| route.path.clone())
        .collect();
    assert!(config.validate().is_empty());
    let after: Vec<String> = config.servers[0]
        .routes
        .iter()
        .map(|route| route.path.clone())
        .collect();
    assert_eq!(before, after);
}

#[test]
fn tokens_written_with_spaces_are_read_back() {
    let tokens = tokenize(SAMPLE);
    assert_eq!(tokenize(&tokens.join(" ")), tokens);
    assert!(tokenize(" \n# nothing here").is_empty());
    assert_eq!(tokenize("word#comment\nnext"), vec!["word", "next"]);
}

#[test]
fn sizes_have_units_in_either_case() {
    assert_eq!(parse_size("3K").unwrap(), 3 * 1024);
    assert_eq!(parse_size("1g").unwrap(), 1024 * 1024 * 1024);
    assert_eq!(parse_size("+7").unwrap(), 7);
    assert_eq!(parse_size(""), Err("invalid size: ".to_string()));
    assert_eq!(parse_size("k"), Err("invalid size: k".to_string()));
    assert_eq!(parse_size("1kk"), Err("invalid size: 1kk".to_string()));
}

#[test]
fn switches_have_three_spellings() {
    for on in ["on", "true", "1"] {
        assert_eq!(parse_on_off(on), Ok(true));
    }
    for off in ["off", "false", "0"] {
        assert_eq!(parse_on_off(off), Ok(false));
    }
    assert_eq!(
        parse_on_off("On"),
        Err("expected on or off, found On".to_string())
    );
}

#[test]
fn routes_of_one_length_stay_in_order() {
    let (config, warnings) = parsed(
        "server { port 80; route /b { root b; } route /a { root a; } route /cc { root c; }
         route /d { root d; } }",
    );
    assert!(warnings.is_empty());
    let paths: Vec<&str> =
        config.servers[0].routes.iter().map(|route| route.path.as_str()).collect();
    assert_eq!(paths, vec!["/cc", "/b", "/a", "/d"]);
}

#[test]
fn a_written_configuration_is_read_back() {
    let (config, warnings) = parsed(
        "request_timeout 7 ; cgi_timeout 9 ; server { host h ; ports 1 2 ; server_name n m ;
         client_max_body_size 77 ; error_page 404 e ; route /p { methods GET PATCH ; root r ;
         redirect 301 /q ; index i ; directory_listing on ; upload_store u ; cgi .py python ;
         cgi .sh sh ; } }",
    );
    assert!(warnings.is_empty());
    assert_eq!((config.request_timeout, config.cgi_timeout), (7, 9));
    let server = &config.servers[0];
    assert_eq!(server.host, "h");
    assert_eq!(server.ports, vec![1, 2]);
    assert_eq!(server.server_names, vec!["n", "m"]);
    assert_eq!(server.client_max_body_size, 77);
    assert_eq!(server.error_pages.get(&404), Some(&"e".to_string()));
    let route = &server.routes[0];
    assert_eq!(route.path, "/p");
    assert_eq!(route.root.as_deref(), Some("r"));
    assert_eq!(route.index.as_deref(), Some("i"));
    assert!(route.directory_listing);
    assert_eq!(route.upload_store.as_deref(), Some("u"));
    assert_eq!(
        route.cgi,
        vec![
            (".py".to_string(), "python".to_string()),
            (".sh".to_string(), "sh".to_string())
        ]
    );
}

#[test]
fn nothing_is_listed_twice() {
    let (config, _) = parsed(
        "server { port 80; route / { methods GET POST GET; methods POST PUT; cgi .a x; cgi .b y;
         cgi .a z; } }",
    );
    let route = &config.servers[0].routes[0];
    assert_eq!(route.allowed_methods_header(), "GET, POST, PUT");
    assert_eq!(
        route.cgi,
        vec![
            (".a".to_string(), "z".to_string()),
            (".b".to_string(), "y".to_string())
        ]
    );
}
