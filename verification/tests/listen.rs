use localhost::config::Config;
use localhost::listen::{address, bind_warning, no_listeners_message, plan_listeners};

#[test]
fn groups_servers_by_address() {
    let (config, _) = Config::parse(
        "server { port 80 81; server_name a; client_max_body_size 5; route / { } }
         server { port 80; server_name b; client_max_body_size 9; route / { } }
         server { host h; port 80; route / { } }",
    )
    .unwrap();
    let (groups, warnings) = plan_listeners(&config.servers);
    assert!(warnings.is_empty());
    let found: Vec<(String, u16, Vec<usize>, usize)> = groups
        .into_iter()
        .map(|group| (group.host, group.port, group.servers, group.max_body_size))
        .collect();
    assert_eq!(
        found,
        vec![
            ("127.0.0.1".to_string(), 80, vec![0, 1], 9),
            ("127.0.0.1".to_string(), 81, vec![0], 5),
            ("h".to_string(), 80, vec![2], 1_048_576),
        ]
    );
}

#[test]
fn warns_about_servers_that_share_a_name() {
    let (config, _) = Config::parse(
        "server { port 80; route / { } }
         server { port 80; route / { } }
         server { port 80; server_name a; route / { } }
         server { port 80; server_name b a c; route / { } }
         server { port 80; server_name b; route / { } }
         server { port 81; server_name x x; route / { } }",
    )
    .unwrap();
    let (groups, warnings) = plan_listeners(&config.servers);
    assert_eq!(groups.len(), 1);
    assert_eq!(groups[0].servers, vec![0, 2]);
    assert_eq!(
        warnings,
        vec![
            "ignored duplicate unnamed default server on 127.0.0.1:80",
            "ignored server 127.0.0.1:80 because server_name a is duplicated",
            "ignored server 127.0.0.1:80 because server_name b is duplicated",
            "ignored server 127.0.0.1:81 because server_name x is duplicated",
        ]
    );
}

#[test]
fn words_for_listeners() {
    assert_eq!(address("h", 8080), "h:8080");
    assert_eq!(bind_warning("h:1", "in use"), "could not bind h:1: in use");
    assert_eq!(
        no_listeners_message(&Vec::new()),
        "no valid listeners could be created"
    );
    assert_eq!(
        no_listeners_message(&vec!["a".to_string(), "b".to_string()]),
        "no valid listeners could be created: a; b"
    );
}
