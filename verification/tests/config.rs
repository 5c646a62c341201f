use reactive_store::config::{
    fallback_file, get_config_path_or_fallback, parse_listen_on, Config, ExtensionBehavior,
    RoutingOptions,
};

const TEST_CONFIG_PATH: &str = "./_test_files/config.toml";

enum TestConfig {
    Default,
    Uninitialized,
}

// The values that the two configuration files of the test directory hold.
fn get_test_config(config_type: TestConfig) -> Config {
    match config_type {
        TestConfig::Default => {
            let args = vec![String::from(""), String::from(TEST_CONFIG_PATH)];
            assert_eq!(get_config_path_or_fallback(&args, true), TEST_CONFIG_PATH);
            Config::new(
                Some(String::from("127.0.0.1:8080")),
                Some(String::from("./public")),
                None,
                Some(RoutingOptions {
                    default_behavior: Some(ExtensionBehavior::Fetch),
                    extension_behaviors: None,
                }),
            )
        }
        TestConfig::Uninitialized => {
            let args = vec![
                String::from(""),
                String::from("_test_files/config.uninitialized.toml"),
            ];
            assert_eq!(
                get_config_path_or_fallback(&args, true),
                "_test_files/config.uninitialized.toml"
            );
            Config::new(None, None, None, None)
        }
    }
}

#[test]
fn test_config_ip_port_return() {
    let config = get_test_config(TestConfig::Default);
    let (ip, port) = config.get_listen_on();
    println!("IP: {}.{}.{}.{}, PORT: {}", ip[0], ip[1], ip[2], ip[3], port);
    assert_eq!(ip, [127, 0, 0, 1]);
    assert_eq!(port, 8080);
}

#[test]
fn test_get_serve_root() {
    let config = get_test_config(TestConfig::Default);
    let serve_root = config.get_serve_root();
    println!("Serve root: {}", serve_root);
    assert_eq!(serve_root, String::from("./public"));
    assert_eq!(config.serve_root_line(), format!("Serve root: {}", serve_root));

    let config = get_test_config(TestConfig::Uninitialized);
    let serve_root = config.get_serve_root();
    println!("Serve root: {}", serve_root);
    assert_eq!(serve_root, String::from("./public"));
    assert_eq!(config.serve_root_line(), "Serve root: ./public");
}

#[test]
fn test_behaviors() {
    let config = get_test_config(TestConfig::Default);
    assert!(match config.routing.as_ref().unwrap().default_behavior {
        Some(ExtensionBehavior::Fetch) => true,
        _ => panic!(
            "Default behavior is invalid; should be 'Deny', 'Fetch', or 'FetchAndProcessCode'"
        ),
    });

    let config = get_test_config(TestConfig::Uninitialized);
    assert!(match config.routing.as_ref().unwrap().default_behavior {
        Some(ExtensionBehavior::Deny) => true,
        _ => panic!(
            "Default behavior is invalid; should be 'Deny', 'Fetch', or 'FetchAndProcessCode'"
        ),
    });
}

#[test]
fn test_new_config() {
    let args = vec![String::from(""), String::from("_test_files/config.toml")];
    assert_eq!(get_config_path_or_fallback(&args, false), "_test_files/config.toml");
    let config = Config::new(
        None,
        None,
        None,
        Some(RoutingOptions {
            default_behavior: Some(ExtensionBehavior::Deny),
            extension_behaviors: Some(vec![
                (String::from(".html"), ExtensionBehavior::Fetch),
                (String::from(".temp"), ExtensionBehavior::FetchAndProcessTemplate),
            ]),
        }),
    );

    match config.get_routing_default_behavior() {
        ExtensionBehavior::Deny => (),
        _ => panic!("Default behavior should be 'Deny'"),
    }

    let extension_behaviors = config.routing.as_ref().unwrap().extension_behaviors.as_ref().unwrap();
    assert_eq!(extension_behaviors[0].0, String::from(".html"));
    match extension_behaviors[0].1 {
        ExtensionBehavior::Fetch => (),
        _ => panic!("Default behavior should be 'Fetch'"),
    }

    assert_eq!(extension_behaviors[1].0, String::from(".temp"));
    match extension_behaviors[1].1 {
        ExtensionBehavior::FetchAndProcessTemplate => (),
        _ => panic!("Default behavior should be 'Fetch'"),
    }
}

#[test]
fn routing_defaults_are_filled_in() {
    let config = Config::new(None, None, None, None);
    assert_eq!(config.get_routing_default_behavior(), ExtensionBehavior::Deny);
    assert_eq!(
        config.get_routing_extension_behaviors(),
        vec![(String::from("html"), ExtensionBehavior::Fetch)]
    );

    let config = Config::new(
        None,
        None,
        None,
        Some(RoutingOptions { default_behavior: None, extension_behaviors: None }),
    );
    assert_eq!(config.get_routing_default_behavior(), ExtensionBehavior::Deny);
    assert_eq!(
        config.get_routing_extension_behaviors(),
        vec![(String::from("html"), ExtensionBehavior::Fetch)]
    );
}

#[test]
fn setters_leave_a_configuration_without_routing_alone() {
    let mut config =
        Config { listen_on: None, serve_root: None, watch_dirs: None, routing: None };
    config.set_routing_default_behavior(ExtensionBehavior::Fetch);
    assert!(config.routing.is_none());
    config.set_routing_extension_behaviors(vec![(String::from("js"), ExtensionBehavior::Deny)]);
    assert!(config.routing.is_none());
    config.set_routing_options(RoutingOptions {
        default_behavior: None,
        extension_behaviors: None,
    });
    config.set_routing_default_behavior(ExtensionBehavior::Fetch);
    config.set_routing_extension_behaviors(vec![(String::from("js"), ExtensionBehavior::Deny)]);
    assert_eq!(config.get_routing_default_behavior(), ExtensionBehavior::Fetch);
    assert_eq!(
        config.get_routing_extension_behaviors(),
        vec![(String::from("js"), ExtensionBehavior::Deny)]
    );
}

#[test]
fn later_entry_for_an_extension_wins() {
    let config = Config::new(
        None,
        None,
        None,
        Some(RoutingOptions {
            default_behavior: Some(ExtensionBehavior::Deny),
            extension_behaviors: Some(vec![
                (String::from("html"), ExtensionBehavior::Fetch),
                (String::from("rs"), ExtensionBehavior::ProcessCode),
                (String::from("html"), ExtensionBehavior::FetchAndProcessTemplate),
            ]),
        }),
    );
    assert_eq!(
        config.get_routing_extension_behaviors(),
        vec![
            (String::from("html"), ExtensionBehavior::FetchAndProcessTemplate),
            (String::from("rs"), ExtensionBehavior::ProcessCode),
        ]
    );
    assert_eq!(
        config.behavior_for_extension("html"),
        ExtensionBehavior::FetchAndProcessTemplate
    );
    assert_eq!(config.behavior_for_extension("rs"), ExtensionBehavior::ProcessCode);
    assert_eq!(config.behavior_for_extension("png"), ExtensionBehavior::Deny);
}

#[test]
fn listen_address_grammar() {
    assert_eq!(parse_listen_on("127.0.0.1:8080"), Some(([127, 0, 0, 1], 8080)));
    assert_eq!(parse_listen_on("localhost:3000"), Some(([127, 0, 0, 1], 3000)));
    assert_eq!(parse_listen_on("localhost"), Some(([127, 0, 0, 1], 8080)));
    assert_eq!(parse_listen_on("10.0.0.7:65535"), Some(([10, 0, 0, 7], 65535)));
    // a port that is no number of 16 bits falls back to 8080
    assert_eq!(parse_listen_on("10.0.0.7:65536"), Some(([10, 0, 0, 7], 8080)));
    assert_eq!(parse_listen_on("10.0.0.7:http"), Some(([10, 0, 0, 7], 8080)));
    assert_eq!(parse_listen_on("10.0.0.7:"), Some(([10, 0, 0, 7], 8080)));
    assert_eq!(parse_listen_on("10.0.0.7:+81:9"), Some(([10, 0, 0, 7], 81)));
    // a part that is no number of 8 bits counts as 0; missing parts are 0
    assert_eq!(parse_listen_on("256.1.x.+4:80"), Some(([0, 1, 0, 4], 80)));
    assert_eq!(parse_listen_on("192.168:80"), Some(([192, 168, 0, 0], 80)));
    assert_eq!(parse_listen_on(""), Some(([0, 0, 0, 0], 8080)));
    assert_eq!(parse_listen_on("007.-1.+.1"), Some(([7, 0, 0, 1], 8080)));
    // more than four parts name no address
    assert_eq!(parse_listen_on("1.2.3.4.5:80"), None);
}

#[test]
fn listen_on_defaults_to_loopback() {
    let config = Config::new(None, None, None, None);
    assert_eq!(config.get_listen_on(), ([127, 0, 0, 1], 8080));
}

#[test]
fn watch_dirs_are_copied() {
    let config = Config::new(None, None, None, None);
    assert!(config._get_watch_dirs().is_empty());
    let config =
        Config::new(None, None, Some(vec![String::from("a"), String::from("b/c")]), None);
    assert_eq!(config._get_watch_dirs(), vec![String::from("a"), String::from("b/c")]);
}

#[test]
fn config_path_falls_back() {
    assert_eq!(fallback_file(true), "./_test_files/config.toml");
    assert_eq!(fallback_file(false), "config.toml");
    assert_eq!(get_config_path_or_fallback(&vec![String::from("prog")], false), "config.toml");
    assert_eq!(get_config_path_or_fallback(&Vec::new(), true), TEST_CONFIG_PATH);
    let args = vec![String::from("prog"), String::from("my.toml"), String::from("x")];
    assert_eq!(get_config_path_or_fallback(&args, true), "my.toml");
}

#[test]
fn serve_root_line_names_the_directory() {
    let config = Config::new(None, Some(String::from("/srv/www")), None, None);
    assert_eq!(config.get_serve_root(), "/srv/www");
    assert_eq!(config.serve_root_line(), "Serve root: /srv/www");
    let config = Config::new(None, Some(String::new()), None, None);
    assert_eq!(config.serve_root_line(), "Serve root: ");
}

#[test]
fn a_file_is_served_unless_its_behavior_is_deny() {
    let config = Config::new(
        None,
        None,
        None,
        Some(RoutingOptions {
            default_behavior: Some(ExtensionBehavior::Deny),
            extension_behaviors: Some(vec![
                (String::from("html"), ExtensionBehavior::Fetch),
                (String::from("key"), ExtensionBehavior::Fetch),
                (String::from("key"), ExtensionBehavior::Deny),
                (String::from("tpl"), ExtensionBehavior::FetchAndProcessTemplate),
            ]),
        }),
    );
    assert!(config.is_served("html"));
    assert!(config.is_served("tpl"));
    assert!(!config.is_served("key"));
    assert!(!config.is_served("png"));

    let config = Config::new(
        None,
        None,
        None,
        Some(RoutingOptions {
            default_behavior: Some(ExtensionBehavior::ProcessCode),
            extension_behaviors: Some(vec![(String::from("key"), ExtensionBehavior::Deny)]),
        }),
    );
    assert!(config.is_served("png"));
    assert!(!config.is_served("key"));
}
