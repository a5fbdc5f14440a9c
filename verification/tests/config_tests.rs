use lms_server::config::{listen_address, log_level_from_name, LogLevel, DEFAULT_PORT};

#[test]
fn log_levels_by_name() {
    assert_eq!(log_level_from_name("trace"), LogLevel::Trace);
    assert_eq!(log_level_from_name("debug"), LogLevel::Debug);
    assert_eq!(log_level_from_name("info"), LogLevel::Info);
    assert_eq!(log_level_from_name("warn"), LogLevel::Warn);
    assert_eq!(log_level_from_name("error"), LogLevel::Error);
    assert_eq!(log_level_from_name("verbose"), LogLevel::Info);
}

#[test]
fn listen_address_respects_network_flag() {
    assert_eq!(listen_address(false, "127.0.0.1", DEFAULT_PORT), "127.0.0.1:1234");
    assert_eq!(listen_address(true, "127.0.0.1", 8080), "0.0.0.0:8080");
}
