use invok_core::errors::RuntimeError;
use invok_core::naming::{
    function_address, generate_function_url, make_function_key, to_camel_case_handler,
};
use invok_core::provision::{contains_ready_marker, random_container_name, random_port, READY_MARKER};

#[test]
fn test_to_camel_case_handler() {
    assert_eq!(to_camel_case_handler("hello-world"), "HelloWorldHandler");
    assert_eq!(to_camel_case_handler("hello"), "HelloHandler");
    assert_eq!(to_camel_case_handler("hello-world-again"), "HelloWorldAgainHandler");
}

#[test]
fn test_generate_function_url() {
    assert_eq!(
        generate_function_url("https://invok.example", "user-1", "fn-a"),
        "https://invok.example/invok/user-1/fn-a"
    );
}

#[test]
fn test_make_function_key_and_address() {
    assert_eq!(make_function_key("resize", "deadbeef"), "resize-deadbeef");
    assert_eq!(function_address("c-abc123", 8080), "c-abc123:8080");
}

#[test]
fn test_random_container_name_shape() {
    for _ in 0..32 {
        let name = random_container_name();
        assert_eq!(name.len(), 12);
        assert!(name.starts_with("c-"));
        assert!(name[2..].chars().all(|c| c.is_ascii_lowercase() || c.is_ascii_digit()));
    }
}

#[test]
fn test_random_port_range() {
    for _ in 0..32 {
        let port: u16 = random_port().parse().unwrap();
        assert!((8000..9000).contains(&port));
    }
}

#[test]
fn test_ready_marker_detection() {
    assert!(contains_ready_marker("boot done <<READY_TO_ACCEPT_CONN>> listening"));
    assert!(contains_ready_marker(READY_MARKER));
    assert!(!contains_ready_marker("almost <<READY_TO_ACCEPT"));
    assert!(!contains_ready_marker(""));
}

#[test]
fn test_error_messages() {
    assert_eq!(RuntimeError::Exec("boom".to_string()).message(), "boom");
    assert_eq!(RuntimeError::System("boom".to_string()).message(), "System Error: boom");
    assert_eq!(RuntimeError::RedisError("boom".to_string()).message(), "Redis Error: boom");
    assert_eq!(
        RuntimeError::SerializationError("boom".to_string()).message(),
        "Serialization Error: boom"
    );
}
