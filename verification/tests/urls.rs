use agentseek_desktop::environment::url_host;
use agentseek_desktop::instance::endpoint_port;
use agentseek_desktop::urls::{extract_url_port, replace_url_port};

#[test]
fn a_port_is_set_whether_there_was_one_or_not() {
    assert_eq!(replace_url_port("http://localhost", 80), "http://localhost:80");
    assert_eq!(replace_url_port("http://localhost:1/a?b#c", 80), "http://localhost:80/a?b#c");
    assert_eq!(replace_url_port("http://[::1]:1/a", 80), "http://[::1]:80/a");
    assert_eq!(replace_url_port("http://[::1]", 80), "http://[::1]:80");
    assert_eq!(replace_url_port("no url", 80), "no url");
    assert_eq!(replace_url_port("http://[::1", 80), "http://[::1");
}

#[test]
fn a_port_that_was_set_is_read_back() {
    for url in ["http://127.0.0.1", "https://host:1/path", "http://[::1]:2/x"] {
        assert_eq!(extract_url_port(&replace_url_port(url, 6006)), Some(6006));
    }
    assert_eq!(extract_url_port("http://host/path"), None);
    assert_eq!(extract_url_port("host:80"), None);
    assert_eq!(extract_url_port("http://host:99999"), None);
}

#[test]
fn setting_a_port_twice_keeps_the_last() {
    let url = "https://host:1/a/b";
    assert_eq!(replace_url_port(&replace_url_port(url, 2), 3), replace_url_port(url, 3));
}

#[test]
fn hosts_are_found_in_urls() {
    assert_eq!(url_host("http://phoenix:6006/v1"), Some("phoenix"));
    assert_eq!(url_host("https://collector.example.com/x"), Some("collector.example.com"));
    assert_eq!(url_host("plain"), None);
    assert_eq!(endpoint_port("http://127.0.0.1:8088/agent"), Some(8088));
}
