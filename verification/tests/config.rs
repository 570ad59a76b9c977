use llmkeyrotator::config::{
    csv_path, has_flag, listen_address, name_servers, parse_number, request_timeout,
    DEFAULT_REQUEST_TIMEOUT,
};

#[test]
fn numbers_are_read_as_the_standard_library_reads_them() {
    let cases = [
        "", "0", "7", "007", "120", "+5", "+", "++5", "-5", "-0", " 5", "5 ", "5s", "1_000", "٣",
        "18446744073709551615", "18446744073709551616", "18446744073709551620",
        "99999999999999999999", "+18446744073709551615", "000000000000000000000000001",
    ];
    for s in cases {
        assert_eq!(parse_number(s), s.parse::<u64>().ok(), "{}", s);
    }
}

#[test]
fn a_timeout_that_is_no_number_counts_as_none() {
    assert_eq!(DEFAULT_REQUEST_TIMEOUT, 60);
    assert_eq!(request_timeout(None), 60);
    assert_eq!(request_timeout(Some("")), 60);
    assert_eq!(request_timeout(Some("soon")), 60);
    assert_eq!(request_timeout(Some("-1")), 60);
    assert_eq!(request_timeout(Some("0")), 0);
    assert_eq!(request_timeout(Some("300")), 300);
}

#[test]
fn the_file_of_providers_is_found() {
    assert_eq!(csv_path(Some("/tmp/p.csv"), Some("/home/u")), "/tmp/p.csv");
    assert_eq!(csv_path(Some(""), Some("/home/u")), "");
    assert_eq!(csv_path(None, Some("/home/u")), "/home/u/code/freellmkeys.csv");
    assert_eq!(csv_path(None, None), "llmkeys.csv");
}

#[test]
fn the_address_to_listen_at_is_taken_from_the_base() {
    assert_eq!(listen_address(None), "0.0.0.0:3001");
    assert_eq!(listen_address(Some("http://127.0.0.1:80/v1")), "127.0.0.1:80");
    assert_eq!(listen_address(Some("https://127.0.0.1:443")), "127.0.0.1:443");
    assert_eq!(listen_address(Some("127.0.0.1:8080")), "127.0.0.1:8080");
    assert_eq!(listen_address(Some("/v1")), "");
    assert_eq!(listen_address(Some("")), "");
}

#[test]
fn flags_are_found_among_the_arguments() {
    let args = vec!["prog".to_string(), "--cache".to_string()];
    assert!(has_flag(&args, "--cache"));
    assert!(!has_flag(&args, "--compress"));
    assert!(!has_flag(&args, "--cach"));
    assert!(!has_flag(&vec![], "--cache"));
}

#[test]
fn name_servers_are_listed() {
    assert_eq!(name_servers(), vec!["8.8.8.8:53", "8.8.4.4:53", "1.1.1.1:53"]);
}
