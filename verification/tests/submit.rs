use dev_wallet::web::{submitted_message_text, LoggingSubmitService};

fn message(query: &str) -> Option<String> {
    submitted_message_text(query)
}

#[test]
fn plus_becomes_space() {
    assert_eq!(message("message=hello+world"), Some("hello world".to_string()));
}

#[test]
fn percent_twenty_becomes_space() {
    assert_eq!(message("message=hello%20world"), Some("hello world".to_string()));
}

#[test]
fn value_ends_at_ampersand() {
    assert_eq!(message("message=abc&other=1"), Some("abc".to_string()));
}

#[test]
fn field_after_other_fields_is_found() {
    assert_eq!(message("name=x&message=hi"), Some("hi".to_string()));
}

#[test]
fn first_occurrence_of_key_is_used() {
    assert_eq!(message("message=one&message=two"), Some("one".to_string()));
}

#[test]
fn key_inside_other_field_name_counts() {
    // The search is for the text `message=`, wherever it stands.
    assert_eq!(message("oldmessage=x"), Some("x".to_string()));
}

#[test]
fn other_percent_escapes_pass_through() {
    assert_eq!(message("message=a%41b"), Some("a%41b".to_string()));
    assert_eq!(message("message=a%21b"), Some("a%21b".to_string()));
    assert_eq!(message("message=a%2"), Some("a%2".to_string()));
    assert_eq!(message("message=a%"), Some("a%".to_string()));
    assert_eq!(message("message=100%25done"), Some("100%25done".to_string()));
    assert_eq!(message("message=%2%20x"), Some("%2 x".to_string()));
}

#[test]
fn percent_before_ampersand_ends_the_value() {
    assert_eq!(message("message=a%&bc"), Some("a%".to_string()));
}

#[test]
fn result_is_trimmed() {
    assert_eq!(message("message=++hi+there++"), Some("hi there".to_string()));
    assert_eq!(message("message=%20%20x"), Some("x".to_string()));
    assert_eq!(message("message=\tx\u{3000}"), Some("x".to_string()));
}

#[test]
fn empty_message_is_still_a_message() {
    assert_eq!(message("message="), Some(String::new()));
    assert_eq!(message("message=+++"), Some(String::new()));
}

#[test]
fn no_key_means_no_message() {
    assert_eq!(message("text=hello"), None);
    assert_eq!(message(""), None);
    assert_eq!(message("message"), None);
}

#[test]
fn non_ascii_passes_through() {
    assert_eq!(message("message=caf\u{e9}+\u{1F600}"), Some("caf\u{e9} \u{1F600}".to_string()));
}

#[test]
fn service_without_query_gives_nothing() {
    let service = LoggingSubmitService;
    assert_eq!(service.message_from_query(None), None);
    assert_eq!(service.message_from_query(Some("x=1")), None);
    assert_eq!(service.message_from_query(Some("message=Hi+you")), Some("Hi you".to_string()));
}

#[test]
fn form_round_trip_scenario() {
    // What a browser sends for the typed text `Send 5 coins to Bob`.
    assert_eq!(
        message("message=Send+5+coins+to+Bob&submit=Send"),
        Some("Send 5 coins to Bob".to_string())
    );
}
