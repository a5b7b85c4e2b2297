use dev_wallet::display::{frame_for_display, layout_message, DisplayLine};

fn lines(msg: &str) -> Vec<(i32, String)> {
    layout_message(msg)
        .iter()
        .map(|l: &DisplayLine| (l.y, l.text.as_str().to_string()))
        .collect()
}

fn owned(v: &[(i32, &str)]) -> Vec<(i32, String)> {
    v.iter().map(|(y, s)| (*y, s.to_string())).collect()
}

#[test]
fn empty_message_draws_nothing() {
    assert_eq!(lines(""), owned(&[]));
}

#[test]
fn short_message_is_one_line() {
    assert_eq!(lines("Hello"), owned(&[(10, "Hello")]));
}

#[test]
fn twelve_characters_fill_one_line() {
    assert_eq!(lines("abcdefghijkl"), owned(&[(10, "abcdefghijkl")]));
}

#[test]
fn thirteenth_character_starts_a_new_line() {
    assert_eq!(lines("abcdefghijklm"), owned(&[(10, "abcdefghijkl"), (23, "m")]));
}

#[test]
fn thirty_six_characters_fill_the_screen() {
    let msg = "abcdefghijklmnopqrstuvwxyz0123456789";
    assert_eq!(
        lines(msg),
        owned(&[(10, "abcdefghijkl"), (23, "mnopqrstuvwx"), (36, "yz0123456789")])
    );
}

#[test]
fn longer_messages_are_cut() {
    let msg = "abcdefghijklmnopqrstuvwxyz0123456789XYZ";
    assert_eq!(
        lines(msg),
        owned(&[(10, "abcdefghijkl"), (23, "mnopqrstuvwx"), (36, "yz0123456789")])
    );
}

#[test]
fn newline_ends_a_line() {
    assert_eq!(lines("ab\ncd"), owned(&[(10, "ab"), (23, "cd")]));
}

#[test]
fn leading_and_repeated_newlines_draw_no_empty_lines() {
    assert_eq!(lines("\n\nab\n\ncd\n"), owned(&[(10, "ab"), (23, "cd")]));
}

#[test]
fn fourth_line_is_dropped() {
    assert_eq!(lines("a\nb\nc\nd"), owned(&[(10, "a"), (23, "b"), (36, "c")]));
}

#[test]
fn wide_characters_end_a_line_by_bytes() {
    // Each 'é' takes two bytes: six fill the twelve-byte line.
    let msg = "\u{e9}\u{e9}\u{e9}\u{e9}\u{e9}\u{e9}\u{e9}";
    assert_eq!(
        lines(msg),
        owned(&[(10, "\u{e9}\u{e9}\u{e9}\u{e9}\u{e9}\u{e9}"), (23, "\u{e9}")])
    );
}

#[test]
fn four_byte_characters() {
    let msg = "ab\u{1F600}\u{1F600}\u{1F600}";
    assert_eq!(
        lines(msg),
        owned(&[(10, "ab\u{1F600}\u{1F600}"), (23, "\u{1F600}")])
    );
}

#[test]
fn frame_accepts_up_to_sixty_four_bytes() {
    let sixty_four = "x".repeat(64);
    let framed = frame_for_display(&sixty_four).expect("fits");
    assert_eq!(framed.as_str(), sixty_four);
    assert!(frame_for_display(&"x".repeat(65)).is_none());
    // 33 two-byte characters are 66 bytes.
    assert!(frame_for_display(&"\u{e9}".repeat(33)).is_none());
    assert!(frame_for_display(&"\u{e9}".repeat(32)).is_some());
    assert_eq!(frame_for_display("").expect("fits").as_str(), "");
}

#[test]
fn typed_message_is_displayed_whole() {
    let typed = "Send 5 coins to Bob";
    let received = dev_wallet::web::submitted_message_text("message=Send+5+coins+to+Bob")
        .expect("message present");
    let framed = frame_for_display(&received).expect("fits");
    let shown: String = layout_message(framed.as_str())
        .iter()
        .map(|l| l.text.as_str())
        .collect();
    assert_eq!(shown, typed);
}

#[test]
fn each_newline_part_is_cut_on_its_own() {
    assert_eq!(
        lines("abcdefghijklmn\nxy"),
        owned(&[(10, "abcdefghijkl"), (23, "mn"), (36, "xy")])
    );
}

#[test]
fn message_of_more_than_three_lines_shows_a_proper_start() {
    let shown: String = lines("ab\ncd\nef\ngh").into_iter().map(|(_, t)| t).collect();
    assert_eq!(shown, "abcdef");
}
