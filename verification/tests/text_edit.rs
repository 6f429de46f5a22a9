use moba_lobby::text_edit::{EditKey, TextEdit};

fn chars(s: &str) -> Vec<char> {
    s.chars().collect()
}

fn field(text: &str, cursor: usize) -> TextEdit {
    let mut f = TextEdit::new(chars(text), chars("placeholder"));
    f.cursor = cursor;
    f
}

fn text(f: &TextEdit) -> String {
    f.text.iter().collect()
}

#[test]
fn typing_inserts_at_the_cursor_without_control_characters() {
    let mut f = field("he", 2);
    f.type_text(&chars("l\u{8}lo\n"));
    assert_eq!(text(&f), "hello");
    assert_eq!(f.cursor, 5);
}

#[test]
fn arrows_move_by_one_character() {
    let mut f = field("añb", 0);
    assert!(!f.press(EditKey::ArrowLeft, false));
    assert_eq!(f.cursor, 0);
    f.press(EditKey::ArrowRight, false);
    f.press(EditKey::ArrowRight, false);
    assert_eq!(f.cursor, 2);
    f.press(EditKey::ArrowRight, false);
    f.press(EditKey::ArrowRight, false);
    assert_eq!(f.cursor, 3);
    f.press(EditKey::ArrowLeft, false);
    assert_eq!(f.cursor, 2);
}

#[test]
fn backspace_deletes_the_character_before_the_cursor() {
    let mut f = field("añb", 2);
    f.press(EditKey::Backspace, false);
    assert_eq!(text(&f), "ab");
    assert_eq!(f.cursor, 1);
    let mut f = field("ab", 0);
    f.press(EditKey::Backspace, false);
    assert_eq!(text(&f), "ab");
}

#[test]
fn control_backspace_deletes_a_word_and_the_space_after_it() {
    let mut f = field("hello big world  ", 17);
    f.press(EditKey::Backspace, true);
    assert_eq!(text(&f), "hello big ");
    assert_eq!(f.cursor, 10);
    f.press(EditKey::Backspace, true);
    assert_eq!(text(&f), "hello ");
    let mut f = field("a+b...", 6);
    f.press(EditKey::Backspace, true);
    assert_eq!(text(&f), "a+b");
    f.press(EditKey::Backspace, true);
    assert_eq!(text(&f), "a+");
}

#[test]
fn control_delete_deletes_the_space_and_then_a_word() {
    let mut f = field("one  two three", 3);
    f.press(EditKey::Delete, true);
    assert_eq!(text(&f), "one three");
    assert_eq!(f.cursor, 3);
    let mut f = field("x", 0);
    f.press(EditKey::Delete, false);
    assert_eq!(text(&f), "x");
}

#[test]
fn escape_gives_up_the_focus() {
    let mut f = field("x", 1);
    assert!(f.press(EditKey::Escape, false));
    assert!(!f.press(EditKey::Other, false));
}

#[test]
fn an_empty_field_shows_its_placeholder() {
    let f = field("", 0);
    assert_eq!(f.displayed().iter().collect::<String>(), "placeholder");
    let f = field("x", 0);
    assert_eq!(f.displayed().iter().collect::<String>(), "x");
}

#[test]
fn a_release_does_nothing() {
    let mut f = field("ab", 1);
    assert!(!f.input(true, Some(&chars("z")), EditKey::Escape, false));
    assert_eq!(text(&f), "ab");
    assert!(!f.input(false, Some(&chars("z")), EditKey::Other, false));
    assert_eq!(text(&f), "azb");
    assert_eq!(f.cursor, 2);
}

#[test]
fn backspace_takes_back_a_typed_character() {
    for cursor in 0..=3usize {
        let mut f = field("abc", cursor);
        f.type_text(&chars("é"));
        assert_eq!(f.cursor, cursor + 1);
        f.press(EditKey::Backspace, false);
        assert_eq!(text(&f), "abc");
        assert_eq!(f.cursor, cursor);
    }
}

#[test]
fn control_characters_are_std_s_control_characters() {
    for n in 0..=0x10FFFFu32 {
        if let Some(c) = char::from_u32(n) {
            let mut f = field("", 0);
            f.type_text(&vec![c]);
            assert_eq!(f.text.len() == 0, c.is_control(), "{n:#x}");
        }
    }
}

#[test]
fn whitespace_is_std_s_whitespace() {
    for n in 0..=0x10FFFFu32 {
        if let Some(c) = char::from_u32(n) {
            let mut f = TextEdit::new(vec!['a', c], vec![]);
            f.cursor = 2;
            f.press(EditKey::Backspace, true);
            let mut g = TextEdit::new(vec!['.', c], vec![]);
            g.cursor = 2;
            g.press(EditKey::Backspace, true);
            assert_eq!(f.text.is_empty() && g.text.is_empty(), c.is_whitespace(), "{n:#x}");
        }
    }
}
