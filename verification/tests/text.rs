use todors::text::{
    char_is_space, decode_key, edit_text, from_chars, text_is_trimmed, to_chars, trim, trim_range,
    EditKey,
};

fn edited(text: &str, cur: usize, key: EditKey) -> (String, usize) {
    let mut text = text.to_string();
    let mut cur = cur;
    edit_text(&mut text, &mut cur, key);
    (text, cur)
}

#[test]
fn characters_go_there_and_back() {
    let chars = to_chars("añ→b");
    assert_eq!(chars, vec!['a', 'ñ', '→', 'b']);
    assert_eq!(from_chars(&chars, 0, 4), "añ→b");
    assert_eq!(from_chars(&chars, 1, 3), "ñ→");
    assert_eq!(from_chars(&chars, 2, 2), "");
}

#[test]
fn white_space_is_what_unicode_says() {
    for c in [' ', '\t', '\n', '\r', '\u{0b}', '\u{0c}', '\u{85}', '\u{a0}', '\u{1680}', '\u{2000}', '\u{200a}', '\u{2028}', '\u{2029}', '\u{202f}', '\u{205f}', '\u{3000}'] {
        assert!(char_is_space(c));
        assert!(c.is_whitespace());
    }
    for c in ['a', '0', '_', '\u{200b}', '\u{feff}', '\u{1c}'] {
        assert_eq!(char_is_space(c), c.is_whitespace());
    }
}

#[test]
fn trim_agrees_with_the_standard_library() {
    for s in ["", " ", "a", " a", "a ", "  a b  ", "\t x\u{a0}\n", " \u{3000} ", "añ "] {
        assert_eq!(trim(s), s.trim());
    }
    assert_eq!(trim_range(&to_chars("  ab ")), (2, 4));
    assert_eq!(trim_range(&to_chars("   ")), (3, 3));
}

#[test]
fn printable_characters_are_inserted_at_the_cursor() {
    assert_eq!(edited("ac", 1, EditKey::Char('b')), ("abc".to_string(), 2));
    assert_eq!(edited("", 0, EditKey::Char(' ')), (" ".to_string(), 1));
    assert_eq!(edited("ab", 9, EditKey::Char('~')), ("ab~".to_string(), 3));
    assert_eq!(edited("ab", 1, EditKey::Char('\u{1f}')), ("ab".to_string(), 1));
    assert_eq!(edited("ab", 1, EditKey::Char('\u{7f}')), ("ab".to_string(), 1));
    assert_eq!(edited("ab", 1, EditKey::Char('é')), ("ab".to_string(), 1));
}

#[test]
fn the_cursor_moves_within_the_text() {
    assert_eq!(edited("ab", 1, EditKey::Left), ("ab".to_string(), 0));
    assert_eq!(edited("ab", 0, EditKey::Left), ("ab".to_string(), 0));
    assert_eq!(edited("ab", 1, EditKey::Right), ("ab".to_string(), 2));
    assert_eq!(edited("ab", 2, EditKey::Right), ("ab".to_string(), 2));
    assert_eq!(edited("ab", 2, EditKey::Home), ("ab".to_string(), 0));
    assert_eq!(edited("ab", 0, EditKey::End), ("ab".to_string(), 2));
    assert_eq!(edited("ab", 7, EditKey::Other), ("ab".to_string(), 2));
}

#[test]
fn backspace_and_delete_remove_one_character() {
    assert_eq!(edited("abc", 2, EditKey::Backspace), ("ac".to_string(), 1));
    assert_eq!(edited("abc", 0, EditKey::Backspace), ("abc".to_string(), 0));
    assert_eq!(edited("abc", 3, EditKey::Backspace), ("ab".to_string(), 2));
    assert_eq!(edited("abc", 1, EditKey::Delete), ("ac".to_string(), 1));
    assert_eq!(edited("abc", 3, EditKey::Delete), ("abc".to_string(), 3));
    assert_eq!(edited("añc", 2, EditKey::Backspace), ("ac".to_string(), 1));
    assert_eq!(edited("añc", 1, EditKey::Delete), ("ac".to_string(), 1));
}

#[test]
fn curses_key_codes_are_decoded() {
    assert_eq!(decode_key(97), EditKey::Char('a'));
    assert_eq!(decode_key(32), EditKey::Char(' '));
    assert_eq!(decode_key(126), EditKey::Char('~'));
    assert_eq!(decode_key(0x104), EditKey::Left);
    assert_eq!(decode_key(0x105), EditKey::Right);
    assert_eq!(decode_key(0x106), EditKey::Home);
    assert_eq!(decode_key(1), EditKey::Home);
    assert_eq!(decode_key(0x107), EditKey::Backspace);
    assert_eq!(decode_key(127), EditKey::Backspace);
    assert_eq!(decode_key(0x14a), EditKey::Delete);
    assert_eq!(decode_key(0x168), EditKey::End);
    assert_eq!(decode_key(5), EditKey::End);
    assert_eq!(decode_key(10), EditKey::Other);
    assert_eq!(decode_key(-1), EditKey::Other);
    assert_eq!(decode_key(0x103), EditKey::Other);
}

#[test]
fn a_trimmed_text_has_no_white_space_at_its_ends() {
    for s in ["", "a", "a b", "añ"] {
        assert!(text_is_trimmed(s));
    }
    for s in [" ", " a", "a ", "\ta", "a\u{a0}", "a\n"] {
        assert!(!text_is_trimmed(s));
    }
}
