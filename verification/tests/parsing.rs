use translator::converter::{parse, parse_line};
use translator::structure::{CharLength, Line, Word};

fn word_at(line: &Line, pos: usize) -> Option<(usize, usize, String)> {
    line.words
        .get_key_value(&pos)
        .map(|(r, w): (&std::ops::Range<usize>, &Word)| (r.start, r.end, w.word.clone()))
}

#[test]
fn splits_lines_at_newlines() {
    let t = parse("one\ntwo\n");
    assert_eq!(t.text.len(), 3);
    assert_eq!(t.text[0].text, "one");
    assert_eq!(t.text[1].text, "two");
    assert_eq!(t.text[2].text, "");
}

#[test]
fn empty_text_has_one_empty_line() {
    let t = parse("");
    assert_eq!(t.text.len(), 1);
    assert_eq!(t.text[0].text, "");
    assert_eq!(t.text[0].len, 0);
    assert!(t.text[0].words.is_empty());
}

#[test]
fn joined_lines_give_back_the_text() {
    let s = "first line\n\nשלום עולם\nlast";
    let t = parse(s);
    let joined: Vec<&str> = t.text.iter().map(|l| l.text.as_str()).collect();
    assert_eq!(joined.join("\n"), s);
}

#[test]
fn words_are_runs_of_letters() {
    let line = parse_line("hello, world".to_string());
    assert_eq!(line.len, 12);
    assert_eq!(word_at(&line, 0), Some((0, 5, "hello".to_string())));
    assert_eq!(word_at(&line, 4), Some((0, 5, "hello".to_string())));
    assert_eq!(word_at(&line, 5), None);
    assert_eq!(word_at(&line, 6), None);
    assert_eq!(word_at(&line, 7), Some((7, 12, "world".to_string())));
    assert_eq!(line.words.len(), 2);
    assert!(line.commentary.is_empty());
}

#[test]
fn opening_quotes_are_left_out_of_words() {
    // the opening quote before a word and one right after it are not part of it
    let line = parse_line("say “hi“ now".to_string());
    assert_eq!(word_at(&line, 0), Some((0, 3, "say".to_string())));
    assert_eq!(word_at(&line, 4), None);
    assert_eq!(word_at(&line, 5), Some((5, 7, "hi".to_string())));
    assert_eq!(word_at(&line, 7), None);
    assert_eq!(word_at(&line, 9), Some((9, 12, "now".to_string())));
}

#[test]
fn apostrophes_belong_to_words() {
    let line = parse_line("don't stop".to_string());
    assert_eq!(word_at(&line, 3), Some((0, 5, "don't".to_string())));
    assert_eq!(word_at(&line, 6), Some((6, 10, "stop".to_string())));
}

#[test]
fn hebrew_words_count_characters() {
    let line = parse_line("שלום עולם".to_string());
    assert_eq!(line.len, 9);
    assert_eq!(line.text.len(), 17);
    assert_eq!(word_at(&line, 2), Some((0, 4, "שלום".to_string())));
    assert_eq!(word_at(&line, 5), Some((5, 9, "עולם".to_string())));
}

#[test]
fn digits_split_words() {
    let line = parse_line("ab12cd".to_string());
    assert_eq!(word_at(&line, 0), Some((0, 2, "ab".to_string())));
    assert_eq!(word_at(&line, 2), None);
    assert_eq!(word_at(&line, 4), Some((4, 6, "cd".to_string())));
}

#[test]
fn char_length_of_lines_and_strs() {
    let line = parse_line("שלום".to_string());
    assert_eq!(line.char_len(), 4);
    assert_eq!((&line).char_len(), 4);
    assert_eq!("שלום".char_len(), 4);
}
