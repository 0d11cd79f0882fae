use translator::page::{try_create_html, HtmlPart};
use translator::render::{
    cursor_ify, cursor_ify_description, cursor_ify_translation, join_strings, try_render_text,
};
use translator::session::{AppState, AppStateKind, CommentaryPosition, Input, TranslationState};
use translator::structure::Commentary;

const ON: &str = "\x1b[47;5m";
const OFF: &str = "\x1b[0m";

fn loaded(text: &str) -> AppState {
    let mut app = AppState::default();
    app.load(text);
    app
}

fn keys(app: &mut AppState, inputs: &[Input]) {
    for i in inputs {
        assert!(app.accepts(*i));
        app.handle_input(*i);
    }
}

fn shown(app: &AppState) -> Option<String> {
    match &app.kind {
        AppStateKind::Translating {
            position,
            sub_position,
            current,
            translation_state,
            ..
        } => try_render_text(current, translation_state, position, sub_position),
        AppStateKind::New => None,
    }
}

#[test]
fn cursor_marks_one_byte() {
    let mut s = "abc".to_string();
    cursor_ify(&mut s, 1, false, false);
    assert_eq!(s, format!("a{ON}b{OFF}c"));
}

#[test]
fn cursor_is_moved_back_into_the_text() {
    let mut s = "abc".to_string();
    cursor_ify(&mut s, 10, false, false);
    assert_eq!(s, format!("ab{ON}c{OFF}"));
}

#[test]
fn cursor_on_empty_text_is_a_blank() {
    let mut s = String::new();
    cursor_ify(&mut s, 0, false, false);
    assert_eq!(s, format!("{ON} {OFF}"));
}

#[test]
fn editing_cursor_stands_after_the_character() {
    let mut s = "abc".to_string();
    cursor_ify(&mut s, 0, true, true);
    assert_eq!(s, format!("a{ON}b{OFF}c"));
    let mut s = "abc".to_string();
    cursor_ify(&mut s, 2, true, true);
    assert_eq!(s, format!("abc{ON} {OFF}"));
}

#[test]
fn cursor_codes_appear_once_and_come_out_again() {
    for (text, column, edit) in [("hello", 2, false), ("hello", 4, true), ("", 0, true), ("ab", 7, false)] {
        let mut s = text.to_string();
        cursor_ify(&mut s, column, edit, true);
        assert_eq!(s.matches(ON).count(), 1);
        assert_eq!(s.matches(OFF).count(), 1);
        let start = s.find(ON).unwrap();
        let end = s.find(OFF).unwrap();
        assert_eq!(end, start + ON.len() + 1);
        let back = s.replacen(ON, "", 1).replacen(OFF, "", 1);
        let at_end = text.is_empty() || (edit && column.min(text.len() - 1) + 1 == text.len());
        if at_end {
            assert_eq!(back, format!("{text} "));
        } else {
            assert_eq!(back, text);
        }
    }
}

#[test]
fn joins_with_separator() {
    let parts = vec!["a".to_string(), "".to_string(), "bc".to_string()];
    assert_eq!(join_strings(&parts, "\n"), "a\n\nbc");
    assert_eq!(join_strings(&Vec::new(), "\n"), "");
}

#[test]
fn translation_cursor() {
    let c = Commentary {
        sentence_translation: Some("xy".to_string()),
        description_paragraph: Some(vec!["d1".to_string(), "d2".to_string()]),
    };
    let (t, d) = cursor_ify_translation(&TranslationState::Normal, &c, 0);
    assert_eq!(t, Some(format!("{ON}x{OFF}y")));
    assert_eq!(d, "\nd1\nd2\n");
    let (t, d) = cursor_ify_description(&TranslationState::Normal, &c, 1, 1);
    assert_eq!(t, Some("xy".to_string()));
    assert_eq!(d, format!("\nd1\nd{ON}2{OFF}\n"));
}

#[test]
fn plain_line_shows_the_cursor() {
    let app = loaded("ab cd\nef");
    assert_eq!(shown(&app), Some(format!("{ON}a{OFF}b cd\nef")));
}

#[test]
fn commentary_is_shown_after_its_piece() {
    let mut app = loaded("ab cd");
    keys(
        &mut app,
        &[
            Input::Char(' '),
            Input::Char('t'),
            Input::Char('i'),
            Input::Char('x'),
            Input::Char('y'),
            Input::Esc,
        ],
    );
    assert_eq!(shown(&app), Some(format!("abx{ON}y{OFF}\n cd")));
}

#[test]
fn hebrew_cursor_inside_a_character_is_refused() {
    // the cursor column counts bytes: column 1 falls inside the first letter
    let mut app = loaded("שלום");
    keys(&mut app, &[Input::Char('l')]);
    assert_eq!(shown(&app), None);
}

#[test]
fn page_cuts_lines_at_commentary() {
    let mut app = loaded("ab cd\nef");
    keys(&mut app, &[Input::Char(' '), Input::Char('t'), Input::Char('i'), Input::Char('x')]);
    if let AppStateKind::Translating { current, .. } = &app.kind {
        let page = try_create_html(current).unwrap();
        assert_eq!(page.title, "weekl sicha");
        assert_eq!(page.lines.len(), 2);
        assert_eq!(
            page.lines[0],
            vec![
                HtmlPart::Sentence { translation: Some("x".to_string()), text: "ab".to_string() },
                HtmlPart::Break,
                HtmlPart::Sentence { translation: None, text: " cd".to_string() },
                HtmlPart::Break,
            ]
        );
        assert_eq!(
            page.lines[1],
            vec![HtmlPart::Sentence { translation: None, text: "ef".to_string() }, HtmlPart::Break]
        );
    } else {
        panic!("no session");
    }
}

#[test]
fn page_refuses_commentary_past_the_line() {
    let mut app = loaded("ab");
    keys(&mut app, &[Input::Char(' '), Input::Char('t')]);
    if let AppStateKind::Translating { current, sub_position, .. } = &app.kind {
        assert_eq!(*sub_position, Some(CommentaryPosition::Translation(0)));
        assert!(try_create_html(current).is_none());
    } else {
        panic!("no session");
    }
}

#[test]
fn a_pdf_is_made_for_a_text() {
    let t = translator::converter::parse("ab");
    let pdf = translator::pdf::create_pdf(&t);
    assert!(pdf.is_ok());
}

#[test]
fn page_pieces_join_to_the_line() {
    let mut app = loaded("one two three");
    keys(&mut app, &[Input::Char(' '), Input::Char('t')]);
    keys(&mut app, &[Input::Char('l'), Input::Char('l'), Input::Char('l'), Input::Char(' '), Input::Char('d')]);
    if let AppStateKind::Translating { current, .. } = &app.kind {
        let page = try_create_html(current).unwrap();
        let joined: String = page.lines[0]
            .iter()
            .filter_map(|p| match p {
                HtmlPart::Sentence { text, .. } => Some(text.clone()),
                _ => None,
            })
            .collect();
        assert_eq!(joined, "one two three");
        assert!(page.lines[0].contains(&HtmlPart::Description(vec![String::new()])));
    } else {
        panic!("no session");
    }
}
