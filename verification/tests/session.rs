use translator::session::{
    get_line_position, position_or_text_len, AppState, AppStateKind, CommentaryPosition, Input,
    Outcome, Status, TranslationState,
};
use translator::structure::Commentary;

fn loaded(text: &str) -> AppState {
    let mut app = AppState::default();
    app.load(text);
    app
}

fn press(app: &mut AppState, input: Input) -> Outcome {
    assert!(app.accepts(input));
    app.handle_input(input)
}

fn keys(app: &mut AppState, s: &str) {
    for c in s.chars() {
        press(app, Input::Char(c));
    }
}

fn session(app: &AppState) -> (&(usize, usize), &Option<CommentaryPosition>, &String, &translator::structure::Text, &TranslationState) {
    match &app.kind {
        AppStateKind::Translating {
            position,
            sub_position,
            command_buffer,
            current,
            translation_state,
        } => (position, sub_position, command_buffer, current, translation_state),
        AppStateKind::New => panic!("no session"),
    }
}

#[test]
fn q_quits_in_new_state() {
    let mut app = AppState::default();
    assert_eq!(press(&mut app, Input::Char('q')), Outcome::Quit);
}

#[test]
fn other_keys_go_to_the_explorer_before_loading() {
    let mut app = AppState::default();
    assert_eq!(press(&mut app, Input::Char('l')), Outcome::Explorer);
    assert_eq!(press(&mut app, Input::Enter), Outcome::Explorer);
    assert_eq!(press(&mut app, Input::Other), Outcome::Explorer);
}

#[test]
fn load_starts_at_the_first_line() {
    let app = loaded("ab cd\nef");
    let (position, sub, cb, current, ts) = session(&app);
    assert_eq!(*position, (0, 0));
    assert!(sub.is_none());
    assert_eq!(cb, "");
    assert_eq!(current.text.len(), 2);
    assert_eq!(*ts, TranslationState::Normal);
}

#[test]
fn moving_right_stops_before_the_last_byte() {
    let mut app = loaded("abc");
    keys(&mut app, "lll");
    assert_eq!(*session(&app).0, (0, 2));
    keys(&mut app, "h");
    assert_eq!(*session(&app).0, (0, 1));
}

#[test]
fn moving_down_stops_before_the_last_line() {
    let mut app = loaded("a\nb\nc\n");
    keys(&mut app, "jjjj");
    assert_eq!(*session(&app).0, (2, 0));
    keys(&mut app, "k");
    assert_eq!(*session(&app).0, (1, 0));
}

#[test]
fn space_then_t_adds_a_translation_after_the_word() {
    let mut app = loaded("ab cd");
    keys(&mut app, " t");
    let (position, sub, cb, current, _) = session(&app);
    // the cursor word "ab" ends at position 2
    assert_eq!(*position, (0, 2));
    assert_eq!(*sub, Some(CommentaryPosition::Translation(0)));
    assert_eq!(cb, "");
    let c = current.text[0].commentary.get(&2).unwrap();
    assert_eq!(c.sentence_translation.as_deref(), Some(""));
    assert!(c.description_paragraph.is_none());
}

#[test]
fn typing_appends_to_the_translation() {
    let mut app = loaded("ab cd");
    keys(&mut app, " t");
    press(&mut app, Input::Char('i'));
    assert!(app.in_editing_mode());
    keys(&mut app, "xy");
    {
        let (_, sub, _, current, _) = session(&app);
        assert_eq!(*sub, Some(CommentaryPosition::Translation(1)));
        let c = current.text[0].commentary.get(&2).unwrap();
        assert_eq!(c.sentence_translation.as_deref(), Some("xy"));
    }
    // q does not quit while editing, and is not typed either
    assert_eq!(press(&mut app, Input::Char('q')), Outcome::Continue);
    press(&mut app, Input::Esc);
    assert!(app.in_normal_mode());
    assert_eq!(press(&mut app, Input::Char('q')), Outcome::Quit);
}

#[test]
fn descriptions_grow_lines_on_enter() {
    let mut app = loaded("ab cd");
    keys(&mut app, " d");
    press(&mut app, Input::Char('i'));
    keys(&mut app, "n");
    press(&mut app, Input::Enter);
    keys(&mut app, "m");
    let (_, sub, _, current, _) = session(&app);
    assert_eq!(*sub, Some(CommentaryPosition::Description(1, 0)));
    let c = current.text[0].commentary.get(&2).unwrap();
    assert_eq!(c.description_paragraph, Some(vec!["n".to_string(), "m".to_string()]));
}

#[test]
fn escape_after_space_leaves_the_commentary() {
    let mut app = loaded("ab cd");
    keys(&mut app, " t");
    keys(&mut app, " ");
    press(&mut app, Input::Esc);
    let (_, sub, cb, _, _) = session(&app);
    assert!(sub.is_none());
    assert_eq!(cb, "");
}

#[test]
fn capital_d_attaches_at_the_word_start() {
    let mut app = loaded("ab cd");
    keys(&mut app, "llll");
    assert_eq!(*session(&app).0, (0, 4));
    keys(&mut app, " D");
    let (position, sub, _, current, _) = session(&app);
    assert_eq!(*position, (0, 3));
    assert_eq!(*sub, Some(CommentaryPosition::Description(0, 0)));
    let c = current.text[0].commentary.get(&3).unwrap();
    assert_eq!(c.description_paragraph, Some(vec![]));
}

#[test]
fn typing_into_an_empty_description_is_refused() {
    // `D` makes a description with no line; typing into it would index past its end
    let mut app = loaded("ab cd");
    keys(&mut app, " D");
    press(&mut app, Input::Char('i'));
    assert!(!app.accepts(Input::Char('x')));
}

#[test]
fn unknown_keys_in_a_session_go_to_the_explorer() {
    let mut app = loaded("ab");
    assert_eq!(press(&mut app, Input::Char('x')), Outcome::Explorer);
    assert_eq!(press(&mut app, Input::Enter), Outcome::Explorer);
}

#[test]
fn line_position_uses_the_word_under_the_cursor() {
    let app = loaded("ab cd");
    let (_, _, _, current, _) = session(&app);
    let line = &current.text[0];
    assert_eq!(get_line_position(&(0, 1), line, true), 2);
    assert_eq!(get_line_position(&(0, 1), line, false), 0);
    assert_eq!(get_line_position(&(0, 2), line, true), 2);
    assert_eq!(get_line_position(&(0, 9), line, true), 4);
}

#[test]
fn positions_are_clamped_to_the_last_byte() {
    assert_eq!(position_or_text_len(10, "abc"), 2);
    assert_eq!(position_or_text_len(1, "abc"), 1);
    assert_eq!(position_or_text_len(5, ""), 0);
    assert_eq!(position_or_text_len(9, "שלום"), 7);
}

#[test]
fn line_commentary_lookup_clamps_the_position() {
    let mut app = loaded("ab cd");
    keys(&mut app, " t");
    let (_, _, _, current, _) = session(&app);
    let line = &current.text[0];
    assert!(line.get_commentary(2).is_some());
    assert!(line.get_commentary(0).is_none());
    assert!(line.get_commentary(3).is_none());
    assert_eq!(line.position_or_text_len(7), 4);
}

#[test]
fn a_commentary_after_the_last_byte_is_not_found_by_lookup() {
    // "ab": the word ends at 2, past the last byte (1), where lookups clamp to
    let mut app = loaded("ab");
    keys(&mut app, "l t");
    let (position, _, _, current, _) = session(&app);
    assert_eq!(*position, (0, 2));
    let line = &current.text[0];
    assert!(line.commentary.contains_key(&2));
    assert!(line.get_commentary(2).is_none());
    assert!(line.get_commentary(1).is_none());
}

#[test]
fn commentary_can_be_changed_through_a_mutable_lookup() {
    let mut app = loaded("ab cd");
    keys(&mut app, " t");
    if let AppStateKind::Translating { current, .. } = &mut app.kind {
        let line = &mut current.text[0];
        let c: &mut Commentary = line.get_commentary_mut(2).unwrap();
        c.sentence_translation = Some("x".to_string());
        assert_eq!(line.get_commentary_unchecked(2).sentence_translation.as_deref(), Some("x"));
        assert!(line.get_commentary_mut(0).is_none());
    }
}

#[test]
fn status_text() {
    assert_eq!(Status::default().to_string(), "Ok");
    assert_eq!(Status::Okay(Some("saved".to_string())).to_string(), "Ok: saved");
    assert_eq!(Status::Error("bad".to_string()).to_string(), "Err bad");
    assert_eq!(Status::Warning("hm".to_string()).to_string(), "Warn hm");
    assert_eq!(Status::Loading.to_string(), "Loading...");
}

#[test]
fn editing_and_escape_give_back_the_state() {
    let mut app = loaded("ab cd");
    keys(&mut app, " t");
    let before = format!("{:?}", app.kind);
    press(&mut app, Input::Char('i'));
    assert_eq!(*session(&app).4, TranslationState::Editing);
    press(&mut app, Input::Esc);
    assert_eq!(format!("{:?}", app.kind), before);
}

#[test]
fn inputs_never_change_the_lines() {
    let mut app = loaded("ab cd\nef gh\n");
    let texts = |app: &AppState| -> Vec<String> {
        session(app).3.text.iter().map(|l| l.text.clone()).collect()
    };
    let before = texts(&app);
    for c in [' ', 't', 'i', 'x', 'q'] {
        press(&mut app, Input::Char(c));
    }
    press(&mut app, Input::Esc);
    keys(&mut app, "jlh d");
    assert_eq!(texts(&app), before);
    assert_eq!(session(&app).3.text[0].words.len(), 2);
}
