//! The editing session: the state of the translator and how each key changes
//! it. The program around it reads the keys, hands them to
//! [`AppState::handle_input`] and performs the [`Outcome`] it returns.
use crate::converter::{parse, parsed_line, push_char, split_lines, words_wf};
use crate::structure::{
    byte_len, clamp_position, commentary_key, word_entries, word_range_at, Commentary,
    CommentaryModel, Line, LineModel, Text, WordModel,
};
use vstd::prelude::*;
use vstd::string::StrSliceExecFns;

verus! {

#[derive(Debug, Clone, Copy, PartialEq, Eq, Structural)]
pub enum TranslationState {
    Editing,
    Normal,
}

impl Default for TranslationState {
    fn default() -> (r: Self)
        ensures
            r == TranslationState::Normal,
    {
        TranslationState::Normal
    }
}

/// Where the cursor stands inside a commentary: a line and a column of the
/// description, or a column of the translation (columns count bytes).
#[derive(Debug, Clone, Copy, PartialEq, Eq, Structural)]
pub enum CommentaryPosition {
    Description(usize, usize),
    Translation(usize),
}

#[derive(Debug)]
pub enum AppStateKind {
    Translating {
        position: (usize, usize),
        sub_position: Option<CommentaryPosition>,
        command_buffer: String,
        current: Text,
        translation_state: TranslationState,
    },
    New,
}

impl Default for AppStateKind {
    fn default() -> (r: Self)
        ensures
            r@ == KindModel::New,
    {
        AppStateKind::New
    }
}

#[derive(Debug, Clone)]
pub enum Status {
    Okay(Option<String>),
    Error(String),
    Warning(String),
    Loading,
}

impl Default for Status {
    fn default() -> (r: Self)
        ensures
            r matches Status::Okay(None),
    {
        Status::Okay(None)
    }
}

/// The text a status is shown as.
pub open spec fn status_text(s: Status) -> Seq<char> {
    match s {
        Status::Okay(Some(m)) => "Ok: "@ + m@,
        Status::Okay(None) => "Ok"@,
        Status::Error(m) => "Err "@ + m@,
        Status::Warning(m) => "Warn "@ + m@,
        Status::Loading => "Loading..."@,
    }
}

impl Status {
    /// The text the status is shown as.
    pub fn to_string(&self) -> (r: String)
        ensures
            r@ == status_text(*self),
    {
        match self {
            Status::Okay(Some(m)) => {
                let mut r = String::from_str("Ok: ");
                r.append(m.as_str());
                r
            },
            Status::Okay(None) => String::from_str("Ok"),
            Status::Error(m) => {
                let mut r = String::from_str("Err ");
                r.append(m.as_str());
                r
            },
            Status::Warning(m) => {
                let mut r = String::from_str("Warn ");
                r.append(m.as_str());
                r
            },
            Status::Loading => String::from_str("Loading..."),
        }
    }
}

/// The state of the translator (its input area is kept by the program).
#[derive(Debug)]
pub struct AppState {
    pub kind: AppStateKind,
    pub status: Status,
}

impl Default for AppState {
    fn default() -> (r: Self)
        ensures
            r.kind@ == KindModel::New,
            r.status matches Status::Okay(None),
    {
        AppState { kind: AppStateKind::default(), status: Status::default() }
    }
}

/// The model of a translating session.
pub struct Session {
    pub position: (usize, usize),
    pub sub_position: Option<CommentaryPosition>,
    pub command_buffer: Seq<char>,
    pub current: Seq<LineModel>,
    pub translation_state: TranslationState,
}

pub enum KindModel {
    Translating(Session),
    New,
}

impl View for AppStateKind {
    type V = KindModel;

    open spec fn view(&self) -> KindModel {
        match self {
            AppStateKind::Translating {
                position,
                sub_position,
                command_buffer,
                current,
                translation_state,
            } => KindModel::Translating(
                Session {
                    position: *position,
                    sub_position: *sub_position,
                    command_buffer: command_buffer@,
                    current: current@,
                    translation_state: *translation_state,
                },
            ),
            AppStateKind::New => KindModel::New,
        }
    }
}

/// A key (or another event) as the session sees it.
#[derive(Debug, Clone, Copy, PartialEq, Eq, Structural)]
pub enum Input {
    Char(char),
    Esc,
    Enter,
    /// Any other key or event.
    Other,
}

/// What the program does after an input.
#[derive(Debug, Clone, Copy, PartialEq, Eq, Structural)]
pub enum Outcome {
    /// Stop the program.
    Quit,
    /// The input was handled by the session.
    Continue,
    /// Hand the event to the file explorer.
    Explorer,
}

pub open spec fn in_editing(k: KindModel) -> bool {
    k matches KindModel::Translating(s) && s.translation_state == TranslationState::Editing
}

/// A session is well formed when its cursor is on one of its lines.
pub open spec fn session_wf(s: Session) -> bool {
    s.position.0 < s.current.len()
}

pub open spec fn kind_wf(k: KindModel) -> bool {
    k matches KindModel::Translating(s) ==> session_wf(s)
}

pub open spec fn sat_sub(n: usize, k: usize) -> usize {
    if n < k {
        0
    } else {
        (n - k) as usize
    }
}

pub open spec fn min_usize(a: usize, b: usize) -> usize {
    if a < b {
        a
    } else {
        b
    }
}

pub open spec fn empty_commentary() -> CommentaryModel {
    CommentaryModel { translation: None, description: None }
}

/// The commentary of a line under `key`, or an empty one.
pub open spec fn commentary_at(line: LineModel, key: usize) -> CommentaryModel {
    if line.commentary.contains_key(key) {
        line.commentary[key]
    } else {
        empty_commentary()
    }
}

/// The lines with the commentary of line `row` under `key` set to `c`.
pub open spec fn with_commentary(
    current: Seq<LineModel>,
    row: usize,
    key: usize,
    c: CommentaryModel,
) -> Seq<LineModel> {
    let line = current[row as int];
    current.update(
        row as int,
        LineModel {
            len: line.len,
            text: line.text,
            words: line.words,
            commentary: line.commentary.insert(key, c),
        },
    )
}

/// The range of the word of `words` that contains position `p`, if any.
pub open spec fn word_at(words: Seq<(usize, usize, WordModel)>, p: usize) -> Option<(usize, usize)> {
    if exists|k: int| 0 <= k < words.len() && #[trigger] words[k].0 <= p < words[k].1 {
        let k = choose|k: int| 0 <= k < words.len() && #[trigger] words[k].0 <= p < words[k].1;
        Some((words[k].0, words[k].1))
    } else {
        None
    }
}

/// Where a commentary for the cursor column `p` is attached: the end (or the
/// start) of the word under the cursor, or else the cursor column moved back
/// inside the text.
pub open spec fn line_position(line: LineModel, p: usize, end: bool) -> usize {
    match word_at(line.words, p) {
        Some((s, e)) => if end {
            e
        } else {
            s
        },
        None => clamp_position(byte_len(line.text), p),
    }
}

pub open spec fn with_position(s: Session, position: (usize, usize)) -> Session {
    Session { position, ..s }
}

pub open spec fn with_sub(s: Session, sub: Option<CommentaryPosition>) -> Session {
    Session { sub_position: sub, ..s }
}

/// Key `l`: one column to the right.
pub open spec fn move_right(s: Session) -> Session {
    let (p0, p1) = s.position;
    match s.sub_position {
        Some(sp) => {
            let line = s.current[p0 as int];
            let key = commentary_key(line, p1);
            if line.commentary.contains_key(key) {
                let c = line.commentary[key];
                match sp {
                    CommentaryPosition::Description(l, col) => match c.description {
                        Some(d) => if l < d.len() && col + 1 < byte_len(d[l as int]) {
                            with_sub(s, Some(CommentaryPosition::Description(l, (col + 1) as usize)))
                        } else {
                            s
                        },
                        None => s,
                    },
                    CommentaryPosition::Translation(col) => match c.translation {
                        Some(t) => if col + 1 < byte_len(t) {
                            with_sub(s, Some(CommentaryPosition::Translation((col + 1) as usize)))
                        } else {
                            s
                        },
                        None => s,
                    },
                }
            } else {
                s
            }
        },
        None => if p0 < s.current.len() && p1 + 1 < byte_len(s.current[p0 as int].text) {
            with_position(s, (p0, (p1 + 1) as usize))
        } else {
            s
        },
    }
}

/// Key `h`: one column to the left.
pub open spec fn move_left(s: Session) -> Session {
    let (p0, p1) = s.position;
    match s.sub_position {
        Some(CommentaryPosition::Description(lp, col)) => if col > 0 {
            let line = s.current[p0 as int];
            let d = line.commentary[commentary_key(line, p1)].description.unwrap()[lp as int];
            with_sub(
                s,
                Some(
                    CommentaryPosition::Description(
                        lp,
                        min_usize((col - 1) as usize, sat_sub(byte_len(d), 2)),
                    ),
                ),
            )
        } else {
            s
        },
        Some(CommentaryPosition::Translation(col)) => if col > 0 {
            with_sub(s, Some(CommentaryPosition::Translation((col - 1) as usize)))
        } else {
            s
        },
        None => if p1 > 0 {
            with_position(
                s,
                (p0, min_usize((p1 - 1) as usize, sat_sub(byte_len(s.current[p0 as int].text), 2))),
            )
        } else {
            s
        },
    }
}

/// Key `k`: one line up.
pub open spec fn move_up(s: Session) -> Session {
    let (p0, p1) = s.position;
    match s.sub_position {
        Some(CommentaryPosition::Description(l, col)) => if l > 0 {
            with_sub(s, Some(CommentaryPosition::Description((l - 1) as usize, col)))
        } else {
            s
        },
        _ => if p0 > 0 {
            with_sub(with_position(s, ((p0 - 1) as usize, p1)), None)
        } else {
            s
        },
    }
}

/// Key `j`: one line down.
pub open spec fn move_down(s: Session) -> Session {
    let (p0, p1) = s.position;
    match s.sub_position {
        Some(CommentaryPosition::Description(l, col)) => {
            let line = s.current[p0 as int];
            match line.commentary[commentary_key(line, p1)].description {
                Some(d) => if l + 1 < d.len() {
                    with_sub(s, Some(CommentaryPosition::Description((l + 1) as usize, col)))
                } else {
                    s
                },
                None => s,
            }
        },
        _ => if p0 + 2 < s.current.len() {
            with_sub(with_position(s, ((p0 + 1) as usize, p1)), None)
        } else {
            s
        },
    }
}

/// The kinds of commentary that keys `t`, `d` and `D` add.
#[derive(Debug, Clone, Copy, PartialEq, Eq, Structural)]
pub enum NewCommentary {
    /// `t`: a translation, after the word under the cursor.
    Translation,
    /// `d`: a description of one empty line, after the word under the cursor.
    Description,
    /// `D`: a description of no line, before the word under the cursor.
    EmptyDescription,
}

pub open spec fn is_command_prefix(cb: Seq<char>) -> bool {
    cb == seq![' ']
}

pub open spec fn added_commentary(c: CommentaryModel, kind: NewCommentary) -> CommentaryModel {
    match kind {
        NewCommentary::Translation => CommentaryModel {
            translation: Some(
                match c.translation {
                    Some(t) => t,
                    None => Seq::empty(),
                },
            ),
            description: c.description,
        },
        NewCommentary::Description => CommentaryModel {
            translation: c.translation,
            description: Some(
                match c.description {
                    Some(d) => d,
                    None => seq![Seq::<char>::empty()],
                },
            ),
        },
        NewCommentary::EmptyDescription => CommentaryModel {
            translation: c.translation,
            description: Some(
                match c.description {
                    Some(d) => d,
                    None => Seq::empty(),
                },
            ),
        },
    }
}

/// Keys `t`, `d`, `D` after a space: a commentary at the cursor, entered.
pub open spec fn add_commentary(s: Session, kind: NewCommentary) -> Session {
    let (p0, p1) = s.position;
    if is_command_prefix(s.command_buffer) {
        let line = s.current[p0 as int];
        let lp = line_position(line, p1, kind != NewCommentary::EmptyDescription);
        Session {
            position: if p1 < byte_len(line.text) {
                (p0, lp)
            } else {
                s.position
            },
            sub_position: Some(
                if kind == NewCommentary::Translation {
                    CommentaryPosition::Translation(0)
                } else {
                    CommentaryPosition::Description(0, 0)
                },
            ),
            command_buffer: Seq::empty(),
            current: with_commentary(
                s.current,
                p0,
                lp,
                added_commentary(commentary_at(line, lp), kind),
            ),
            translation_state: s.translation_state,
        }
    } else {
        s
    }
}

/// Escape in normal mode after a space: leave the commentary.
pub open spec fn leave_commentary(s: Session) -> Session {
    if is_command_prefix(s.command_buffer) {
        Session { command_buffer: Seq::empty(), sub_position: None, ..s }
    } else {
        s
    }
}

/// A character typed into the translation under the cursor (editing mode).
pub open spec fn type_translation(s: Session, c: char) -> Session {
    let (p0, p1) = s.position;
    let line = s.current[p0 as int];
    let com = line.commentary[p1];
    match com.translation {
        Some(t) => Session {
            sub_position: Some(CommentaryPosition::Translation(byte_len(t))),
            current: with_commentary(
                s.current,
                p0,
                p1,
                CommentaryModel { translation: Some(t.push(c)), description: com.description },
            ),
            ..s
        },
        None => s,
    }
}

/// A character typed into the description line under the cursor.
pub open spec fn type_description(s: Session, c: char, l: usize) -> Session {
    let (p0, p1) = s.position;
    let line = s.current[p0 as int];
    let key = commentary_key(line, p1);
    let com = line.commentary[key];
    match com.description {
        Some(d) => Session {
            sub_position: Some(CommentaryPosition::Description(l, byte_len(d[l as int]))),
            current: with_commentary(
                s.current,
                p0,
                key,
                CommentaryModel {
                    translation: com.translation,
                    description: Some(d.update(l as int, d[l as int].push(c))),
                },
            ),
            ..s
        },
        None => s,
    }
}

/// Enter while editing a description: a new line is added to it.
pub open spec fn new_description_line(s: Session, l: usize) -> Session {
    let (p0, p1) = s.position;
    let line = s.current[p0 as int];
    let key = commentary_key(line, p1);
    let com = line.commentary[key];
    match com.description {
        Some(d) => Session {
            sub_position: Some(CommentaryPosition::Description((l + 1) as usize, 0)),
            current: with_commentary(
                s.current,
                p0,
                key,
                CommentaryModel {
                    translation: com.translation,
                    description: Some(d.push(Seq::empty())),
                },
            ),
            ..s
        },
        None => s,
    }
}

/// The session after an input other than `q`; `None` when the input goes to
/// the file explorer.
pub open spec fn session_step(s: Session, input: Input) -> Option<Session> {
    if s.translation_state == TranslationState::Normal {
        match input {
            Input::Char(c) => if c == 'l' {
                Some(move_right(s))
            } else if c == 'h' {
                Some(move_left(s))
            } else if c == 'k' {
                Some(move_up(s))
            } else if c == 'j' {
                Some(move_down(s))
            } else if c == 't' {
                Some(add_commentary(s, NewCommentary::Translation))
            } else if c == 'd' {
                Some(add_commentary(s, NewCommentary::Description))
            } else if c == 'D' {
                Some(add_commentary(s, NewCommentary::EmptyDescription))
            } else if c == 'i' && s.sub_position is Some {
                Some(Session { translation_state: TranslationState::Editing, ..s })
            } else if c == ' ' {
                Some(Session { command_buffer: s.command_buffer.push(' '), ..s })
            } else {
                None
            },
            Input::Esc => Some(leave_commentary(s)),
            _ => None,
        }
    } else {
        match input {
            Input::Esc => Some(Session { translation_state: TranslationState::Normal, ..s }),
            Input::Char(c) => match s.sub_position {
                Some(CommentaryPosition::Translation(_)) => Some(type_translation(s, c)),
                Some(CommentaryPosition::Description(l, _)) => Some(type_description(s, c, l)),
                None => None,
            },
            Input::Enter => match s.sub_position {
                Some(CommentaryPosition::Description(l, _)) => Some(new_description_line(s, l)),
                _ => None,
            },
            Input::Other => None,
        }
    }
}

/// The state and the outcome after an input.
pub open spec fn step(k: KindModel, input: Input) -> (KindModel, Outcome) {
    if input == Input::Char('q') {
        (
            k,
            if in_editing(k) {
                Outcome::Continue
            } else {
                Outcome::Quit
            },
        )
    } else {
        match k {
            KindModel::New => (k, Outcome::Explorer),
            KindModel::Translating(s) => match session_step(s, input) {
                Some(s2) => (KindModel::Translating(s2), Outcome::Continue),
                None => (k, Outcome::Explorer),
            },
        }
    }
}

/// The inputs on which the session does its work without a panic: the lines,
/// commentaries and description lines that the input reads are there.
pub open spec fn session_input_ok(s: Session, input: Input) -> bool {
    let (p0, p1) = s.position;
    let in_line = p0 < s.current.len();
    let key = commentary_key(s.current[p0 as int], p1);
    let has_key = s.current[p0 as int].commentary.contains_key(key);
    if s.translation_state == TranslationState::Normal {
        match input {
            Input::Char(c) => if c == 'l' {
                s.sub_position is Some ==> in_line
            } else if c == 'h' {
                match s.sub_position {
                    Some(CommentaryPosition::Description(lp, col)) => col > 0 ==> {
                        &&& in_line
                        &&& has_key
                        &&& s.current[p0 as int].commentary[key].description matches Some(d)
                        &&& lp < d.len()
                    },
                    Some(CommentaryPosition::Translation(_)) => true,
                    None => p1 > 0 ==> in_line,
                }
            } else if c == 'j' {
                s.sub_position matches Some(CommentaryPosition::Description(_, _)) ==> in_line
                    && has_key
            } else if c == 't' || c == 'd' || c == 'D' {
                is_command_prefix(s.command_buffer) ==> in_line
            } else {
                true
            },
            _ => true,
        }
    } else {
        match input {
            Input::Char(c) => match s.sub_position {
                Some(CommentaryPosition::Translation(_)) => in_line
                    && s.current[p0 as int].commentary.contains_key(p1),
                Some(CommentaryPosition::Description(l, _)) => in_line && has_key && (
                s.current[p0 as int].commentary[key].description matches Some(d) ==> l < d.len()),
                None => true,
            },
            Input::Enter => match s.sub_position {
                Some(CommentaryPosition::Description(l, _)) => in_line && has_key && (
                s.current[p0 as int].commentary[key].description is Some ==> l < usize::MAX),
                _ => true,
            },
            _ => true,
        }
    }
}

pub open spec fn input_ok(k: KindModel, input: Input) -> bool {
    match k {
        KindModel::New => true,
        KindModel::Translating(s) => input == Input::Char('q') || session_input_ok(s, input),
    }
}


/// The lines with the commentary of line `row` under `key` taken out.
pub open spec fn without_commentary(current: Seq<LineModel>, row: usize, key: usize) -> Seq<
    LineModel,
> {
    let line = current[row as int];
    current.update(
        row as int,
        LineModel {
            len: line.len,
            text: line.text,
            words: line.words,
            commentary: line.commentary.remove(key),
        },
    )
}

proof fn lemma_remove_insert(current: Seq<LineModel>, row: usize, key: usize, c: CommentaryModel)
    requires
        row < current.len(),
    ensures
        with_commentary(without_commentary(current, row, key), row, key, c) == with_commentary(
            current,
            row,
            key,
            c,
        ),
{
    assert(current[row as int].commentary.remove(key).insert(key, c) =~= current[row
        as int].commentary.insert(key, c));
    assert(with_commentary(without_commentary(current, row, key), row, key, c) =~= with_commentary(
        current,
        row,
        key,
        c,
    ));
}

/// Takes the commentary of line `row` under `key` out (an empty one when
/// there is none).
fn take_commentary(current: &mut Text, row: usize, key: usize) -> (c: Commentary)
    requires
        row < old(current)@.len(),
    ensures
        c@ == commentary_at(old(current)@[row as int], key),
        final(current)@ == without_commentary(old(current)@, row, key),
{
    let r = current.text[row].commentary.remove(&key);
    assert(current@[row as int].commentary =~= old(current)@[row as int].commentary.remove(key));
    assert(current@ =~= without_commentary(old(current)@, row, key));
    match r {
        Some(c) => c,
        None => Commentary { sentence_translation: None, description_paragraph: None },
    }
}

/// Sets the commentary of line `row` under `key`.
fn put_commentary(current: &mut Text, row: usize, key: usize, c: Commentary)
    requires
        row < old(current)@.len(),
    ensures
        final(current)@ == with_commentary(old(current)@, row, key, c@),
{
    current.text[row].commentary.insert(key, c);
    assert(final(current)@[row as int].commentary =~= old(current)@[row as int].commentary.insert(
        key,
        c@,
    ));
    assert(final(current)@ =~= with_commentary(old(current)@, row, key, c@));
}

/// The cursor column moved back inside a text of `text.len()` bytes.
pub fn position_or_text_len(position: usize, text: &str) -> (r: usize)
    ensures
        r == clamp_position(byte_len(text@), position),
{
    let len = text.len();
    (if len == 0 {
        0
    } else {
        len - 1
    }).min(position)
}

/// Where a commentary for the cursor is attached in `line`.
pub fn get_line_position(position: &(usize, usize), line: &Line, end: bool) -> (r: usize)
    ensures
        r == line_position(line@, position.1, end),
        forall|k: int|
            0 <= k < line@.words.len() && #[trigger] line@.words[k].0 <= position.1
                < line@.words[k].1 ==> r == (if end {
                line@.words[k].1
            } else {
                line@.words[k].0
            }),
{
    match word_range_at(&line.words, position.1) {
        Some((s, e)) => {
            proof {
                let words = line@.words;
                let k = choose|k: int|
                    0 <= k < words.len() && #[trigger] words[k].0 <= position.1 < words[k].1;
                assert(words[k].0 <= position.1 < words[k].1);
            }
            if end {
                e
            } else {
                s
            }
        },
        None => position_or_text_len(position.1, line.text.as_str()),
    }
}

fn is_command_prefix_exec(cb: &String) -> (r: bool)
    ensures
        r == is_command_prefix(cb@),
{
    let s = cb.as_str();
    let r = s.unicode_len() == 1 && s.get_char(0) == ' ';
    if r {
        assert(cb@ =~= seq![' ']);
    }
    r
}

fn byte_length(s: &String) -> (r: usize)
    ensures
        r == byte_len(s@),
{
    s.as_str().len()
}

fn move_right_exec(
    position: &mut (usize, usize),
    sub_position: &mut Option<CommentaryPosition>,
    current: &Text,
    Ghost(s): Ghost<Session>,
)
    requires
        s.position == *old(position),
        s.sub_position == *old(sub_position),
        s.current == current@,
        s.sub_position is Some ==> s.position.0 < s.current.len(),
    ensures
        *final(position) == move_right(s).position,
        *final(sub_position) == move_right(s).sub_position,
{
    let (p0, p1) = *position;
    match *sub_position {
        Some(sp) => {
            let line = &current.text[p0];
            match line.get_commentary(p1) {
                Some(c) => match sp {
                    CommentaryPosition::Description(l, col) => match &c.description_paragraph {
                        Some(d) => {
                            if l < d.len() {
                                let bl = byte_length(&d[l]);
                                if bl > 0 && col < bl - 1 {
                                    *sub_position = Some(
                                        CommentaryPosition::Description(l, col + 1),
                                    );
                                }
                            }
                        },
                        None => {},
                    },
                    CommentaryPosition::Translation(col) => match &c.sentence_translation {
                        Some(t) => {
                            let bl = byte_length(t);
                            if bl > 0 && col < bl - 1 {
                                *sub_position = Some(CommentaryPosition::Translation(col + 1));
                            }
                        },
                        None => {},
                    },
                },
                None => {},
            }
        },
        None => {
            if p0 < current.text.len() {
                let bl = byte_length(&current.text[p0].text);
                if bl > 0 && p1 < bl - 1 {
                    *position = (p0, p1 + 1);
                }
            }
        },
    }
}

fn move_left_exec(
    position: &mut (usize, usize),
    sub_position: &mut Option<CommentaryPosition>,
    current: &Text,
    Ghost(s): Ghost<Session>,
)
    requires
        s.position == *old(position),
        s.sub_position == *old(sub_position),
        s.current == current@,
        s.translation_state == TranslationState::Normal,
        session_input_ok(s, Input::Char('h')),
    ensures
        *final(position) == move_left(s).position,
        *final(sub_position) == move_left(s).sub_position,
{
    let (p0, p1) = *position;
    match *sub_position {
        Some(CommentaryPosition::Description(lp, col)) => {
            if col > 0 {
                let line = &current.text[p0];
                let com = line.get_commentary_unchecked(p1);
                match &com.description_paragraph {
                    Some(d) => {
                        let bl = byte_length(&d[lp]);
                        let m = if bl >= 2 {
                            bl - 2
                        } else {
                            0
                        };
                        *sub_position = Some(
                            CommentaryPosition::Description(
                                lp,
                                if col - 1 < m {
                                    col - 1
                                } else {
                                    m
                                },
                            ),
                        );
                    },
                    None => {},
                }
            }
        },
        Some(CommentaryPosition::Translation(col)) => {
            if col > 0 {
                *sub_position = Some(CommentaryPosition::Translation(col - 1));
            }
        },
        None => {
            if p1 > 0 {
                let bl = byte_length(&current.text[p0].text);
                let m = if bl >= 2 {
                    bl - 2
                } else {
                    0
                };
                *position = (
                    p0,
                    if p1 - 1 < m {
                        p1 - 1
                    } else {
                        m
                    },
                );
            }
        },
    }
}

fn move_up_exec(
    position: &mut (usize, usize),
    sub_position: &mut Option<CommentaryPosition>,
    Ghost(s): Ghost<Session>,
)
    requires
        s.position == *old(position),
        s.sub_position == *old(sub_position),
    ensures
        *final(position) == move_up(s).position,
        *final(sub_position) == move_up(s).sub_position,
{
    let (p0, p1) = *position;
    match *sub_position {
        Some(CommentaryPosition::Description(l, col)) => {
            if l > 0 {
                *sub_position = Some(CommentaryPosition::Description(l - 1, col));
            }
        },
        _ => {
            if p0 > 0 {
                *sub_position = None;
                *position = (p0 - 1, p1);
            }
        },
    }
}

fn move_down_exec(
    position: &mut (usize, usize),
    sub_position: &mut Option<CommentaryPosition>,
    current: &Text,
    Ghost(s): Ghost<Session>,
)
    requires
        s.position == *old(position),
        s.sub_position == *old(sub_position),
        s.current == current@,
        s.translation_state == TranslationState::Normal,
        session_input_ok(s, Input::Char('j')),
    ensures
        *final(position) == move_down(s).position,
        *final(sub_position) == move_down(s).sub_position,
{
    let (p0, p1) = *position;
    match *sub_position {
        Some(CommentaryPosition::Description(l, col)) => {
            let line = &current.text[p0];
            match &line.get_commentary_unchecked(p1).description_paragraph {
                Some(d) => {
                    if d.len() > 0 && l < d.len() - 1 {
                        *sub_position = Some(CommentaryPosition::Description(l + 1, col));
                    }
                },
                None => {},
            }
        },
        _ => {
            let n = current.text.len();
            if n >= 2 && p0 < n - 2 {
                *position = (p0 + 1, p1);
                *sub_position = None;
            }
        },
    }
}

fn add_commentary_exec(
    position: &mut (usize, usize),
    sub_position: &mut Option<CommentaryPosition>,
    command_buffer: &mut String,
    current: &mut Text,
    kind: NewCommentary,
    Ghost(s): Ghost<Session>,
)
    requires
        s.position == *old(position),
        s.sub_position == *old(sub_position),
        s.command_buffer == old(command_buffer)@,
        s.current == old(current)@,
        is_command_prefix(s.command_buffer) ==> s.position.0 < s.current.len(),
    ensures
        *final(position) == add_commentary(s, kind).position,
        *final(sub_position) == add_commentary(s, kind).sub_position,
        final(command_buffer)@ == add_commentary(s, kind).command_buffer,
        final(current)@ == add_commentary(s, kind).current,
{
    if is_command_prefix_exec(command_buffer) {
        *command_buffer = String::new();
        let (p0, p1) = *position;
        let lp = get_line_position(&*position, &current.text[p0], kind
            != NewCommentary::EmptyDescription);
        let text_len = byte_length(&current.text[p0].text);
        let ghost before = current@;
        let com = take_commentary(current, p0, lp);
        let Commentary { sentence_translation, description_paragraph } = com;
        let com = match kind {
            NewCommentary::Translation => Commentary {
                sentence_translation: Some(
                    match sentence_translation {
                        Some(t) => t,
                        None => String::new(),
                    },
                ),
                description_paragraph,
            },
            NewCommentary::Description => Commentary {
                sentence_translation,
                description_paragraph: Some(
                    match description_paragraph {
                        Some(d) => d,
                        None => {
                            let v = vec![String::new()];
                            assert(strings_view_of(&v) =~= seq![Seq::<char>::empty()]);
                            v
                        },
                    },
                ),
            },
            NewCommentary::EmptyDescription => Commentary {
                sentence_translation,
                description_paragraph: Some(
                    match description_paragraph {
                        Some(d) => d,
                        None => {
                            let v: Vec<String> = Vec::new();
                            assert(strings_view_of(&v) =~= Seq::<Seq<char>>::empty());
                            v
                        },
                    },
                ),
            },
        };
        put_commentary(current, p0, lp, com);
        proof {
            lemma_remove_insert(before, p0, lp, com@);
        }
        if p1 < text_len {
            *position = (p0, lp);
        }
        *sub_position = Some(
            if kind == NewCommentary::Translation {
                CommentaryPosition::Translation(0)
            } else {
                CommentaryPosition::Description(0, 0)
            },
        );
    }
}

spec fn strings_view_of(v: &Vec<String>) -> Seq<Seq<char>> {
    crate::structure::strings_view(*v)
}

fn type_translation_exec(
    position: &(usize, usize),
    sub_position: &mut Option<CommentaryPosition>,
    current: &mut Text,
    c: char,
    Ghost(s): Ghost<Session>,
)
    requires
        s.position == *position,
        s.sub_position == *old(sub_position),
        s.current == old(current)@,
        s.position.0 < s.current.len(),
        s.current[s.position.0 as int].commentary.contains_key(s.position.1),
    ensures
        *final(sub_position) == type_translation(s, c).sub_position,
        final(current)@ == type_translation(s, c).current,
{
    let (p0, p1) = *position;
    let ghost before = current@;
    let com = take_commentary(current, p0, p1);
    let Commentary { sentence_translation, description_paragraph } = com;
    match sentence_translation {
        Some(t) => {
            let mut t = t;
            let len = byte_length(&t);
            // Typing always inserts at the end of the translation.
            push_char(&mut t, c);
            *sub_position = Some(CommentaryPosition::Translation(len));
            let com = Commentary { sentence_translation: Some(t), description_paragraph };
            put_commentary(current, p0, p1, com);
            proof {
                lemma_remove_insert(before, p0, p1, com@);
            }
        },
        None => {
            let com = Commentary { sentence_translation: None, description_paragraph };
            put_commentary(current, p0, p1, com);
            proof {
                lemma_remove_insert(before, p0, p1, com@);
                assert(com@ == before[p0 as int].commentary[p1]);
                assert(before[p0 as int].commentary.insert(p1, com@) =~= before[p0
                    as int].commentary);
                assert(with_commentary(before, p0, p1, com@) =~= before);
            }
        },
    }
}

fn type_description_exec(
    position: &(usize, usize),
    sub_position: &mut Option<CommentaryPosition>,
    current: &mut Text,
    c: char,
    l: usize,
    Ghost(s): Ghost<Session>,
)
    requires
        s.position == *position,
        s.sub_position == *old(sub_position),
        s.current == old(current)@,
        s.position.0 < s.current.len(),
        s.current[s.position.0 as int].commentary.contains_key(
            commentary_key(s.current[s.position.0 as int], s.position.1),
        ),
        s.current[s.position.0 as int].commentary[commentary_key(
            s.current[s.position.0 as int],
            s.position.1,
        )].description matches Some(d) ==> l < d.len(),
    ensures
        *final(sub_position) == type_description(s, c, l).sub_position,
        final(current)@ == type_description(s, c, l).current,
{
    let (p0, p1) = *position;
    let key = current.text[p0].position_or_text_len(p1);
    let ghost before = current@;
    let com = take_commentary(current, p0, key);
    let Commentary { sentence_translation, description_paragraph } = com;
    match description_paragraph {
        Some(d) => {
            let mut d = d;
            let len = byte_length(&d[l]);
            // Typing always inserts at the end of the description line.
            push_char(&mut d[l], c);
            *sub_position = Some(CommentaryPosition::Description(l, len));
            let com = Commentary { sentence_translation, description_paragraph: Some(d) };
            put_commentary(current, p0, key, com);
            proof {
                lemma_remove_insert(before, p0, key, com@);
                let d0 = before[p0 as int].commentary[key].description.unwrap();
                assert(com@.description.unwrap() =~= d0.update(l as int, d0[l as int].push(c)));
            }
        },
        None => {
            let com = Commentary { sentence_translation, description_paragraph: None };
            put_commentary(current, p0, key, com);
            proof {
                lemma_remove_insert(before, p0, key, com@);
                assert(before[p0 as int].commentary.insert(key, com@) =~= before[p0
                    as int].commentary);
                assert(with_commentary(before, p0, key, com@) =~= before);
            }
        },
    }
}

fn new_description_line_exec(
    position: &(usize, usize),
    sub_position: &mut Option<CommentaryPosition>,
    current: &mut Text,
    l: usize,
    Ghost(s): Ghost<Session>,
)
    requires
        s.position == *position,
        s.sub_position == *old(sub_position),
        s.current == old(current)@,
        s.position.0 < s.current.len(),
        s.current[s.position.0 as int].commentary.contains_key(
            commentary_key(s.current[s.position.0 as int], s.position.1),
        ),
        s.current[s.position.0 as int].commentary[commentary_key(
            s.current[s.position.0 as int],
            s.position.1,
        )].description is Some ==> l < usize::MAX,
    ensures
        *final(sub_position) == new_description_line(s, l).sub_position,
        final(current)@ == new_description_line(s, l).current,
{
    let (p0, p1) = *position;
    let key = current.text[p0].position_or_text_len(p1);
    let ghost before = current@;
    let com = take_commentary(current, p0, key);
    let Commentary { sentence_translation, description_paragraph } = com;
    match description_paragraph {
        Some(d) => {
            let mut d = d;
            d.push(String::new());
            *sub_position = Some(CommentaryPosition::Description(l + 1, 0));
            let com = Commentary { sentence_translation, description_paragraph: Some(d) };
            put_commentary(current, p0, key, com);
            proof {
                lemma_remove_insert(before, p0, key, com@);
                let d0 = before[p0 as int].commentary[key].description.unwrap();
                assert(com@.description.unwrap() =~= d0.push(Seq::<char>::empty()));
            }
        },
        None => {
            let com = Commentary { sentence_translation, description_paragraph: None };
            put_commentary(current, p0, key, com);
            proof {
                lemma_remove_insert(before, p0, key, com@);
                assert(before[p0 as int].commentary.insert(key, com@) =~= before[p0
                    as int].commentary);
                assert(with_commentary(before, p0, key, com@) =~= before);
            }
        },
    }
}

pub open spec fn session_of(
    position: (usize, usize),
    sub_position: Option<CommentaryPosition>,
    command_buffer: Seq<char>,
    current: Seq<LineModel>,
    translation_state: TranslationState,
) -> Session {
    Session { position, sub_position, command_buffer, current, translation_state }
}

/// One input other than `q` in a translating session; `false` when the
/// input goes to the file explorer (nothing changes then).
fn session_input(
    position: &mut (usize, usize),
    sub_position: &mut Option<CommentaryPosition>,
    command_buffer: &mut String,
    current: &mut Text,
    translation_state: &mut TranslationState,
    input: Input,
) -> (handled: bool)
    requires
        session_input_ok(
            session_of(
                *old(position),
                *old(sub_position),
                old(command_buffer)@,
                old(current)@,
                *old(translation_state),
            ),
            input,
        ),
    ensures
        ({
            let s = session_of(
                *old(position),
                *old(sub_position),
                old(command_buffer)@,
                old(current)@,
                *old(translation_state),
            );
            let t = session_of(
                *final(position),
                *final(sub_position),
                final(command_buffer)@,
                final(current)@,
                *final(translation_state),
            );
            match session_step(s, input) {
                Some(s2) => handled && t == s2,
                None => !handled && t == s,
            }
        }),
{
    let ghost s = session_of(
        *position,
        *sub_position,
        command_buffer@,
        current@,
        *translation_state,
    );
    if *translation_state == TranslationState::Normal {
        match input {
            Input::Char(c) => {
                if c == 'l' {
                    move_right_exec(position, sub_position, current, Ghost(s));
                    true
                } else if c == 'h' {
                    move_left_exec(position, sub_position, current, Ghost(s));
                    true
                } else if c == 'k' {
                    move_up_exec(position, sub_position, Ghost(s));
                    true
                } else if c == 'j' {
                    move_down_exec(position, sub_position, current, Ghost(s));
                    true
                } else if c == 't' {
                    add_commentary_exec(
                        position,
                        sub_position,
                        command_buffer,
                        current,
                        NewCommentary::Translation,
                        Ghost(s),
                    );
                    true
                } else if c == 'd' {
                    add_commentary_exec(
                        position,
                        sub_position,
                        command_buffer,
                        current,
                        NewCommentary::Description,
                        Ghost(s),
                    );
                    true
                } else if c == 'D' {
                    add_commentary_exec(
                        position,
                        sub_position,
                        command_buffer,
                        current,
                        NewCommentary::EmptyDescription,
                        Ghost(s),
                    );
                    true
                } else if c == 'i' && sub_position.is_some() {
                    *translation_state = TranslationState::Editing;
                    true
                } else if c == ' ' {
                    push_char(command_buffer, ' ');
                    true
                } else {
                    false
                }
            },
            Input::Esc => {
                if is_command_prefix_exec(command_buffer) {
                    *command_buffer = String::new();
                    *sub_position = None;
                }
                true
            },
            _ => false,
        }
    } else {
        match input {
            Input::Esc => {
                *translation_state = TranslationState::Normal;
                true
            },
            Input::Char(c) => match *sub_position {
                Some(CommentaryPosition::Translation(_)) => {
                    type_translation_exec(&*position, sub_position, current, c, Ghost(s));
                    true
                },
                Some(CommentaryPosition::Description(l, _)) => {
                    type_description_exec(&*position, sub_position, current, c, l, Ghost(s));
                    true
                },
                None => false,
            },
            Input::Enter => match *sub_position {
                Some(CommentaryPosition::Description(l, _)) => {
                    new_description_line_exec(&*position, sub_position, current, l, Ghost(s));
                    true
                },
                _ => false,
            },
            Input::Other => false,
        }
    }
}

fn commentary_has_description_line(line: &Line, key: usize, l: usize) -> (r: bool)
    requires
        line@.commentary.contains_key(key),
    ensures
        r == (line@.commentary[key].description matches Some(d) ==> l < d.len()),
{
    match &line.commentary.get(&key).unwrap().description_paragraph {
        Some(d) => l < d.len(),
        None => true,
    }
}

fn session_accepts(
    position: &(usize, usize),
    sub_position: &Option<CommentaryPosition>,
    command_buffer: &String,
    current: &Text,
    translation_state: &TranslationState,
    input: Input,
) -> (r: bool)
    ensures
        r == session_input_ok(
            session_of(*position, *sub_position, command_buffer@, current@, *translation_state),
            input,
        ),
{
    let (p0, p1) = *position;
    let in_line = p0 < current.text.len();
    if *translation_state == TranslationState::Normal {
        match input {
            Input::Char(c) => {
                if c == 'l' {
                    sub_position.is_none() || in_line
                } else if c == 'h' {
                    match *sub_position {
                        Some(CommentaryPosition::Description(lp, col)) => {
                            if col == 0 {
                                true
                            } else if !in_line {
                                false
                            } else {
                                let line = &current.text[p0];
                                match line.get_commentary(p1) {
                                    Some(com) => match &com.description_paragraph {
                                        Some(d) => lp < d.len(),
                                        None => false,
                                    },
                                    None => false,
                                }
                            }
                        },
                        Some(CommentaryPosition::Translation(_)) => true,
                        None => p1 == 0 || in_line,
                    }
                } else if c == 'j' {
                    match *sub_position {
                        Some(CommentaryPosition::Description(_, _)) => in_line
                            && current.text[p0].get_commentary(p1).is_some(),
                        _ => true,
                    }
                } else if c == 't' || c == 'd' || c == 'D' {
                    !is_command_prefix_exec(command_buffer) || in_line
                } else {
                    true
                }
            },
            _ => true,
        }
    } else {
        match input {
            Input::Char(_) => match *sub_position {
                Some(CommentaryPosition::Translation(_)) => in_line
                    && current.text[p0].commentary.contains_key(&p1),
                Some(CommentaryPosition::Description(l, _)) => {
                    if !in_line {
                        false
                    } else {
                        let line = &current.text[p0];
                        let key = line.position_or_text_len(p1);
                        line.commentary.contains_key(&key) && commentary_has_description_line(
                            line,
                            key,
                            l,
                        )
                    }
                },
                None => true,
            },
            Input::Enter => match *sub_position {
                Some(CommentaryPosition::Description(l, _)) => {
                    if !in_line {
                        false
                    } else {
                        let line = &current.text[p0];
                        match line.get_commentary(p1) {
                            Some(com) => com.description_paragraph.is_none() || l < usize::MAX,
                            None => false,
                        }
                    }
                },
                _ => true,
            },
            _ => true,
        }
    }
}

impl AppState {
    pub fn in_editing_mode(&self) -> (r: bool)
        ensures
            r == in_editing(self.kind@),
    {
        match &self.kind {
            AppStateKind::Translating { translation_state, .. } => *translation_state
                == TranslationState::Editing,
            AppStateKind::New => false,
        }
    }

    pub fn in_normal_mode(&self) -> (r: bool)
        ensures
            r == !in_editing(self.kind@),
    {
        !self.in_editing_mode()
    }

    /// Handles one input and says what the program does next.
    pub fn handle_input(&mut self, input: Input) -> (r: Outcome)
        requires
            input_ok(old(self).kind@, input),
        ensures
            (final(self).kind@, r) == step(old(self).kind@, input),
            final(self).status == old(self).status,
    {
        if input == Input::Char('q') {
            return if self.in_normal_mode() {
                Outcome::Quit
            } else {
                Outcome::Continue
            };
        }
        match &mut self.kind {
            AppStateKind::New => Outcome::Explorer,
            AppStateKind::Translating {
                position,
                sub_position,
                command_buffer,
                current,
                translation_state,
            } => {
                if session_input(
                    position,
                    sub_position,
                    command_buffer,
                    current,
                    translation_state,
                    input,
                ) {
                    Outcome::Continue
                } else {
                    Outcome::Explorer
                }
            },
        }
    }

    /// Whether `handle_input` does its work on `input` without a panic
    /// (the program stops where this is false).
    pub fn accepts(&self, input: Input) -> (r: bool)
        ensures
            r == input_ok(self.kind@, input),
    {
        match &self.kind {
            AppStateKind::New => true,
            AppStateKind::Translating {
                position,
                sub_position,
                command_buffer,
                current,
                translation_state,
            } => input == Input::Char('q') || session_accepts(
                position,
                sub_position,
                command_buffer,
                current,
                translation_state,
                input,
            ),
        }
    }

    /// Opens a text: a translating session starts at its first line.
    pub fn load(&mut self, contents: &str)
        ensures
            final(self).kind@ == KindModel::Translating(
                Session {
                    position: (0, 0),
                    sub_position: None,
                    command_buffer: Seq::empty(),
                    current: split_lines(contents@).map_values(|l: Seq<char>| parsed_line(l)),
                    translation_state: TranslationState::Normal,
                },
            ),
            final(self).status == old(self).status,
    {
        let current = parse(contents);
        self.kind = AppStateKind::Translating {
            sub_position: None,
            position: (0, 0),
            current,
            command_buffer: String::new(),
            translation_state: TranslationState::Normal,
        };
    }
}


/// Two line sequences with the same lines apart from their commentary.
pub open spec fn same_lines(a: Seq<LineModel>, b: Seq<LineModel>) -> bool {
    &&& a.len() == b.len()
    &&& forall|i: int|
        0 <= i < a.len() ==> #[trigger] a[i].text == b[i].text && a[i].words == b[i].words
            && a[i].len == b[i].len
}

/// A session never changes the lines of its text: every input keeps their
/// number, their texts and their words; only commentary changes.
pub proof fn lemma_step_keeps_lines(k: KindModel, input: Input)
    requires
        kind_wf(k),
        input_ok(k, input),
    ensures
        k matches KindModel::Translating(s) ==> step(k, input).0 matches KindModel::Translating(
            s2,
        ) && same_lines(s.current, s2.current),
{
}

/// Every input keeps the session well formed: the cursor stays on a line.
pub proof fn lemma_step_keeps_wf(k: KindModel, input: Input)
    requires
        kind_wf(k),
        input_ok(k, input),
    ensures
        kind_wf(step(k, input).0),
{
    lemma_step_keeps_lines(k, input);
}

/// A loaded text gives a well-formed session.
pub proof fn lemma_load_wf(contents: Seq<char>)
    ensures
        kind_wf(
            KindModel::Translating(
                Session {
                    position: (0, 0),
                    sub_position: None,
                    command_buffer: Seq::empty(),
                    current: split_lines(contents).map_values(|l: Seq<char>| parsed_line(l)),
                    translation_state: TranslationState::Normal,
                },
            ),
        ),
{
    crate::converter::lemma_split_lines_len(contents);
}

/// `q` never changes the state; it quits unless a commentary is being edited.
pub proof fn lemma_q_quits_outside_editing(k: KindModel)
    ensures
        step(k, Input::Char('q')).0 == k,
        step(k, Input::Char('q')).1 == Outcome::Quit <==> !in_editing(k),
{
}

/// Entering editing mode (`i`) and leaving it (Escape) gives back the state.
pub proof fn lemma_edit_then_escape(s: Session)
    requires
        s.translation_state == TranslationState::Normal,
        s.sub_position is Some,
    ensures
        step(step(KindModel::Translating(s), Input::Char('i')).0, Input::Esc) == (
            KindModel::Translating(s),
            Outcome::Continue,
        ),
{
}

/// A character typed into a translation is appended to it, and the cursor
/// column moves to where it was written; no other commentary changes.
pub proof fn lemma_typing_appends(s: Session, c: char)
    requires
        s.translation_state == TranslationState::Editing,
        s.sub_position matches Some(CommentaryPosition::Translation(_)),
        session_wf(s),
        s.current[s.position.0 as int].commentary.contains_key(s.position.1),
        s.current[s.position.0 as int].commentary[s.position.1].translation is Some,
        c != 'q',
    ensures
        ({
            let (p0, p1) = s.position;
            let t = s.current[p0 as int].commentary[p1].translation.unwrap();
            let (k2, out) = step(KindModel::Translating(s), Input::Char(c));
            &&& out == Outcome::Continue
            &&& k2 matches KindModel::Translating(s2)
            &&& s2.current[p0 as int].commentary[p1].translation == Some(t.push(c))
            &&& s2.current[p0 as int].commentary[p1].description == s.current[p0
                as int].commentary[p1].description
            &&& s2.sub_position == Some(CommentaryPosition::Translation(byte_len(t)))
            &&& forall|key: usize|
                key != p1 ==> #[trigger] s2.current[p0 as int].commentary.contains_key(key)
                    == s.current[p0 as int].commentary.contains_key(key) && (
                s.current[p0 as int].commentary.contains_key(key) ==> s2.current[p0
                    as int].commentary[key] == s.current[p0 as int].commentary[key])
            &&& forall|i: int|
                0 <= i < s.current.len() && i != p0 ==> #[trigger] s2.current[i] == s.current[i]
        }),
{
}

/// A character typed into a description line is appended to that line, and
/// Enter adds an empty line after the description and moves the cursor to it.
pub proof fn lemma_description_editing(s: Session, c: char)
    requires
        s.translation_state == TranslationState::Editing,
        s.sub_position matches Some(CommentaryPosition::Description(_, _)),
        session_wf(s),
        s.current[s.position.0 as int].commentary.contains_key(
            commentary_key(s.current[s.position.0 as int], s.position.1),
        ),
        s.current[s.position.0 as int].commentary[commentary_key(
            s.current[s.position.0 as int],
            s.position.1,
        )].description is Some,
        c != 'q',
    ensures
        ({
            let (p0, p1) = s.position;
            let key = commentary_key(s.current[p0 as int], p1);
            let d = s.current[p0 as int].commentary[key].description.unwrap();
            let l = s.sub_position.unwrap()->Description_0;
            &&& l < d.len() ==> (step(KindModel::Translating(s), Input::Char(c)).0 matches KindModel::Translating(s2)
                && s2.current[p0 as int].commentary[key].description == Some(
                d.update(l as int, d[l as int].push(c)),
            ) && s2.sub_position == Some(CommentaryPosition::Description(l, byte_len(d[l as int]))))
            &&& l < usize::MAX ==> (step(KindModel::Translating(s), Input::Enter).0 matches KindModel::Translating(s2)
                && s2.current[p0 as int].commentary[key].description == Some(d.push(Seq::empty()))
                && s2.sub_position == Some(CommentaryPosition::Description((l + 1) as usize, 0)))
        }),
{
}

/// After the command space, `t` attaches a translation where the cursor's
/// word ends (keeping one that is there) and puts the cursor into it.
pub proof fn lemma_t_adds_translation(s: Session)
    requires
        s.translation_state == TranslationState::Normal,
        is_command_prefix(s.command_buffer),
        session_wf(s),
    ensures
        ({
            let (p0, p1) = s.position;
            let line = s.current[p0 as int];
            let lp = line_position(line, p1, true);
            let (k2, out) = step(KindModel::Translating(s), Input::Char('t'));
            &&& out == Outcome::Continue
            &&& k2 matches KindModel::Translating(s2)
            &&& s2.current[p0 as int].commentary.contains_key(lp)
            &&& s2.current[p0 as int].commentary[lp].translation is Some
            &&& (commentary_at(line, lp).translation matches Some(t) ==> s2.current[p0
                as int].commentary[lp].translation == Some(t))
            &&& s2.sub_position == Some(CommentaryPosition::Translation(0))
            &&& s2.command_buffer == Seq::<char>::empty()
        }),
{
}


/// After the command space, `d` attaches a description where the cursor's
/// word ends and `D` where it starts. A description that is there is kept
/// as it is (and so is the translation); where there is none, `d` starts one
/// of one empty line and `D` one of no line. The cursor goes to the start of
/// the description.
pub proof fn lemma_d_adds_description(s: Session, big: bool)
    requires
        s.translation_state == TranslationState::Normal,
        is_command_prefix(s.command_buffer),
        session_wf(s),
    ensures
        ({
            let (p0, p1) = s.position;
            let line = s.current[p0 as int];
            let lp = line_position(line, p1, !big);
            let old_c = commentary_at(line, lp);
            let (k2, out) = step(
                KindModel::Translating(s),
                Input::Char(if big { 'D' } else { 'd' }),
            );
            &&& out == Outcome::Continue
            &&& k2 matches KindModel::Translating(s2)
            &&& s2.current[p0 as int].commentary.contains_key(lp)
            &&& s2.current[p0 as int].commentary[lp].translation == old_c.translation
            &&& (old_c.description matches Some(d) ==> s2.current[p0
                as int].commentary[lp].description == Some(d))
            &&& (old_c.description is None ==> s2.current[p0 as int].commentary[lp].description
                == Some(if big { Seq::<Seq<char>>::empty() } else { seq![Seq::<char>::empty()] }))
            &&& forall|key: usize|
                key != lp ==> #[trigger] s2.current[p0 as int].commentary.contains_key(key)
                    == line.commentary.contains_key(key) && (line.commentary.contains_key(key)
                    ==> s2.current[p0 as int].commentary[key] == line.commentary[key])
            &&& s2.sub_position == Some(CommentaryPosition::Description(0, 0))
            &&& s2.command_buffer == Seq::<char>::empty()
        }),
{
}

/// In normal mode with the cursor on line `l` of a description, `j` moves it
/// to line `l + 1` (same column) where the description has one, and leaves
/// the state unchanged on its last line.
pub proof fn lemma_j_in_description(s: Session, l: usize, col: usize)
    requires
        s.translation_state == TranslationState::Normal,
        s.sub_position == Some(CommentaryPosition::Description(l, col)),
        session_wf(s),
        s.current[s.position.0 as int].commentary.contains_key(
            commentary_key(s.current[s.position.0 as int], s.position.1),
        ),
        s.current[s.position.0 as int].commentary[commentary_key(
            s.current[s.position.0 as int],
            s.position.1,
        )].description is Some,
    ensures
        ({
            let line = s.current[s.position.0 as int];
            let d = line.commentary[commentary_key(line, s.position.1)].description.unwrap();
            let (k2, out) = step(KindModel::Translating(s), Input::Char('j'));
            &&& out == Outcome::Continue
            &&& l + 1 < d.len() ==> k2 == KindModel::Translating(
                Session {
                    sub_position: Some(CommentaryPosition::Description((l + 1) as usize, col)),
                    ..s
                },
            )
            &&& l + 1 >= d.len() ==> k2 == KindModel::Translating(s)
        }),
{
}

/// In normal mode with the cursor on line `l` of a description, `k` moves it
/// to line `l - 1` (same column), and leaves the state unchanged on line 0.
pub proof fn lemma_k_in_description(s: Session, l: usize, col: usize)
    requires
        s.translation_state == TranslationState::Normal,
        s.sub_position == Some(CommentaryPosition::Description(l, col)),
    ensures
        ({
            let (k2, out) = step(KindModel::Translating(s), Input::Char('k'));
            &&& out == Outcome::Continue
            &&& l > 0 ==> k2 == KindModel::Translating(
                Session {
                    sub_position: Some(CommentaryPosition::Description((l - 1) as usize, col)),
                    ..s
                },
            )
            &&& l == 0 ==> k2 == KindModel::Translating(s)
        }),
{
}

/// In normal mode with the cursor in a translation at column `col`, `l`
/// moves it one byte right while it stays inside the translation, and `h`
/// one byte left while it is not at the start; nothing else changes.
pub proof fn lemma_h_l_in_translation(s: Session, col: usize)
    requires
        s.translation_state == TranslationState::Normal,
        s.sub_position == Some(CommentaryPosition::Translation(col)),
        session_wf(s),
        s.current[s.position.0 as int].commentary.contains_key(
            commentary_key(s.current[s.position.0 as int], s.position.1),
        ),
        s.current[s.position.0 as int].commentary[commentary_key(
            s.current[s.position.0 as int],
            s.position.1,
        )].translation is Some,
    ensures
        ({
            let line = s.current[s.position.0 as int];
            let t = line.commentary[commentary_key(line, s.position.1)].translation.unwrap();
            let right = step(KindModel::Translating(s), Input::Char('l')).0;
            let left = step(KindModel::Translating(s), Input::Char('h')).0;
            &&& col + 1 < byte_len(t) ==> right == KindModel::Translating(
                Session { sub_position: Some(CommentaryPosition::Translation((col + 1) as usize)), ..s },
            )
            &&& col + 1 >= byte_len(t) ==> right == KindModel::Translating(s)
            &&& col > 0 ==> left == KindModel::Translating(
                Session { sub_position: Some(CommentaryPosition::Translation((col - 1) as usize)), ..s },
            )
            &&& col == 0 ==> left == KindModel::Translating(s)
        }),
{
}

/// In normal mode with the cursor in the text (in no commentary), `l`
/// moves it one byte right while it stays inside the line, `h` one byte
/// left (kept inside the line), and `k` to the line above, same column.
pub proof fn lemma_moves_in_text(s: Session)
    requires
        s.translation_state == TranslationState::Normal,
        s.sub_position is None,
        session_wf(s),
    ensures
        ({
            let (p0, p1) = s.position;
            let len = byte_len(s.current[p0 as int].text);
            let right = step(KindModel::Translating(s), Input::Char('l')).0;
            let left = step(KindModel::Translating(s), Input::Char('h')).0;
            let up = step(KindModel::Translating(s), Input::Char('k')).0;
            &&& p1 + 1 < len ==> right == KindModel::Translating(
                Session { position: (p0, (p1 + 1) as usize), ..s },
            )
            &&& p1 + 1 >= len ==> right == KindModel::Translating(s)
            &&& p1 > 0 ==> left == KindModel::Translating(
                Session {
                    position: (p0, if p1 - 1 < len - 2 { (p1 - 1) as usize } else { sat_sub(len, 2) }),
                    ..s
                },
            )
            &&& p1 == 0 ==> left == KindModel::Translating(s)
            &&& p0 > 0 ==> up == KindModel::Translating(
                Session { position: ((p0 - 1) as usize, p1), ..s },
            )
            &&& p0 == 0 ==> up == KindModel::Translating(s)
        }),
{
}

/// In normal mode, a space starts a command, and Escape after it leaves the
/// commentary the cursor is in (back to the text) and ends the command;
/// Escape without a command changes nothing.
pub proof fn lemma_space_then_escape(s: Session)
    requires
        s.translation_state == TranslationState::Normal,
    ensures
        step(KindModel::Translating(s), Input::Char(' ')) == (
            KindModel::Translating(Session { command_buffer: s.command_buffer.push(' '), ..s }),
            Outcome::Continue,
        ),
        is_command_prefix(s.command_buffer) ==> step(KindModel::Translating(s), Input::Esc) == (
            KindModel::Translating(
                Session { command_buffer: Seq::empty(), sub_position: None, ..s },
            ),
            Outcome::Continue,
        ),
        !is_command_prefix(s.command_buffer) ==> step(KindModel::Translating(s), Input::Esc) == (
            KindModel::Translating(s),
            Outcome::Continue,
        ),
{
}

/// With the cursor on a word, `t` and `d` attach their commentary right after
/// that word and `D` right before it: never strictly inside a word.
pub proof fn lemma_commentary_outside_words(line: LineModel, p1: usize)
    requires
        words_wf(line.words, line.text),
        exists|k: int| 0 <= k < line.words.len() && #[trigger] line.words[k].0 <= p1 < line.words[k].1,
    ensures
        forall|end: bool, k: int|
            #![trigger line.words[k], line_position(line, p1, end)]
            0 <= k < line.words.len() ==> !(line.words[k].0 < line_position(line, p1, end)
                < line.words[k].1),
{
    let words = line.words;
    let j = choose|j: int| 0 <= j < words.len() && #[trigger] words[j].0 <= p1 < words[j].1;
    assert forall|end: bool, k: int|
        #![trigger words[k], line_position(line, p1, end)]
        0 <= k < words.len() implies !(words[k].0 < line_position(line, p1, end) < words[k].1) by {
        if k < j {
            assert(words[k].1 < words[j].0);
        } else if k > j {
            assert(words[j].1 < words[k].0);
        }
    }
}

} // verus!
